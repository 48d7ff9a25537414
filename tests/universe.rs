use game_of_life::universe::{ResizeError, Universe, HEIGHT, WIDTH};

fn sized(width: u32, height: u32) -> Universe {
    let mut u = Universe::new();
    u.set_width(width).unwrap();
    u.set_height(height).unwrap();
    u
}

fn alive(u: &Universe, row: u32, col: u32) -> bool {
    u.get_cells().contains((row * u.width() + col) as usize)
}

fn live_cells(u: &Universe) -> Vec<(u32, u32)> {
    let mut out = Vec::new();
    for row in 0..u.height() {
        for col in 0..u.width() {
            if alive(u, row, col) {
                out.push((row, col));
            }
        }
    }
    out
}

fn sorted(mut v: Vec<(u32, u32)>) -> Vec<(u32, u32)> {
    v.sort();
    v
}

#[test]
fn new_is_empty_at_default_size() {
    let u = Universe::new();
    assert_eq!(u.width(), WIDTH);
    assert_eq!(u.height(), HEIGHT);
    assert_eq!(u.get_cells().len(), (WIDTH * HEIGHT) as usize);
    assert!(live_cells(&u).is_empty());
}

#[test]
fn default_is_striped() {
    let u = Universe::new_default();
    for i in 0..(WIDTH * HEIGHT) as usize {
        assert_eq!(u.get_cells().contains(i), i % 2 == 0 || i % 7 == 0, "cell {}", i);
    }
    assert!(u.get_cells().contains(0));
    assert!(!u.get_cells().contains(1));
    assert!(u.get_cells().contains(7));
    assert!(!u.get_cells().contains(9));
    assert!(u.get_cells().contains(21));
}

#[test]
fn packed_blocks_follow_the_cells() {
    let u = Universe::new_default();
    let blocks = u.cells();
    assert_eq!(blocks.len(), (WIDTH * HEIGHT) as usize / 32);
    // Bits 0..32: even positions, plus 7, 21.
    let mut first: u32 = 0;
    for i in 0..32u32 {
        if i % 2 == 0 || i % 7 == 0 {
            first |= 1 << i;
        }
    }
    assert_eq!(blocks[0], first);
    for i in 0..(WIDTH * HEIGHT) as usize {
        assert_eq!((blocks[i / 32] >> (i % 32)) & 1 == 1, u.get_cells().contains(i));
    }
}

#[test]
fn random_follows_decisions() {
    let decisions = vec![true, false, false, true, true];
    let u = Universe::new_random(&decisions);
    assert_eq!(live_cells(&u), vec![(0, 0), (0, 3), (0, 4)]);
}

#[test]
fn reset_reseeds_and_keeps_size() {
    let mut u = sized(4, 3);
    u.toggle_cell(2, 3);
    u.reset(&[false, true, false, false, true]);
    assert_eq!(u.width(), 4);
    assert_eq!(u.height(), 3);
    assert_eq!(live_cells(&u), vec![(0, 1), (1, 0)]);
}

#[test]
fn toggle_flips_and_wraps() {
    let mut u = sized(5, 4);
    u.toggle_cell(1, 2);
    assert_eq!(live_cells(&u), vec![(1, 2)]);
    u.toggle_cell(1, 2);
    assert!(live_cells(&u).is_empty());
    u.toggle_cell(4 + 3, 5 * 2 + 1);
    assert_eq!(live_cells(&u), vec![(3, 1)]);
}

#[test]
fn set_cells_marks_without_clearing() {
    let mut u = sized(6, 6);
    u.toggle_cell(0, 0);
    u.set_cells(&[(1, 1), (2, 3), (1, 1)]);
    assert_eq!(live_cells(&u), vec![(0, 0), (1, 1), (2, 3)]);
}

#[test]
fn tick_is_deterministic() {
    let decisions: Vec<bool> = (0..(WIDTH * HEIGHT) as usize).map(|i| (i * 7 + i / 3) % 5 < 2).collect();
    let mut a = Universe::new_random(&decisions);
    let mut b = Universe::new_random(&decisions);
    a.tick();
    b.tick();
    assert_eq!(a.get_cells(), b.get_cells());
    a.tick();
    b.tick();
    assert_eq!(a.get_cells(), b.get_cells());
}

#[test]
fn block_is_still_life() {
    for &(r, c) in &[(2u32, 2u32), (0, 0), (5, 5), (5, 0)] {
        let mut u = sized(6, 6);
        u.set_cells(&[(r, c), (r, (c + 1) % 6), ((r + 1) % 6, c), ((r + 1) % 6, (c + 1) % 6)]);
        let before = live_cells(&u);
        u.tick();
        assert_eq!(live_cells(&u), before);
        u.tick();
        assert_eq!(live_cells(&u), before);
    }
}

#[test]
fn blinker_oscillates() {
    let mut u = sized(5, 5);
    u.set_cells(&[(2, 1), (2, 2), (2, 3)]);
    u.tick();
    assert_eq!(live_cells(&u), vec![(1, 2), (2, 2), (3, 2)]);
    u.tick();
    assert_eq!(live_cells(&u), vec![(2, 1), (2, 2), (2, 3)]);
}

#[test]
fn blinker_oscillates_across_the_edge() {
    let mut u = sized(7, 6);
    u.set_cells(&[(0, 6), (0, 0), (0, 1)]);
    u.tick();
    assert_eq!(live_cells(&u), vec![(0, 0), (1, 0), (5, 0)]);
    u.tick();
    assert_eq!(live_cells(&u), vec![(0, 0), (0, 1), (0, 6)]);
}

#[test]
fn glider_moves_one_cell_diagonally_every_four_ticks() {
    let mut u = Universe::new_with_glider();
    let start = live_cells(&u);
    assert_eq!(start.len(), 5);
    let (h, w) = (u.height(), u.width());
    for _ in 0..4 {
        u.tick();
    }
    let moved = sorted(start.iter().map(|&(r, c)| ((r + 1) % h, (c + 1) % w)).collect());
    assert_eq!(live_cells(&u), moved);
}

#[test]
fn glider_moves_across_the_edges() {
    let mut u = sized(8, 8);
    u.add_glider(7, 7);
    let start = live_cells(&u);
    assert_eq!(start, vec![(0, 0), (0, 7), (6, 0), (7, 0), (7, 6)]);
    for _ in 0..4 {
        u.tick();
    }
    let moved = sorted(start.iter().map(|&(r, c)| ((r + 1) % 8, (c + 1) % 8)).collect());
    assert_eq!(live_cells(&u), moved);
}

#[test]
fn glider_centre_of_default_universe() {
    let u = Universe::new_with_glider();
    assert_eq!(live_cells(&u), vec![(63, 65), (64, 63), (64, 65), (65, 64), (65, 65)]);
}

#[test]
fn corner_counts_opposite_corner() {
    let mut u = sized(5, 4);
    u.set_cells(&[(0, 0), (3, 4)]);
    assert_eq!(u.live_neighbor_count(0, 0), 1);
    assert_eq!(u.live_neighbor_count(3, 4), 1);
    assert_eq!(u.live_neighbor_count(1, 1), 1);
    assert_eq!(u.live_neighbor_count(2, 2), 0);
}

#[test]
fn single_row_counts_coinciding_neighbours_twice() {
    let mut u = sized(4, 1);
    u.set_cells(&[(0, 1)]);
    // North and south of (0, 0) are row 0 itself: (0, 1) is seen three times.
    assert_eq!(u.live_neighbor_count(0, 0), 3);
}

#[test]
fn resize_kills_every_cell() {
    let mut u = Universe::new_default();
    assert_eq!(u.set_width(10), Ok(()));
    assert_eq!(u.width(), 10);
    assert_eq!(u.get_cells().len(), (10 * u.height()) as usize);
    assert!(live_cells(&u).is_empty());
    u.toggle_cell(3, 3);
    assert_eq!(u.set_height(7), Ok(()));
    assert_eq!(u.height(), 7);
    assert_eq!(u.get_cells().len(), (u.width() * u.height()) as usize);
    assert!(live_cells(&u).is_empty());
}

#[test]
fn resize_to_zero_is_refused() {
    let mut u = sized(5, 5);
    u.toggle_cell(1, 1);
    assert_eq!(u.set_width(0), Err(ResizeError::ZeroDimension));
    assert_eq!(u.set_height(0), Err(ResizeError::ZeroDimension));
    assert_eq!((u.width(), u.height()), (5, 5));
    assert_eq!(live_cells(&u), vec![(1, 1)]);
}

#[test]
fn resize_past_u32_is_refused() {
    let mut u = Universe::new();
    assert_eq!(u.set_width(u32::MAX / 64), Err(ResizeError::TooLarge));
    assert_eq!(u.set_height(u32::MAX), Err(ResizeError::TooLarge));
    assert_eq!((u.width(), u.height()), (WIDTH, HEIGHT));
}

#[test]
fn glider_stamp_is_idempotent() {
    let mut u = Universe::new_default();
    u.add_glider(10, 20);
    let once = live_cells(&u);
    u.add_glider(10, 20);
    assert_eq!(live_cells(&u), once);
}

#[test]
fn glider_stamp_clears_its_box() {
    let mut u = sized(9, 9);
    for r in 0..9 {
        for c in 0..9 {
            u.toggle_cell(r, c);
        }
    }
    u.add_glider(4, 4);
    for r in 0..9u32 {
        for c in 0..9u32 {
            let in_box = (2..=6).contains(&r) && (2..=6).contains(&c);
            let glider = [(3, 5), (4, 3), (4, 5), (5, 4), (5, 5)].contains(&(r, c));
            assert_eq!(alive(&u, r, c), !in_box || glider, "({}, {})", r, c);
        }
    }
}

#[test]
fn pulsar_has_period_three() {
    let mut u = sized(17, 17);
    u.add_pulsar(8, 8);
    let start = live_cells(&u);
    assert_eq!(start.len(), 48);
    u.tick();
    assert_ne!(live_cells(&u), start);
    u.tick();
    assert_ne!(live_cells(&u), start);
    u.tick();
    assert_eq!(live_cells(&u), start);
}

#[test]
fn pulsar_stamp_is_idempotent_and_wraps() {
    let mut u = sized(20, 20);
    u.add_pulsar(0, 0);
    let once = live_cells(&u);
    assert_eq!(once.len(), 48);
    assert!(once.contains(&(14, 16)));
    assert!(once.contains(&(1, 2)));
    u.add_pulsar(20, 40);
    assert_eq!(live_cells(&u), once);
}

#[test]
fn glider_moves_on_smallest_boards() {
    for &(w, h) in &[(5u32, 5u32), (6, 6), (5, 9), (11, 6)] {
        for &(r, c) in &[(0u32, 0u32), (2, 3), (h - 1, w - 1)] {
            let mut u = sized(w, h);
            u.add_glider(r, c);
            let start = live_cells(&u);
            assert_eq!(start.len(), 5);
            for _ in 0..4 {
                u.tick();
            }
            let moved = sorted(start.iter().map(|&(x, y)| ((x + 1) % h, (y + 1) % w)).collect());
            assert_eq!(live_cells(&u), moved, "{}x{} at ({}, {})", w, h, r, c);
        }
    }
}

#[test]
fn block_on_default_universe_is_still() {
    let mut u = Universe::new();
    u.set_cells(&[(127, 127), (127, 0), (0, 127), (0, 0)]);
    u.tick();
    assert_eq!(live_cells(&u), vec![(0, 0), (0, 127), (127, 0), (127, 127)]);
}
