//! Laws of the model that relate several operations or every state.
use vstd::prelude::*;

use vstd::arithmetic::div_mod::{
    lemma_add_mod_noop_right, lemma_mod_add_multiples_vanish, lemma_mod_bound, lemma_mod_equivalence,
    lemma_mod_self_0, lemma_small_mod, lemma_sub_mod_noop,
};

use crate::board::{
    as_count, empty, glider_offsets, in_window, life_rule, pulsar_offsets, rect, wrap, Board,
};

verus! {

/// A generation is a function of the one before it alone: two universes in
/// the same state advance to the same state.
pub proof fn lemma_tick_deterministic(a: Board, b: Board)
    requires
        a == b,
    ensures
        a.next() == b.next(),
        a.next().width == a.width && a.next().height == a.height,
        a.next().cells.len() == a.cells.len(),
{
}

/// One step back from the first position of a cycle is its last.
proof fn lemma_step_back(n: nat)
    requires
        n >= 1,
    ensures
        wrap(0, -1, n) == n - 1,
{
    lemma_mod_add_multiples_vanish(-1, n as int);
    lemma_small_mod((n - 1) as nat, n);
}

/// Neighbours wrap diagonally: the corner cell `(height - 1, width - 1)`
/// counts as a neighbour of `(0, 0)`.
pub proof fn lemma_corner_wraps(b: Board)
    requires
        b.wf(),
        b.alive(b.height - 1, b.width - 1),
    ensures
        b.neighbor_count(0, 0) >= 1,
{
    lemma_step_back(b.height);
    lemma_step_back(b.width);
}

/// On a grid at least three cells each way whose only live cells are
/// `(0, 0)` and `(height - 1, width - 1)`, the first has exactly one live
/// neighbour: the second, reached across both edges.
pub proof fn lemma_two_corners(b: Board)
    requires
        b.wf(),
        b.width >= 3,
        b.height >= 3,
        forall|i: int| 0 <= i < b.cells.len() ==> #[trigger] b.cells[i] == (i == 0 || i == b.cells.len() - 1),
    ensures
        b.neighbor_count(0, 0) == 1,
{
    let w = b.width as int;
    let h = b.height as int;
    lemma_step_back(b.height);
    lemma_step_back(b.width);
    assert(wrap(0, 1, b.height) == 1) by {
        lemma_small_mod(1, b.height);
    }
    assert(wrap(0, 1, b.width) == 1) by {
        lemma_small_mod(1, b.width);
    }
    assert(b.cells.len() == w * h);
    assert((h - 1) * w + w - 1 == w * h - 1 && (h - 1) * w + 0 < w * h - 1 && (h - 1) * w + 1 < w * h
        - 1 && 0 * w + 1 < w * h - 1 && 1 * w + 1 < w * h - 1 && 1 * w + 0 < w * h - 1 && 1 * w + w - 1
        < w * h - 1 && 0 * w + w - 1 < w * h - 1 && 0 < (h - 1) * w) by (nonlinear_arith)
        requires
            w >= 3,
            h >= 3,
    ;
}

/// Stamping is idempotent: a second stamp of the same pattern at the same
/// anchor changes nothing, since the box is cleared before the pattern is
/// drawn.
pub proof fn lemma_stamp_idempotent(b: Board, row: int, col: int, k: int, offsets: Seq<(i32, i32)>)
    ensures
        b.stamp(row, col, k, offsets).stamp(row, col, k, offsets) == b.stamp(row, col, k, offsets),
{
    let once = b.stamp(row, col, k, offsets);
    let twice = once.stamp(row, col, k, offsets);
    assert(once.placed(row, col, offsets) == b.placed(row, col, offsets));
    assert(twice.cells =~= once.cells);
}

/// Stamping a glider twice at one anchor leaves what stamping it once did.
pub proof fn lemma_glider_idempotent(b: Board, row: int, col: int)
    ensures
        b.with_glider(row, col).with_glider(row, col) == b.with_glider(row, col),
{
    lemma_stamp_idempotent(b, row, col, 2, glider_offsets());
}

/// Stamping a pulsar twice at one anchor leaves what stamping it once did.
pub proof fn lemma_pulsar_idempotent(b: Board, row: int, col: int)
    ensures
        b.with_pulsar(row, col).with_pulsar(row, col) == b.with_pulsar(row, col),
{
    lemma_stamp_idempotent(b, row, col, 7, pulsar_offsets());
}

/// How many of the positions `t - 1`, `t`, `t + 1` of a cycle of length
/// `n` fall in `[0, len]`.
spec fn ring_count(t: int, len: int, n: int) -> int {
    as_count(1 <= t <= len + 1) + as_count(t <= len) + as_count(t + 1 <= len || t == n - 1)
}

/// A product with a small left factor, as repeated addition.
proof fn lemma_small_product(p: int, q: int)
    requires
        0 <= p <= 3,
    ensures
        p * q == if p == 0 {
            0
        } else if p == 1 {
            q
        } else if p == 2 {
            q + q
        } else {
            q + q + q
        },
{
    assert(p * q == if p == 0 {
        0
    } else if p == 1 {
        q
    } else if p == 2 {
        q + q
    } else {
        q + q + q
    }) by (nonlinear_arith)
        requires
            0 <= p <= 3,
    ;
}

/// The successor on a cycle, read off the remainder.
proof fn lemma_mod_succ(z: int, n: int)
    requires
        n > 0,
    ensures
        (z + 1) % n == if z % n == n - 1 { 0 } else { z % n + 1 },
        0 <= z % n < n,
{
    lemma_mod_bound(z, n);
    lemma_add_mod_noop_right(1, z, n);
    if z % n == n - 1 {
        lemma_mod_self_0(n);
    } else {
        lemma_small_mod((z % n + 1) as nat, n as nat);
    }
}

/// A position and its two neighbours along a cycle, against a window of
/// the cycle, in terms of the position's offset `t` into the window.
proof fn lemma_window_neighbors(x: int, a: int, lo: int, hi: int, n: nat)
    requires
        0 <= x < n,
        lo <= hi,
        n >= hi - lo + 3,
    ensures
        0 <= (x - a - lo) % (n as int) < n,
        in_window(x, a, lo, hi, n) == ((x - a - lo) % (n as int) <= hi - lo),
        in_window(wrap(x, -1, n), a, lo, hi, n) == (1 <= (x - a - lo) % (n as int) <= hi - lo + 1),
        in_window(wrap(x, 1, n), a, lo, hi, n) == ((x - a - lo) % (n as int) + 1 <= hi - lo || (x - a
            - lo) % (n as int) == n - 1),
        0 <= wrap(x, -1, n) < n,
        0 <= wrap(x, 1, n) < n,
{
    let m = n as int;
    let t = (x - a - lo) % m;
    lemma_mod_bound(x - a - lo, m);
    lemma_mod_bound(x - 1, m);
    lemma_mod_bound(x + 1, m);
    // Reducing the neighbour first does not change its offset.
    lemma_add_mod_noop_right(-a - lo, x - 1, m);
    lemma_add_mod_noop_right(-a - lo, x + 1, m);
    assert((-a - lo) + (x - 1) == (x - a - lo) + (-1));
    assert((-a - lo) + (x + 1) == (x - a - lo) + 1);
    lemma_add_mod_noop_right(-1, x - a - lo, m);
    lemma_mod_succ(x - a - lo, m);
    if t == 0 {
        lemma_mod_add_multiples_vanish(-1, m);
        lemma_small_mod((m - 1) as nat, n);
    } else {
        lemma_small_mod((t - 1) as nat, n);
    }
}

/// The next state of a cell of a rectangle pattern, from the offsets of its
/// row and column into the rectangle's windows.
proof fn lemma_rect_next(
    w: nat,
    h: nat,
    a: int,
    rlo: int,
    rhi: int,
    b: int,
    clo: int,
    chi: int,
    i: int,
)
    requires
        rlo <= rhi,
        clo <= chi,
        h >= rhi - rlo + 3,
        w >= chi - clo + 3,
        0 <= i < w * h,
    ensures
        ({
            let tr = (i / w as int - a - rlo) % (h as int);
            let tc = (i % w as int - b - clo) % (w as int);
            &&& 0 <= tr < h
            &&& 0 <= tc < w
            &&& rect(w, h, a, rlo, rhi, b, clo, chi).cells[i] == (tr <= rhi - rlo && tc <= chi - clo)
            &&& rect(w, h, a, rlo, rhi, b, clo, chi).next_cell(i) == life_rule(
                tr <= rhi - rlo && tc <= chi - clo,
                ring_count(tr, rhi - rlo, h as int) * ring_count(tc, chi - clo, w as int) - as_count(
                    tr <= rhi - rlo,
                ) * as_count(tc <= chi - clo),
            )
        }),
{
    let bd = rect(w, h, a, rlo, rhi, b, clo, chi);
    let wi = w as int;
    let hi = h as int;
    crate::universe::lemma_row_col(i, wi, hi);
    let x = i / wi;
    let y = i % wi;
    lemma_window_neighbors(x, a, rlo, rhi, h);
    lemma_window_neighbors(y, b, clo, chi, w);
    assert forall|rx: int, cy: int| 0 <= rx < h && 0 <= cy < w implies #[trigger] bd.alive(rx, cy) == (
    in_window(rx, a, rlo, rhi, h) && in_window(cy, b, clo, chi, w)) by {
        crate::universe::lemma_index(rx, cy, wi, hi);
    }
    let r0 = as_count(in_window(wrap(x, -1, h), a, rlo, rhi, h));
    let r1 = as_count(in_window(x, a, rlo, rhi, h));
    let r2 = as_count(in_window(wrap(x, 1, h), a, rlo, rhi, h));
    let c0 = as_count(in_window(wrap(y, -1, w), b, clo, chi, w));
    let c1 = as_count(in_window(y, b, clo, chi, w));
    let c2 = as_count(in_window(wrap(y, 1, w), b, clo, chi, w));
    assert(bd.neighbor_count(x, y) == (r0 + r1 + r2) * (c0 + c1 + c2) - r1 * c1) by (nonlinear_arith)
        requires
            bd.neighbor_count(x, y) == as_count(r0 == 1 && c0 == 1) + as_count(r0 == 1 && c1 == 1)
                + as_count(r0 == 1 && c2 == 1) + as_count(r1 == 1 && c2 == 1) + as_count(r2 == 1 && c2 == 1)
                + as_count(r2 == 1 && c1 == 1) + as_count(r2 == 1 && c0 == 1) + as_count(r1 == 1 && c0 == 1),
            0 <= r0 <= 1, 0 <= r1 <= 1, 0 <= r2 <= 1, 0 <= c0 <= 1, 0 <= c1 <= 1, 0 <= c2 <= 1,
    ;
}

/// A 2x2 block with top-left cell `(r, c)` on an otherwise empty board.
pub open spec fn block(w: nat, h: nat, r: int, c: int) -> Board {
    rect(w, h, r, 0, 1, c, 0, 1)
}

/// Three live cells `(r, c - 1)`, `(r, c)`, `(r, c + 1)` on an otherwise
/// empty board.
pub open spec fn blinker_across(w: nat, h: nat, r: int, c: int) -> Board {
    rect(w, h, r, 0, 0, c, -1, 1)
}

/// Three live cells `(r - 1, c)`, `(r, c)`, `(r + 1, c)` on an otherwise
/// empty board.
pub open spec fn blinker_down(w: nat, h: nat, r: int, c: int) -> Board {
    rect(w, h, r, -1, 1, c, 0, 0)
}

/// A 2x2 block surrounded by dead cells is a still life: every live cell
/// has three live neighbours and no dead cell has three.  The ring of dead
/// cells needs the board to be at least four cells each way.
pub proof fn lemma_block_still(w: nat, h: nat, r: int, c: int)
    requires
        w >= 4,
        h >= 4,
    ensures
        block(w, h, r, c).next() == block(w, h, r, c),
{
    let bd = block(w, h, r, c);
    assert forall|i: int| 0 <= i < bd.cells.len() implies #[trigger] bd.next().cells[i] == bd.cells[i] by {
        lemma_rect_next(w, h, r, 0, 1, c, 0, 1, i);
        lemma_small_product(
            ring_count((i / w as int - r - 0) % (h as int), 1 - 0, h as int),
            ring_count((i % w as int - c - 0) % (w as int), 1 - 0, w as int),
        );
    }
    assert(bd.next().cells =~= bd.cells);
}

/// A horizontal blinker becomes a vertical one centred on the same cell.
pub proof fn lemma_blinker_turns_down(w: nat, h: nat, r: int, c: int)
    requires
        w >= 5,
        h >= 3,
    ensures
        blinker_across(w, h, r, c).next() == blinker_down(w, h, r, c),
{
    let bd = blinker_across(w, h, r, c);
    let goal = blinker_down(w, h, r, c);
    assert forall|i: int| 0 <= i < bd.cells.len() implies #[trigger] bd.next().cells[i] == goal.cells[i] by {
        lemma_rect_next(w, h, r, 0, 0, c, -1, 1, i);
        lemma_small_product(
            ring_count((i / w as int - r - 0) % (h as int), 0 - 0, h as int),
            ring_count((i % w as int - c - -1) % (w as int), 1 - -1, w as int),
        );
        crate::universe::lemma_row_col(i, w as int, h as int);
        lemma_mod_succ(i / w as int - r, h as int);
        lemma_mod_succ(i % w as int - c, w as int);
        assert(i / w as int - r - (-1) == (i / w as int - r) + 1);
        assert(i % w as int - c - (-1) == (i % w as int - c) + 1);
        assert(i % w as int - c - 0 == i % w as int - c);
    }
    assert(bd.next().cells =~= goal.cells);
}

/// A vertical blinker becomes a horizontal one centred on the same cell.
pub proof fn lemma_blinker_turns_across(w: nat, h: nat, r: int, c: int)
    requires
        w >= 3,
        h >= 5,
    ensures
        blinker_down(w, h, r, c).next() == blinker_across(w, h, r, c),
{
    let bd = blinker_down(w, h, r, c);
    let goal = blinker_across(w, h, r, c);
    assert forall|i: int| 0 <= i < bd.cells.len() implies #[trigger] bd.next().cells[i] == goal.cells[i] by {
        lemma_rect_next(w, h, r, -1, 1, c, 0, 0, i);
        lemma_small_product(
            ring_count((i / w as int - r - -1) % (h as int), 1 - -1, h as int),
            ring_count((i % w as int - c - 0) % (w as int), 0 - 0, w as int),
        );
        crate::universe::lemma_row_col(i, w as int, h as int);
        lemma_mod_succ(i / w as int - r, h as int);
        lemma_mod_succ(i % w as int - c, w as int);
        assert(i / w as int - r - (-1) == (i / w as int - r) + 1);
        assert(i % w as int - c - (-1) == (i % w as int - c) + 1);
        assert(i / w as int - r - 0 == i / w as int - r);
    }
    assert(bd.next().cells =~= goal.cells);
}

/// A blinker on a board at least five cells each way oscillates with
/// period two: one generation turns it upright, the next turns it back.
pub proof fn lemma_blinker_period_two(w: nat, h: nat, r: int, c: int)
    requires
        w >= 5,
        h >= 5,
    ensures
        blinker_across(w, h, r, c).next() == blinker_down(w, h, r, c),
        blinker_across(w, h, r, c).next().next() == blinker_across(w, h, r, c),
{
    lemma_blinker_turns_down(w, h, r, c);
    lemma_blinker_turns_across(w, h, r, c);
}

/// Offset of `x` past `a` on the cycle `0..n`, read in `[lo - 1, n + lo - 2]`.
pub open spec fn offset(x: int, a: int, lo: int, n: nat) -> int {
    let t = (x - a - lo) % (n as int);
    if t == n - 1 {
        lo - 1
    } else {
        t + lo
    }
}

/// The live cells of a glider `k` generations after it was stamped, as
/// offsets from its anchor; after four generations it has moved one cell
/// down and one to the right.
pub open spec fn glider_phase(k: int, u: int, v: int) -> bool {
    if k == 0 {
        (u == -1 && v == 1) || (u == 0 && v == -1) || (u == 0 && v == 1) || (u == 1 && v == 0) || (u == 1 && v == 1)
    } else if k == 1 {
        (u == -1 && v == 0) || (u == 0 && v == 1) || (u == 0 && v == 2) || (u == 1 && v == 0) || (u == 1 && v == 1)
    } else if k == 2 {
        (u == -1 && v == 1) || (u == 0 && v == 2) || (u == 1 && v == 0) || (u == 1 && v == 1) || (u == 1 && v == 2)
    } else if k == 3 {
        (u == 0 && v == 0) || (u == 0 && v == 2) || (u == 1 && v == 1) || (u == 1 && v == 2) || (u == 2 && v == 1)
    } else {
        (u == 0 && v == 2) || (u == 1 && v == 0) || (u == 1 && v == 2) || (u == 2 && v == 1) || (u == 2 && v == 2)
    }
}

/// A board holding only a glider anchored at `(a, b)`, `k` generations on.
pub open spec fn glider_board(w: nat, h: nat, a: int, b: int, k: int) -> Board {
    Board {
        width: w,
        height: h,
        cells: Seq::new(
            w * h,
            |i: int| glider_phase(k, offset(i / w as int, a, -1, h), offset(i % w as int, b, -1, w)),
        ),
    }
}

/// The offset read at the next position along a cycle of length `n`.
pub open spec fn offset_succ(u: int, lo: int, n: nat) -> int {
    if u == n + lo - 2 {
        lo - 1
    } else {
        u + 1
    }
}

/// The offset read at the previous position along a cycle of length `n`.
pub open spec fn offset_pred(u: int, lo: int, n: nat) -> int {
    if u == lo - 1 {
        n + lo - 2
    } else {
        u - 1
    }
}

/// Live cells of glider phase `k` around the offset `(u, v)` on an
/// `h`-row, `w`-column cycle, offsets read from `-1`.
spec fn phase_count(k: int, u: int, v: int, h: nat, w: nat) -> int {
    let n = offset_pred(u, -1, h);
    let s = offset_succ(u, -1, h);
    let west = offset_pred(v, -1, w);
    let east = offset_succ(v, -1, w);
    as_count(glider_phase(k, n, west)) + as_count(glider_phase(k, n, v)) + as_count(
        glider_phase(k, n, east),
    ) + as_count(glider_phase(k, u, east)) + as_count(glider_phase(k, s, east)) + as_count(
        glider_phase(k, s, v),
    ) + as_count(glider_phase(k, s, west)) + as_count(glider_phase(k, u, west))
}

/// Stepping to a neighbouring position moves the offset one along the
/// cycle.
proof fn lemma_offset_step(x: int, a: int, lo: int, n: nat)
    requires
        0 <= x < n,
        n >= 2,
    ensures
        0 <= wrap(x, -1, n) < n,
        0 <= wrap(x, 1, n) < n,
        lo - 1 <= offset(x, a, lo, n) <= n + lo - 2,
        offset(wrap(x, 1, n), a, lo, n) == offset_succ(offset(x, a, lo, n), lo, n),
        offset(wrap(x, -1, n), a, lo, n) == offset_pred(offset(x, a, lo, n), lo, n),
{
    let m = n as int;
    let t = (x - a - lo) % m;
    lemma_mod_bound(x - a - lo, m);
    lemma_mod_bound(x - 1, m);
    lemma_mod_bound(x + 1, m);
    lemma_add_mod_noop_right(-a - lo, x - 1, m);
    lemma_add_mod_noop_right(-a - lo, x + 1, m);
    assert((-a - lo) + (x - 1) == (x - a - lo) + (-1));
    assert((-a - lo) + (x + 1) == (x - a - lo) + 1);
    lemma_add_mod_noop_right(-1, x - a - lo, m);
    lemma_mod_succ(x - a - lo, m);
    if t == 0 {
        lemma_mod_add_multiples_vanish(-1, m);
        lemma_small_mod((m - 1) as nat, n);
    } else {
        lemma_small_mod((t - 1) as nat, n);
    }
}

/// The glider's phases follow one another under the Life rule.
proof fn lemma_phase_step(k: int, u: int, v: int, h: nat, w: nat)
    requires
        0 <= k < 4,
        h >= 5,
        w >= 5,
        -2 <= u <= h - 3,
        -2 <= v <= w - 3,
    ensures
        life_rule(glider_phase(k, u, v), phase_count(k, u, v, h, w)) == glider_phase(k + 1, u, v),
{
}

/// One generation takes each phase of a lone glider to the next, on a
/// board at least five cells each way.
proof fn lemma_glider_board_step(w: nat, h: nat, a: int, b: int, k: int)
    requires
        w >= 5,
        h >= 5,
        0 <= k < 4,
    ensures
        glider_board(w, h, a, b, k).next() == glider_board(w, h, a, b, k + 1),
{
    let bd = glider_board(w, h, a, b, k);
    let goal = glider_board(w, h, a, b, k + 1);
    let wi = w as int;
    let hi = h as int;
    assert forall|rx: int, cy: int| 0 <= rx < h && 0 <= cy < w implies #[trigger] bd.alive(rx, cy)
        == glider_phase(k, offset(rx, a, -1, h), offset(cy, b, -1, w)) by {
        crate::universe::lemma_index(rx, cy, wi, hi);
    }
    assert forall|i: int| 0 <= i < bd.cells.len() implies #[trigger] bd.next().cells[i] == goal.cells[i] by {
        crate::universe::lemma_row_col(i, wi, hi);
        let x = i / wi;
        let y = i % wi;
        lemma_offset_step(x, a, -1, h);
        lemma_offset_step(y, b, -1, w);
        assert(bd.neighbor_count(x, y) == phase_count(k, offset(x, a, -1, h), offset(y, b, -1, w), h, w));
        lemma_phase_step(k, offset(x, a, -1, h), offset(y, b, -1, w), h, w);
    }
    assert(bd.next().cells =~= goal.cells);
}

/// Within `[lo, hi]`, the position `d` steps past `a` is the one whose
/// offset reads `d`.
proof fn lemma_offset_place(x: int, a: int, lo: int, hi: int, n: nat, d: int)
    requires
        0 <= x < n,
        lo <= d <= hi,
        n >= hi - lo + 2,
    ensures
        (x == wrap(a, d, n)) == (offset(x, a, lo, n) == d),
{
    let m = n as int;
    let t = (x - a - lo) % m;
    lemma_mod_bound(x - a - lo, m);
    lemma_small_mod((d - lo) as nat, n);
    lemma_small_mod(x as nat, n);
    if x == wrap(a, d, n) {
        lemma_add_mod_noop_right(-a - lo, a + d, m);
        assert(-a - lo + (a + d) == d - lo);
    }
    if t == d - lo {
        lemma_sub_mod_noop(x - a - lo, d - lo, m);
        lemma_small_mod(0, n);
        assert(x - a - lo - (d - lo) == x - (a + d));
        lemma_mod_equivalence(x, a + d, m);
    }
}

/// A glider stamped on an empty board at `(a + s, b + s)`, for `s` zero or
/// one, read as offsets from `(a, b)`: phase zero, or phase four.
proof fn lemma_glider_cells(w: nat, h: nat, a: int, b: int, sh: int, i: int)
    requires
        5 <= w <= u32::MAX,
        5 <= h <= u32::MAX,
        sh == 0 || sh == 1,
        0 <= i < w * h,
    ensures
        empty(w, h).with_glider(a + sh, b + sh).cells[i] == glider_phase(
            4 * sh,
            offset(i / w as int, a, -1, h),
            offset(i % w as int, b, -1, w),
        ),
{
    let e = empty(w, h);
    let g = glider_offsets();
    let p = e.placed(a + sh, b + sh, g);
    let wi = w as int;
    let hi = h as int;
    crate::universe::lemma_row_col(i, wi, hi);
    let x = i / wi;
    let y = i % wi;
    let u = offset(x, a, -1, h);
    let v = offset(y, b, -1, w);
    assert(g.len() == 5);
    assert(g[0] == (-1i32, 1i32) && g[1] == (0i32, -1i32) && g[2] == (0i32, 1i32) && g[3] == (1i32, 0i32)
        && g[4] == (1i32, 1i32));
    assert forall|j: int| 0 <= j < 5 implies (i == e.index(#[trigger] p[j].0 as int, p[j].1 as int)) == (u
        == g[j].0 + sh && v == g[j].1 + sh) by {
        let dr = g[j].0 as int;
        let dc = g[j].1 as int;
        assert(a + sh + dr == a + (dr + sh));
        assert(b + sh + dc == b + (dc + sh));
        lemma_mod_bound(a + (dr + sh), hi);
        lemma_mod_bound(b + (dc + sh), wi);
        crate::universe::lemma_index(wrap(a, dr + sh, h), wrap(b, dc + sh, w), wi, hi);
        lemma_offset_place(x, a, -1, 2, h, dr + sh);
        lemma_offset_place(y, b, -1, 2, w, dc + sh);
    }
    let hit = exists|j: int| 0 <= j < p.len() && i == e.index(p[j].0 as int, p[j].1 as int);
    assert(e.with_glider(a + sh, b + sh).cells[i] == hit);
    if glider_phase(4 * sh, u, v) {
        if u == g[0].0 + sh && v == g[0].1 + sh {
            assert(i == e.index(p[0].0 as int, p[0].1 as int));
        } else if u == g[1].0 + sh && v == g[1].1 + sh {
            assert(i == e.index(p[1].0 as int, p[1].1 as int));
        } else if u == g[2].0 + sh && v == g[2].1 + sh {
            assert(i == e.index(p[2].0 as int, p[2].1 as int));
        } else if u == g[3].0 + sh && v == g[3].1 + sh {
            assert(i == e.index(p[3].0 as int, p[3].1 as int));
        } else {
            assert(i == e.index(p[4].0 as int, p[4].1 as int));
        }
    }
}

/// A glider stamped on an empty board at least five cells each way moves
/// one cell down and one to the right, wrapping, every four generations.
pub proof fn lemma_glider_moves(w: nat, h: nat, a: int, b: int)
    requires
        5 <= w <= u32::MAX,
        5 <= h <= u32::MAX,
    ensures
        empty(w, h).with_glider(a, b).next().next().next().next() == empty(w, h).with_glider(a + 1, b + 1),
{
    let start = empty(w, h).with_glider(a, b);
    let end = empty(w, h).with_glider(a + 1, b + 1);
    assert forall|i: int| 0 <= i < w * h implies #[trigger] start.cells[i] == glider_board(w, h, a, b, 0).cells[i] by {
        lemma_glider_cells(w, h, a, b, 0, i);
    }
    assert forall|i: int| 0 <= i < w * h implies #[trigger] end.cells[i] == glider_board(w, h, a, b, 4).cells[i] by {
        lemma_glider_cells(w, h, a, b, 1, i);
    }
    assert(start.cells =~= glider_board(w, h, a, b, 0).cells);
    assert(end.cells =~= glider_board(w, h, a, b, 4).cells);
    lemma_glider_board_step(w, h, a, b, 0);
    lemma_glider_board_step(w, h, a, b, 1);
    lemma_glider_board_step(w, h, a, b, 2);
    lemma_glider_board_step(w, h, a, b, 3);
}

} // verus!
