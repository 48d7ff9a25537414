//! The mathematical model of a universe: its dimensions and the row-major
//! sequence of its cells, with the Life rule, toroidal wrapping and pattern
//! stamping stated over it.
use vstd::prelude::*;

verus! {

/// A generation: `cells[row * width + col]` tells whether that cell lives.
pub struct Board {
    pub width: nat,
    pub height: nat,
    pub cells: Seq<bool>,
}

/// `a + d` reduced onto the cycle `0..n`.
pub open spec fn wrap(a: int, d: int, n: nat) -> int {
    (a + d) % (n as int)
}

/// Whether `r` lies within `k` steps of `a` on the cycle `0..n`.  When the
/// cycle is shorter than `2 * k + 1` every position qualifies.
pub open spec fn in_band(r: int, a: int, k: int, n: nat) -> bool {
    (r - a + k) % (n as int) <= 2 * k
}

/// Whether `x` lies in `[a + lo, a + hi]` on the cycle `0..n`.
pub open spec fn in_window(x: int, a: int, lo: int, hi: int, n: nat) -> bool {
    (x - a - lo) % (n as int) <= hi - lo
}

/// The Life rule: survival on two or three live neighbours, birth on three.
pub open spec fn life_rule(alive: bool, neighbors: int) -> bool {
    if alive {
        neighbors == 2 || neighbors == 3
    } else {
        neighbors == 3
    }
}

pub open spec fn as_count(b: bool) -> int {
    if b {
        1
    } else {
        0
    }
}

/// Offsets of the glider's five live cells from its anchor.
pub open spec fn glider_offsets() -> Seq<(i32, i32)> {
    seq![(-1i32, 1i32), (0i32, -1i32), (0i32, 1i32), (1i32, 0i32), (1i32, 1i32)]
}

/// Offsets of the pulsar's forty-eight live cells from its centre.
pub open spec fn pulsar_offsets() -> Seq<(i32, i32)> {
    seq![
        (-6i32, -4i32), (-6i32, -3i32), (-6i32, -2i32), (-6i32, 2i32), (-6i32, 3i32), (-6i32, 4i32),
        (-4i32, -6i32), (-4i32, -1i32), (-4i32, 1i32), (-4i32, 6i32),
        (-3i32, -6i32), (-3i32, -1i32), (-3i32, 1i32), (-3i32, 6i32),
        (-2i32, -6i32), (-2i32, -1i32), (-2i32, 1i32), (-2i32, 6i32),
        (-1i32, -4i32), (-1i32, -3i32), (-1i32, -2i32), (-1i32, 2i32), (-1i32, 3i32), (-1i32, 4i32),
        (1i32, -4i32), (1i32, -3i32), (1i32, -2i32), (1i32, 2i32), (1i32, 3i32), (1i32, 4i32),
        (2i32, -6i32), (2i32, -1i32), (2i32, 1i32), (2i32, 6i32),
        (3i32, -6i32), (3i32, -1i32), (3i32, 1i32), (3i32, 6i32),
        (4i32, -6i32), (4i32, -1i32), (4i32, 1i32), (4i32, 6i32),
        (6i32, -4i32), (6i32, -3i32), (6i32, -2i32), (6i32, 2i32), (6i32, 3i32), (6i32, 4i32),
    ]
}

/// A `width` x `height` board with every cell dead.
pub open spec fn empty(width: nat, height: nat) -> Board {
    Board { width, height, cells: Seq::new(width * height, |i: int| false) }
}

/// A `width` x `height` board whose live cells are those with a row in
/// `[a + rlo, a + rhi]` and a column in `[b + clo, b + chi]`, both wrapped.
pub open spec fn rect(
    width: nat,
    height: nat,
    a: int,
    rlo: int,
    rhi: int,
    b: int,
    clo: int,
    chi: int,
) -> Board {
    Board {
        width,
        height,
        cells: Seq::new(
            width * height,
            |i: int|
                in_window(i / width as int, a, rlo, rhi, height) && in_window(
                    i % width as int,
                    b,
                    clo,
                    chi,
                    width,
                ),
        ),
    }
}

impl Board {
    /// Positive dimensions and one cell per position.
    pub open spec fn wf(self) -> bool {
        &&& self.width >= 1
        &&& self.height >= 1
        &&& self.cells.len() == self.width * self.height
    }

    pub open spec fn index(self, row: int, col: int) -> int {
        row * self.width + col
    }

    pub open spec fn alive(self, row: int, col: int) -> bool {
        self.cells[self.index(row, col)]
    }

    /// Live cells among the eight wrapped neighbours of `(row, col)`.  On a
    /// grid one cell high or wide, coinciding neighbours count once each.
    pub open spec fn neighbor_count(self, row: int, col: int) -> int {
        let n = wrap(row, -1, self.height);
        let s = wrap(row, 1, self.height);
        let w = wrap(col, -1, self.width);
        let e = wrap(col, 1, self.width);
        as_count(self.alive(n, w)) + as_count(self.alive(n, col)) + as_count(self.alive(n, e))
            + as_count(self.alive(row, e)) + as_count(self.alive(s, e)) + as_count(
            self.alive(s, col),
        ) + as_count(self.alive(s, w)) + as_count(self.alive(row, w))
    }

    /// What the cell at linear position `i` becomes in the next generation.
    pub open spec fn next_cell(self, i: int) -> bool {
        life_rule(self.cells[i], self.neighbor_count(i / self.width as int, i % self.width as int))
    }

    /// The next generation, each cell computed from this one alone.
    pub open spec fn next(self) -> Board {
        Board {
            width: self.width,
            height: self.height,
            cells: Seq::new(self.cells.len(), |i: int| self.next_cell(i)),
        }
    }

    /// The same dimensions with every cell dead.
    pub open spec fn cleared(self) -> Board {
        empty(self.width, self.height)
    }

    /// Each listed `(row, col)` made alive, the rest kept.
    pub open spec fn mark(self, coords: Seq<(u32, u32)>) -> Board {
        Board {
            width: self.width,
            height: self.height,
            cells: Seq::new(
                self.cells.len(),
                |i: int|
                    self.cells[i] || exists|j: int|
                        0 <= j < coords.len() && i == self.index(
                            coords[j].0 as int,
                            coords[j].1 as int,
                        ),
            ),
        }
    }

    /// Whether linear position `i` lies in the box of radius `k` around
    /// `(row, col)`.
    pub open spec fn in_box(self, i: int, row: int, col: int, k: int) -> bool {
        in_band(i / self.width as int, row, k, self.height) && in_band(
            i % self.width as int,
            col,
            k,
            self.width,
        )
    }

    /// Every cell of the box of radius `k` around `(row, col)` made dead.
    pub open spec fn clear_box(self, row: int, col: int, k: int) -> Board {
        Board {
            width: self.width,
            height: self.height,
            cells: Seq::new(self.cells.len(), |i: int| !self.in_box(i, row, col, k) && self.cells[i]),
        }
    }

    /// The wrapped positions of `offsets` around the anchor `(row, col)`.
    pub open spec fn placed(self, row: int, col: int, offsets: Seq<(i32, i32)>) -> Seq<(u32, u32)> {
        offsets.map_values(
            |o: (i32, i32)|
                (
                    wrap(row, o.0 as int, self.height) as u32,
                    wrap(col, o.1 as int, self.width) as u32,
                ),
        )
    }

    /// The box of radius `k` around the anchor cleared, then the cells at
    /// `offsets` from it made alive.
    pub open spec fn stamp(self, row: int, col: int, k: int, offsets: Seq<(i32, i32)>) -> Board {
        self.clear_box(row, col, k).mark(self.placed(row, col, offsets))
    }

    /// The universe after stamping a glider at `(row, col)`.
    pub open spec fn with_glider(self, row: int, col: int) -> Board {
        self.stamp(row, col, 2, glider_offsets())
    }

    /// The universe after stamping a pulsar at `(row, col)`.
    pub open spec fn with_pulsar(self, row: int, col: int) -> Board {
        self.stamp(row, col, 7, pulsar_offsets())
    }
}

} // verus!
