//! The universe: dimensions and a packed cell store, advanced one generation
//! at a time and seeded by construction policies and pattern stamps.
use vstd::prelude::*;

use fixedbitset::FixedBitSet;
use vstd::arithmetic::div_mod::{
    lemma_add_mod_noop_right, lemma_fundamental_div_mod, lemma_fundamental_div_mod_converse,
    lemma_mod_add_multiples_vanish, lemma_mod_equivalence, lemma_mod_pos_bound, lemma_small_mod,
    lemma_sub_mod_noop,
};

use crate::bits::{bits_of, blocks, copy_bits, flip_bit, get_bit, new_clear, put_bit};
use crate::board::{empty, glider_offsets, life_rule, pulsar_offsets, wrap, Board};

verus! {

/// Default number of columns.
pub const WIDTH: u32 = 128;

/// Default number of rows.
pub const HEIGHT: u32 = 128;

/// Why a resize was refused.
#[derive(Debug, Clone, Copy, PartialEq, Eq)]
pub enum ResizeError {
    /// A dimension of zero leaves no cell to address.
    ZeroDimension,
    /// The cell count would not fit in a `u32`.
    TooLarge,
}

pub struct Universe {
    width: u32,
    height: u32,
    cells: FixedBitSet,
}

impl View for Universe {
    type V = Board;

    closed spec fn view(&self) -> Board {
        Board { width: self.width as nat, height: self.height as nat, cells: bits_of(self.cells) }
    }
}

/// Decomposition of a linear position into row and column.
pub(crate) proof fn lemma_row_col(i: int, w: int, h: int)
    requires
        w > 0,
        h > 0,
        0 <= i < w * h,
    ensures
        0 <= i / w < h,
        0 <= i % w < w,
        i == (i / w) * w + i % w,
{
    lemma_fundamental_div_mod(i, w);
    lemma_mod_pos_bound(i, w);
    vstd::arithmetic::mul::lemma_mul_is_commutative(i / w, w);
    let q = i / w;
    let r = i % w;
    assert(0 <= q < h) by (nonlinear_arith)
        requires
            i == w * q + r,
            0 <= r < w,
            0 <= i < w * h,
            w > 0,
    ;
}

/// A row and column inside the grid give a position inside it, from which
/// they are recovered.
pub(crate) proof fn lemma_index(r: int, c: int, w: int, h: int)
    requires
        0 <= r < h,
        0 <= c < w,
    ensures
        0 <= r * w + c < w * h,
        (r * w + c) / w == r,
        (r * w + c) % w == c,
{
    assert(0 <= r * w + c < w * h) by (nonlinear_arith)
        requires
            0 <= r < h,
            0 <= c < w,
    ;
    lemma_fundamental_div_mod_converse(r * w + c, w, r, c);
}

/// Advancing the band counter from `t` to `t + 1` adds exactly the position
/// `(a - k + t) mod n`.
proof fn lemma_band_step(r: int, a: int, k: int, t: int, n: int)
    requires
        n > 0,
        0 <= r < n,
        t >= 0,
    ensures
        ((r - a + k) % n < t + 1) <==> ((r - a + k) % n < t || r == (a + (t - k)) % n),
{
    let cr = (a + (t - k)) % n;
    lemma_add_mod_noop_right(k - a, a + (t - k), n);
    assert(cr - a + k == (k - a) + cr);
    lemma_mod_pos_bound(t, n);
    if t < n {
        lemma_small_mod(t as nat, n as nat);
    }
    let x = (r - a + k) % n;
    if x == t {
        lemma_small_mod(t as nat, n as nat);
        lemma_sub_mod_noop(r - a + k, t, n);
        lemma_small_mod(0, n as nat);
        lemma_mod_equivalence(r, a + (t - k), n);
        assert(r - (a + (t - k)) == (r - a + k) - t);
        lemma_small_mod(r as nat, n as nat);
    }
}

proof fn lemma_product_fits(a: u32, b: u32)
    ensures
        a as int * b as int <= u64::MAX,
{
    assert(a as int * b as int <= u32::MAX as int * u32::MAX as int) by (nonlinear_arith)
        requires
            a <= u32::MAX,
            b <= u32::MAX,
            0 <= a,
            0 <= b,
    ;
}

/// How far past `a - k` the position `r` lies on the cycle `0..n`.
spec fn band_pos(r: int, a: int, k: int, n: int) -> int {
    (r - a + k) % n
}

/// Whether position `i` lies in the first `t` rows of the box around
/// `(row, col)` and within its columns.
spec fn swept(i: int, row: int, col: int, k: int, w: int, h: int, t: int) -> bool {
    band_pos(i / w, row, k, h) < t && band_pos(i % w, col, k, w) <= 2 * k
}

/// `(a + d) mod n` for any anchor and signed step.
fn shift(a: u32, d: i32, n: u32) -> (r: u32)
    requires
        n > 0,
    ensures
        r as int == wrap(a as int, d as int, n as nat),
        r < n,
{
    let nn = n as u64;
    let base = a as u64 % nn;
    if d >= 0 {
        let m = d as u64 % nn;
        proof {
            vstd::arithmetic::div_mod::lemma_add_mod_noop(a as int, d as int, n as int);
        }
        ((base + m) % nn) as u32
    } else {
        let m = (0i64 - d as i64) as u64 % nn;
        proof {
            lemma_sub_mod_noop(a as int, 0 - d as int, n as int);
            lemma_mod_add_multiples_vanish(base as int - m as int, n as int);
            assert(a as int + d as int == a as int - (0 - d as int));
        }
        ((base + nn - m) % nn) as u32
    }
}

impl Universe {
    /// Positive dimensions, one bit per cell, and a cell count that fits in
    /// a `u32`.
    pub open spec fn wf(&self) -> bool {
        &&& self@.wf()
        &&& self@.cells.len() <= u32::MAX
    }

    proof fn lemma_wf(&self)
        requires
            self.wf(),
        ensures
            self.width as int * self.height as int <= u32::MAX,
            self.width > 0,
            self.height > 0,
            bits_of(self.cells).len() == self.width as int * self.height as int,
    {
    }

    fn get_index(&self, row: u32, column: u32) -> (r: usize)
        requires
            self.wf(),
            row < self.height,
            column < self.width,
        ensures
            r as int == self@.index(row as int, column as int),
            r < self@.cells.len(),
    {
        proof {
            self.lemma_wf();
            lemma_index(row as int, column as int, self.width as int, self.height as int);
        }
        (row as u64 * self.width as u64 + column as u64) as usize
    }

    /// The number of live cells among the eight wrapped neighbours of
    /// `(row, col)`.
    pub fn live_neighbor_count(&self, row: u32, col: u32) -> (r: u8)
        requires
            self.wf(),
            row < self@.height,
            col < self@.width,
        ensures
            r as int == self@.neighbor_count(row as int, col as int),
    {
        proof {
            self.lemma_wf();
        }
        let north = shift(row, -1, self.height);
        let south = shift(row, 1, self.height);
        let west = shift(col, -1, self.width);
        let east = shift(col, 1, self.width);
        let mut count: u8 = 0;
        if get_bit(&self.cells, self.get_index(north, west)) {
            count = count + 1;
        }
        if get_bit(&self.cells, self.get_index(north, col)) {
            count = count + 1;
        }
        if get_bit(&self.cells, self.get_index(north, east)) {
            count = count + 1;
        }
        if get_bit(&self.cells, self.get_index(row, east)) {
            count = count + 1;
        }
        if get_bit(&self.cells, self.get_index(south, east)) {
            count = count + 1;
        }
        if get_bit(&self.cells, self.get_index(south, col)) {
            count = count + 1;
        }
        if get_bit(&self.cells, self.get_index(south, west)) {
            count = count + 1;
        }
        if get_bit(&self.cells, self.get_index(row, west)) {
            count = count + 1;
        }
        count
    }

    /// Flips the cell at `(row, column)`, both taken modulo the dimensions.
    pub fn toggle_cell(&mut self, row: u32, column: u32)
        requires
            old(self).wf(),
        ensures
            final(self).wf(),
            final(self)@ == (Board {
                cells: old(self)@.cells.update(
                    old(self)@.index(row as int % old(self)@.height as int, column as int % old(self)@.width as int),
                    !old(self)@.alive(row as int % old(self)@.height as int, column as int % old(self)@.width as int),
                ),
                ..old(self)@
            }),
    {
        let idx = self.get_index(row % self.height, column % self.width);
        flip_bit(&mut self.cells, idx);
    }

    /// Makes each listed `(row, column)` alive, leaving every other cell as
    /// it was.  The coordinates are used as given, so they must lie inside
    /// the grid.
    pub fn set_cells(&mut self, cells: &[(u32, u32)])
        requires
            old(self).wf(),
            forall|j: int|
                0 <= j < cells@.len() ==> #[trigger] cells@[j].0 < old(self)@.height
                    && cells@[j].1 < old(self)@.width,
        ensures
            final(self).wf(),
            final(self)@ == old(self)@.mark(cells@),
    {
        let ghost before = self@;
        let mut k: usize = 0;
        while k < cells.len()
            invariant
                self.wf(),
                self@.width == before.width,
                self@.height == before.height,
                self@.cells.len() == before.cells.len(),
                k <= cells@.len(),
                forall|j: int|
                    0 <= j < cells@.len() ==> #[trigger] cells@[j].0 < before.height
                        && cells@[j].1 < before.width,
                forall|i: int|
                    0 <= i < before.cells.len() ==> #[trigger] self@.cells[i] == (before.cells[i]
                        || exists|j: int|
                        0 <= j < k && i == before.index(cells@[j].0 as int, cells@[j].1 as int)),
            decreases cells@.len() - k,
        {
            let (row, col) = cells[k];
            let idx = self.get_index(row, col);
            put_bit(&mut self.cells, idx, true);
            assert forall|i: int| 0 <= i < before.cells.len() implies #[trigger] self@.cells[i] == (
            before.cells[i] || exists|j: int|
                0 <= j < k + 1 && i == before.index(cells@[j].0 as int, cells@[j].1 as int)) by {
                if i == idx as int {
                    assert(0 <= k < k + 1 && i == before.index(cells@[k as int].0 as int, cells@[k as int].1 as int));
                }
            }
            k = k + 1;
        }
        assert(self@.cells =~= before.mark(cells@).cells);
    }

    /// Kills every cell within `k` rows and `k` columns of `(row, col)`,
    /// wrapping round the edges.
    fn clear_box(&mut self, row: u32, col: u32, k: u32)
        requires
            old(self).wf(),
            k <= 7,
        ensures
            final(self).wf(),
            final(self)@ == old(self)@.clear_box(row as int, col as int, k as int),
    {
        proof {
            self.lemma_wf();
        }
        let ghost before = self@;
        let w = self.width;
        let h = self.height;
        let ghost (wi, hi, ki) = (w as int, h as int, k as int);
        let mut tr: u32 = 0;
        while tr <= 2 * k
            invariant
                self.wf(),
                k <= 7,
                w == self.width,
                h == self.height,
                wi == w,
                hi == h,
                ki == k,
                self@.width == before.width,
                self@.height == before.height,
                before.cells.len() == wi * hi,
                self@.cells.len() == before.cells.len(),
                tr <= 2 * k + 1,
                forall|i: int|
                    0 <= i < before.cells.len() ==> #[trigger] self@.cells[i] == (
                    !swept(i, row as int, col as int, ki, wi, hi, tr as int) && before.cells[i]),
            decreases 2 * k + 1 - tr,
        {
            let r = shift(row, tr as i32 - k as i32, h);
            let mut tc: u32 = 0;
            while tc <= 2 * k
                invariant
                    self.wf(),
                    k <= 7,
                    w == self.width,
                    h == self.height,
                    wi == w,
                    hi == h,
                    ki == k,
                    self@.width == before.width,
                    self@.height == before.height,
                    before.cells.len() == wi * hi,
                    self@.cells.len() == before.cells.len(),
                    tr <= 2 * k,
                    tc <= 2 * k + 1,
                    r < h,
                    forall|i: int|
                        0 <= i < before.cells.len() ==> #[trigger] self@.cells[i] == (!(swept(
                            i,
                            row as int,
                            col as int,
                            ki,
                            wi,
                            hi,
                            tr as int,
                        ) || (i / wi == r && band_pos(i % wi, col as int, ki, wi) < tc))
                            && before.cells[i]),
                decreases 2 * k + 1 - tc,
            {
                let c = shift(col, tc as i32 - k as i32, w);
                let idx = self.get_index(r, c);
                put_bit(&mut self.cells, idx, false);
                proof {
                    lemma_index(r as int, c as int, wi, hi);
                    assert forall|i: int| 0 <= i < before.cells.len() implies #[trigger] self@.cells[i]
                        == (!(swept(i, row as int, col as int, ki, wi, hi, tr as int) || (i / wi == r
                        && band_pos(i % wi, col as int, ki, wi) < tc + 1)) && before.cells[i]) by {
                        lemma_row_col(i, wi, hi);
                        lemma_band_step(i % wi, col as int, ki, tc as int, wi);
                    }
                }
                tc = tc + 1;
            }
            proof {
                assert forall|i: int| 0 <= i < before.cells.len() implies #[trigger] self@.cells[i] == (
                !swept(i, row as int, col as int, ki, wi, hi, tr + 1) && before.cells[i]) by {
                    lemma_row_col(i, wi, hi);
                    lemma_band_step(i / wi, row as int, ki, tr as int, hi);
                }
            }
            tr = tr + 1;
        }
        assert(self@.cells =~= before.clear_box(row as int, col as int, k as int).cells);
    }

    /// The wrapped grid positions of `offsets` around `(row, col)`.
    fn placed(&self, row: u32, col: u32, offsets: &Vec<(i32, i32)>) -> (r: Vec<(u32, u32)>)
        requires
            self.wf(),
        ensures
            r@ == self@.placed(row as int, col as int, offsets@),
            forall|j: int| 0 <= j < r@.len() ==> #[trigger] r@[j].0 < self@.height && r@[j].1 < self@.width,
    {
        let mut out: Vec<(u32, u32)> = Vec::new();
        let mut j: usize = 0;
        while j < offsets.len()
            invariant
                self.wf(),
                j <= offsets@.len(),
                out@.len() == j,
                forall|m: int| 0 <= m < j ==> #[trigger] out@[m] == self@.placed(row as int, col as int, offsets@)[m],
                forall|m: int| 0 <= m < j ==> #[trigger] out@[m].0 < self@.height && out@[m].1 < self@.width,
            decreases offsets@.len() - j,
        {
            let (dr, dc) = offsets[j];
            let r = shift(row, dr, self.height);
            let c = shift(col, dc, self.width);
            out.push((r, c));
            j = j + 1;
        }
        assert(out@ =~= self@.placed(row as int, col as int, offsets@));
        out
    }

    /// Clears the box of radius `k` around `(row, col)`, then makes the
    /// cells at `offsets` from it alive.
    fn stamp(&mut self, row: u32, col: u32, k: u32, offsets: &Vec<(i32, i32)>)
        requires
            old(self).wf(),
            k <= 7,
        ensures
            final(self).wf(),
            final(self)@ == old(self)@.stamp(row as int, col as int, k as int, offsets@),
    {
        self.clear_box(row, col, k);
        let coords = self.placed(row, col, offsets);
        self.set_cells(coords.as_slice());
    }

    /// Stamps a glider anchored at `(row, column)`: the surrounding 5x5 box
    /// is cleared first, so the result does not depend on what was there.
    pub fn add_glider(&mut self, row: u32, column: u32)
        requires
            old(self).wf(),
        ensures
            final(self).wf(),
            final(self)@ == old(self)@.with_glider(row as int, column as int),
    {
        let offsets: Vec<(i32, i32)> = vec![(-1, 1), (0, -1), (0, 1), (1, 0), (1, 1)];
        assert(offsets@ =~= glider_offsets());
        self.stamp(row, column, 2, &offsets);
    }

    /// Stamps a period-3 pulsar centred on `(row, column)`: the surrounding
    /// 15x15 box is cleared first.
    pub fn add_pulsar(&mut self, row: u32, column: u32)
        requires
            old(self).wf(),
        ensures
            final(self).wf(),
            final(self)@ == old(self)@.with_pulsar(row as int, column as int),
    {
        let offsets: Vec<(i32, i32)> = vec![
            (-6, -4), (-6, -3), (-6, -2), (-6, 2), (-6, 3), (-6, 4),
            (-4, -6), (-4, -1), (-4, 1), (-4, 6),
            (-3, -6), (-3, -1), (-3, 1), (-3, 6),
            (-2, -6), (-2, -1), (-2, 1), (-2, 6),
            (-1, -4), (-1, -3), (-1, -2), (-1, 2), (-1, 3), (-1, 4),
            (1, -4), (1, -3), (1, -2), (1, 2), (1, 3), (1, 4),
            (2, -6), (2, -1), (2, 1), (2, 6),
            (3, -6), (3, -1), (3, 1), (3, 6),
            (4, -6), (4, -1), (4, 1), (4, 6),
            (6, -4), (6, -3), (6, -2), (6, 2), (6, 3), (6, 4),
        ];
        assert(offsets@ =~= pulsar_offsets());
        self.stamp(row, column, 7, &offsets);
    }

    /// A `WIDTH` x `HEIGHT` universe whose cell at linear position `i` lives
    /// exactly when `alive(i)` says so.
    fn new_with<F: Fn(usize) -> bool>(alive: F) -> (r: Self)
        requires
            forall|i: usize| alive.requires((i,)),
        ensures
            r.wf(),
            r@.width == WIDTH,
            r@.height == HEIGHT,
            forall|i: int| 0 <= i < r@.cells.len() ==> alive.ensures((i as usize,), #[trigger] r@.cells[i]),
    {
        let n: usize = (WIDTH * HEIGHT) as usize;
        let mut cells = new_clear(n);
        let mut i: usize = 0;
        while i < n
            invariant
                n == WIDTH * HEIGHT,
                i <= n,
                forall|j: usize| alive.requires((j,)),
                bits_of(cells).len() == n,
                forall|j: int| 0 <= j < i ==> alive.ensures((j as usize,), #[trigger] bits_of(cells)[j]),
            decreases n - i,
        {
            let b = alive(i);
            put_bit(&mut cells, i, b);
            i = i + 1;
        }
        Universe { width: WIDTH, height: HEIGHT, cells }
    }

    /// A `WIDTH` x `HEIGHT` universe with every cell dead.
    pub fn new() -> (r: Self)
        ensures
            r.wf(),
            r@ == empty(WIDTH as nat, HEIGHT as nat),
    {
        let r = Self::new_with(|i: usize| -> (b: bool) ensures !b { false });
        assert(r@.cells =~= empty(WIDTH as nat, HEIGHT as nat).cells);
        r
    }

    /// The striped default universe: see [`Universe::default`].
    pub fn new_default() -> (r: Self)
        ensures
            r.wf(),
            r@.width == WIDTH,
            r@.height == HEIGHT,
            forall|i: int| 0 <= i < r@.cells.len() ==> #[trigger] r@.cells[i] == (i % 2 == 0 || i % 7 == 0),
    {
        Self::default()
    }

    /// An empty universe with one glider stamped at its centre.
    pub fn new_with_glider() -> (r: Self)
        ensures
            r.wf(),
            r@ == empty(WIDTH as nat, HEIGHT as nat).with_glider((HEIGHT / 2) as int, (WIDTH / 2) as int),
    {
        let mut universe = Self::new();
        assert(universe@.cells =~= empty(WIDTH as nat, HEIGHT as nat).cells);
        let row = universe.height / 2;
        let column = universe.width / 2;
        universe.add_glider(row, column);
        universe
    }

    /// A `WIDTH` x `HEIGHT` universe seeded from a sequence of decisions:
    /// the cell at linear position `i` lives when `decisions[i]` is `true`,
    /// and cells past the end of `decisions` are dead.
    pub fn new_random(decisions: &[bool]) -> (r: Self)
        ensures
            r.wf(),
            r@.width == WIDTH,
            r@.height == HEIGHT,
            forall|i: int| 0 <= i < r@.cells.len() ==> #[trigger] r@.cells[i] == (i < decisions@.len() && decisions@[i]),
    {
        Self::new_with(|i: usize| -> (b: bool)
            ensures b == (i < decisions@.len() && decisions@[i as int])
        {
            i < decisions.len() && decisions[i]
        })
    }

    /// Reseeds every cell from `decisions`, as [`Universe::new_random`]
    /// does, keeping the dimensions.
    pub fn reset(&mut self, decisions: &[bool])
        requires
            old(self).wf(),
        ensures
            final(self).wf(),
            final(self)@.width == old(self)@.width,
            final(self)@.height == old(self)@.height,
            final(self)@.cells.len() == old(self)@.cells.len(),
            forall|i: int| 0 <= i < final(self)@.cells.len() ==> #[trigger] final(self)@.cells[i] == (i < decisions@.len() && decisions@[i]),
    {
        let n = self.width as usize * self.height as usize;
        let mut i: usize = 0;
        while i < n
            invariant
                self.wf(),
                self@.width == old(self)@.width,
                self@.height == old(self)@.height,
                n == self@.cells.len(),
                i <= n,
                forall|j: int| 0 <= j < i ==> #[trigger] self@.cells[j] == (j < decisions@.len() && decisions@[j]),
            decreases n - i,
        {
            let b = i < decisions.len() && decisions[i];
            put_bit(&mut self.cells, i, b);
            i = i + 1;
        }
    }

    pub fn width(&self) -> (r: u32)
        ensures
            r == self@.width,
    {
        self.width
    }

    pub fn height(&self) -> (r: u32)
        ensures
            r == self@.height,
    {
        self.height
    }

    /// The packed cells: cell `i` is bit `i % 32` of block `i / 32`.
    pub fn cells(&self) -> (r: &[u32])
        requires
            self.wf(),
        ensures
            r@.len() == (self@.cells.len() + 31) / 32,
            forall|i: int|
                0 <= i < self@.cells.len() ==> #[trigger] self@.cells[i] == ((r@[i / 32] >> ((i % 32) as u32)) & 1u32 == 1u32),
    {
        blocks(&self.cells)
    }

    /// The bit set holding the cells.
    pub fn get_cells(&self) -> (r: &FixedBitSet)
        ensures
            bits_of(*r) == self@.cells,
    {
        &self.cells
    }

    /// Changes the number of columns; every cell becomes dead.  Refused, with
    /// the universe untouched, for zero or for a cell count past `u32::MAX`.
    pub fn set_width(&mut self, width: u32) -> (r: Result<(), ResizeError>)
        requires
            old(self).wf(),
        ensures
            final(self).wf(),
            width == 0 ==> r == Err::<(), ResizeError>(ResizeError::ZeroDimension),
            width > 0 && width * old(self)@.height > u32::MAX ==> r == Err::<(), ResizeError>(ResizeError::TooLarge),
            r is Err ==> final(self)@ == old(self)@,
            r is Ok <==> (width > 0 && width * old(self)@.height <= u32::MAX),
            r is Ok ==> final(self)@ == (Board { width: width as nat, ..old(self)@ }).cleared()
                && final(self)@.cells.len() == width * old(self)@.height,
    {
        if width == 0 {
            return Err(ResizeError::ZeroDimension);
        }
        proof {
            lemma_product_fits(width, self.height);
        }
        if width as u64 * self.height as u64 > u32::MAX as u64 {
            return Err(ResizeError::TooLarge);
        }
        self.width = width;
        self.cells = new_clear(width as usize * self.height as usize);
        proof {
            assert(self@.cells =~= (Board { width: width as nat, ..old(self)@ }).cleared().cells);
        }
        Ok(())
    }

    /// Changes the number of rows; every cell becomes dead.  Refused, with
    /// the universe untouched, for zero or for a cell count past `u32::MAX`.
    pub fn set_height(&mut self, height: u32) -> (r: Result<(), ResizeError>)
        requires
            old(self).wf(),
        ensures
            final(self).wf(),
            height == 0 ==> r == Err::<(), ResizeError>(ResizeError::ZeroDimension),
            height > 0 && old(self)@.width * height > u32::MAX ==> r == Err::<(), ResizeError>(ResizeError::TooLarge),
            r is Err ==> final(self)@ == old(self)@,
            r is Ok <==> (height > 0 && old(self)@.width * height <= u32::MAX),
            r is Ok ==> final(self)@ == (Board { height: height as nat, ..old(self)@ }).cleared()
                && final(self)@.cells.len() == old(self)@.width * height,
    {
        if height == 0 {
            return Err(ResizeError::ZeroDimension);
        }
        proof {
            lemma_product_fits(self.width, height);
        }
        if self.width as u64 * height as u64 > u32::MAX as u64 {
            return Err(ResizeError::TooLarge);
        }
        self.height = height;
        self.cells = new_clear(self.width as usize * height as usize);
        proof {
            assert(self@.cells =~= (Board { height: height as nat, ..old(self)@ }).cleared().cells);
        }
        Ok(())
    }

    /// Advances one generation.  Every cell is computed from the current
    /// generation alone; the result replaces it once complete.
    pub fn tick(&mut self)
        requires
            old(self).wf(),
        ensures
            final(self).wf(),
            final(self)@ == old(self)@.next(),
    {
        proof {
            self.lemma_wf();
        }
        let ghost cur = self@;
        let w = self.width;
        let h = self.height;
        let mut next = copy_bits(&self.cells);
        let mut row: u32 = 0;
        while row < h
            invariant
                self.wf(),
                self@ == cur,
                w == self.width,
                h == self.height,
                row <= h,
                cur.cells.len() == w as int * h as int,
                bits_of(next).len() == cur.cells.len(),
                forall|i: int|
                    0 <= i < row as int * w as int ==> #[trigger] bits_of(next)[i]
                        == cur.next_cell(i),
            decreases h - row,
        {
            let mut col: u32 = 0;
            while col < w
                invariant
                    self.wf(),
                    self@ == cur,
                    w == self.width,
                    h == self.height,
                    row < h,
                    col <= w,
                    cur.cells.len() == w as int * h as int,
                    bits_of(next).len() == cur.cells.len(),
                    forall|i: int|
                        0 <= i < row as int * w as int + col as int ==> #[trigger] bits_of(next)[i]
                            == cur.next_cell(i),
                decreases w - col,
            {
                let idx = self.get_index(row, col);
                let alive = get_bit(&self.cells, idx);
                let neighbors = self.live_neighbor_count(row, col);
                let becomes = if alive {
                    neighbors == 2 || neighbors == 3
                } else {
                    neighbors == 3
                };
                proof {
                    lemma_index(row as int, col as int, w as int, h as int);
                    assert(becomes == life_rule(alive, neighbors as int));
                }
                put_bit(&mut next, idx, becomes);
                col = col + 1;
            }
            assert(row as int * w as int + w as int == (row as int + 1) * w as int) by (nonlinear_arith);
            row = row + 1;
        }
        assert(h as int * w as int == w as int * h as int) by (nonlinear_arith);
        assert(bits_of(next) =~= cur.next().cells);
        self.cells = next;
    }
}

impl Default for Universe {
    /// The striped universe: the cell at linear position `i` lives when `i`
    /// is a multiple of 2 or of 7.
    fn default() -> (r: Self)
        ensures
            r.wf(),
            r@.width == WIDTH,
            r@.height == HEIGHT,
            forall|i: int| 0 <= i < r@.cells.len() ==> #[trigger] r@.cells[i] == (i % 2 == 0 || i % 7 == 0),
    {
        Self::new_with(|i: usize| -> (b: bool)
            ensures b == (i % 2 == 0 || i % 7 == 0)
        {
            i % 2 == 0 || i % 7 == 0
        })
    }
}

} // verus!
