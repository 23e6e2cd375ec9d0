//! The toroidal field of non-negative integer intensities.
//!
//! Intensities are whole numbers of a unit that the caller picks (a small
//! fraction of one deposit, say). Decay rounds every cell down. Spreading
//! hands each of a cell's eight neighbours an equal share rounded down and
//! leaves the remainder of the rounding in the cell, so that it conserves
//! the total exactly.
use vstd::prelude::*;
use crate::agent::Position;
use crate::arith::{
    lemma_elem_le_sum, lemma_sum_add, lemma_sum_congruent, lemma_sum_const, lemma_sum_grid,
    lemma_sum_le, lemma_sum_nonneg, lemma_sum_rotate, lemma_sum_scale, lemma_sum_swap,
    lemma_sum_update, lemma_term_le_sum, seq_sum, sum_to,
};

verus! {

/// Why a field or a simulation could not be set up.
#[derive(Clone, Copy, Debug, PartialEq, Eq, Structural)]
pub enum ConfigError {
    /// Width or height is zero.
    EmptyGrid,
    /// `width * height` does not fit in `usize`.
    GridTooLarge,
    /// The retention factor is not a fraction in `[0, 1]`.
    RetentionOutOfRange,
}

/// The fraction `num / den`.
#[derive(Clone, Copy, Debug, PartialEq, Eq, Structural)]
pub struct Ratio {
    pub num: u64,
    pub den: u64,
}

impl Ratio {
    /// A fraction in `[0, 1]`.
    pub open spec fn wf(&self) -> bool {
        self.den > 0 && self.num <= self.den
    }

    /// Whether this is a fraction in `[0, 1]`.
    pub fn is_valid(&self) -> (r: bool)
        ensures
            r == self.wf(),
    {
        self.den > 0 && self.num <= self.den
    }
}

/// The floor of `v * rate`.
pub open spec fn scaled(v: int, rate: Ratio) -> int {
    (v * rate.num) / (rate.den as int)
}

/// What a cell holding `v` hands to each of its eight neighbours when it
/// spreads: the floor of `v * (1 - rate) / 8`.
pub open spec fn share(v: int, rate: Ratio) -> int {
    (v * (rate.den - rate.num)) / (8 * rate.den)
}

/// What a cell holding `v` keeps when it spreads: all that it does not hand
/// out, so that nothing is lost to rounding.
pub open spec fn kept(v: int, rate: Ratio) -> int {
    v - 8 * share(v, rate)
}

/// The offsets of the eight neighbours, column by column.
pub open spec fn neighbour_offsets() -> Seq<(int, int)> {
    seq![(-1, -1), (-1, 0), (-1, 1), (0, -1), (0, 1), (1, -1), (1, 0), (1, 1)]
}

/// Linear index of `(x, y)` under toroidal wrap.
pub open spec fn wrap_index(x: int, y: int, w: int, h: int) -> int {
    (x % w) + (y % h) * w
}

/// The intensity at `(x, y)`, for any integers, under toroidal wrap.
pub open spec fn at(cells: Seq<u64>, w: int, h: int, x: int, y: int) -> int {
    cells[wrap_index(x, y, w, h)] as int
}

/// What the cell at linear index `c` receives from its `k`-th neighbour.
pub open spec fn received(cells: Seq<u64>, w: int, h: int, rate: Ratio, c: int, k: int) -> int {
    share(
        at(cells, w, h, c % w + neighbour_offsets()[k].0, c / w + neighbour_offsets()[k].1),
        rate,
    )
}

/// The value of the cell at linear index `c` after spreading: what it keeps
/// plus the shares of its eight neighbours.
pub open spec fn spread_cell(cells: Seq<u64>, w: int, h: int, rate: Ratio, c: int) -> int {
    kept(cells[c] as int, rate) + sum_to(|k: int| received(cells, w, h, rate, c, k), 8)
}

/// The whole field after spreading, one cell at a time.
pub open spec fn spread_cells(cells: Seq<u64>, w: int, h: int, rate: Ratio) -> Seq<int> {
    Seq::new(cells.len(), |c: int| spread_cell(cells, w, h, rate, c))
}

/// The eight neighbour offsets `(dx, dy)`, column by column.
pub fn neighbours() -> (r: Vec<(isize, isize)>)
    ensures
        r@.len() == 8,
        forall|k: int|
            0 <= k < 8 ==> (#[trigger] r@[k].0 as int, r@[k].1 as int) == neighbour_offsets()[k],
{
    let r = vec![(-1, -1), (-1, 0), (-1, 1), (0, -1), (0, 1), (1, -1), (1, 0), (1, 1)];
    assert(r@.len() == 8);
    r
}

/// `(x + d) mod n`, for a step `d` of at most one.
pub fn wrap_add(x: usize, d: isize, n: usize) -> (r: usize)
    requires
        n > 0,
        -1 <= d <= 1,
    ensures
        r as int == (x + d) % (n as int),
        r < n,
{
    let xm = x % n;
    proof {
        vstd::arithmetic::div_mod::lemma_add_mod_noop(x as int, d as int, n as int);
        vstd::arithmetic::div_mod::lemma_mod_bound(d as int, n as int);
        if n > 1 {
            vstd::arithmetic::div_mod::lemma_small_mod(1nat, n as nat);
        }
        if d == -1 {
            vstd::arithmetic::div_mod::lemma_mod_add_multiples_vanish(-1, n as int);
            vstd::arithmetic::div_mod::lemma_small_mod((n - 1) as nat, n as nat);
            vstd::arithmetic::div_mod::lemma_add_mod_noop(xm as int, n - 1, n as int);
            vstd::arithmetic::div_mod::lemma_mod_add_multiples_vanish(xm - 1, n as int);
        }
    }
    if d == 1 {
        if xm + 1 == n {
            proof {
                vstd::arithmetic::div_mod::lemma_mod_self_0(n as int);
            }
            0
        } else {
            proof {
                vstd::arithmetic::div_mod::lemma_small_mod((xm + 1) as nat, n as nat);
            }
            xm + 1
        }
    } else if d == -1 {
        if xm == 0 {
            n - 1
        } else {
            proof {
                vstd::arithmetic::div_mod::lemma_small_mod((xm - 1) as nat, n as nat);
            }
            xm - 1
        }
    } else {
        proof {
            vstd::arithmetic::div_mod::lemma_mod_twice(x as int, n as int);
        }
        xm
    }
}

proof fn lemma_index_bound(x: int, y: int, w: int, h: int)
    requires
        0 <= x < w,
        0 <= y < h,
    ensures
        0 <= x + y * w < w * h,
{
    assert(y * w <= (h - 1) * w) by (nonlinear_arith)
        requires
            0 <= y < h,
            w > 0,
    ;
    assert((h - 1) * w + w == w * h) by (nonlinear_arith);
    assert(y * w >= 0) by (nonlinear_arith)
        requires
            y >= 0,
            w > 0,
    ;
}

proof fn lemma_wrap_index_bound(x: int, y: int, w: int, h: int)
    requires
        w > 0,
        h > 0,
    ensures
        0 <= wrap_index(x, y, w, h) < w * h,
{
    vstd::arithmetic::div_mod::lemma_mod_bound(x, w);
    vstd::arithmetic::div_mod::lemma_mod_bound(y, h);
    lemma_index_bound(x % w, y % h, w, h);
}

/// The toroidal field: `width * height` cells in row-major order.
pub struct World {
    width: usize,
    height: usize,
    buffer: Vec<u64>,
}

impl World {
    pub closed spec fn w(&self) -> int {
        self.width as int
    }

    pub closed spec fn h(&self) -> int {
        self.height as int
    }

    /// The cells in row-major order.
    pub closed spec fn cells(&self) -> Seq<u64> {
        self.buffer@
    }

    /// The total intensity.
    pub open spec fn mass(&self) -> int {
        seq_sum(self.cells())
    }

    /// The intensity at `(x, y)` under toroidal wrap.
    pub open spec fn cell(&self, x: int, y: int) -> int {
        at(self.cells(), self.w(), self.h(), x, y)
    }

    pub open spec fn wf(&self) -> bool {
        &&& self.w() > 0
        &&& self.h() > 0
        &&& self.w() * self.h() <= usize::MAX
        &&& self.cells().len() == self.w() * self.h()
        &&& self.mass() <= u64::MAX
    }

    /// A `width` by `height` field with every cell zero.
    pub fn new(width: usize, height: usize) -> (r: Result<World, ConfigError>)
        ensures
            (width == 0 || height == 0) <==> r == Err::<World, ConfigError>(ConfigError::EmptyGrid),
            (width > 0 && height > 0 && width * height > usize::MAX) <==> r == Err::<
                World,
                ConfigError,
            >(ConfigError::GridTooLarge),
            (width > 0 && height > 0 && width * height <= usize::MAX) ==> r.is_ok(),
            r matches Ok(world) ==> {
                &&& world.wf()
                &&& world.w() == width
                &&& world.h() == height
                &&& world.cells() == Seq::new((width * height) as nat, |i: int| 0u64)
                &&& world.mass() == 0
            },
    {
        if width == 0 || height == 0 {
            return Err(ConfigError::EmptyGrid);
        }
        let n = match width.checked_mul(height) {
            Some(n) => n,
            None => {
                return Err(ConfigError::GridTooLarge);
            },
        };
        let mut buffer: Vec<u64> = Vec::new();
        let mut i: usize = 0;
        while i < n
            invariant
                i <= n,
                buffer@ == Seq::new(i as nat, |k: int| 0u64),
            decreases n - i,
        {
            buffer.push(0);
            i = i + 1;
            assert(buffer@ =~= Seq::new(i as nat, |k: int| 0u64));
        }
        let world = World { width, height, buffer };
        proof {
            lemma_sum_le(|k: int| world.cells()[k] as int, |k: int| 0, n as int);
            lemma_sum_nonneg(|k: int| world.cells()[k] as int, n as int);
            lemma_sum_zero(n as int);
        }
        Ok(world)
    }

    /// Relates the integer-indexed view of the field to its cells.
    pub proof fn lemma_cell_is_cell_at(&self, x: int, y: int)
        requires
            self.wf(),
        ensures
            0 <= wrap_index(x, y, self.w(), self.h()) < self.cells().len(),
            self.cell(x, y) == self.cells()[wrap_index(x, y, self.w(), self.h())] as int,
    {
        lemma_wrap_index_bound(x, y, self.w(), self.h());
    }

    /// Toroidal equivalence: shifting a position by any whole number of
    /// widths or heights reads the same cell.
    pub proof fn lemma_toroidal(&self, x: int, y: int, k: int)
        requires
            self.wf(),
        ensures
            self.cell(x + k * self.w(), y) == self.cell(x, y),
            self.cell(x, y + k * self.h()) == self.cell(x, y),
    {
        vstd::arithmetic::div_mod::lemma_mod_multiples_vanish(k, x, self.w());
        vstd::arithmetic::div_mod::lemma_mod_multiples_vanish(k, y, self.h());
        assert(self.w() * k == k * self.w()) by (nonlinear_arith);
        assert(self.h() * k == k * self.h()) by (nonlinear_arith);
    }

    pub fn width(&self) -> (r: usize)
        ensures
            r == self.w(),
    {
        self.width
    }

    pub fn height(&self) -> (r: usize)
        ensures
            r == self.h(),
    {
        self.height
    }

    /// Linear index of `pos` under toroidal wrap.
    fn index(&self, pos: &Position) -> (r: usize)
        requires
            self.wf(),
        ensures
            r == wrap_index(pos.0 as int, pos.1 as int, self.w(), self.h()),
            r < self.cells().len(),
    {
        proof {
            lemma_wrap_index_bound(pos.0 as int, pos.1 as int, self.w(), self.h());
        }
        (pos.0 % self.width) + (pos.1 % self.height) * self.width
    }

    /// The intensity at `pos` under toroidal wrap.
    pub fn get_pheromone(&self, pos: &Position) -> (r: u64)
        requires
            self.wf(),
        ensures
            r == self.cell(pos.0 as int, pos.1 as int),
    {
        let i = self.index(pos);
        self.buffer[i]
    }

    /// Adds `amount` to the cell at `pos` under toroidal wrap.
    pub fn deposit_pheromone(&mut self, pos: &Position, amount: u64)
        requires
            old(self).wf(),
            old(self).mass() + amount <= u64::MAX,
        ensures
            final(self).wf(),
            final(self).w() == old(self).w(),
            final(self).h() == old(self).h(),
            final(self).cells() == deposited(
                old(self).cells(),
                wrap_index(pos.0 as int, pos.1 as int, old(self).w(), old(self).h()),
                amount,
            ),
            final(self).mass() == old(self).mass() + amount,
            final(self).cell(pos.0 as int, pos.1 as int) == old(self).cell(pos.0 as int, pos.1 as int)
                + amount,
            forall|x: int, y: int|
                wrap_index(x, y, old(self).w(), old(self).h()) != wrap_index(
                    pos.0 as int,
                    pos.1 as int,
                    old(self).w(),
                    old(self).h(),
                ) ==> #[trigger] final(self).cell(x, y) == old(self).cell(x, y),
    {
        let i = self.index(pos);
        proof {
            lemma_elem_le_sum(self.buffer@, i as int);
            lemma_sum_update(self.buffer@, i as int, (self.buffer@[i as int] + amount) as u64);
        }
        let v = self.buffer[i] + amount;
        self.buffer.set(i, v);
        assert forall|x: int, y: int|
            wrap_index(x, y, old(self).w(), old(self).h()) != i implies #[trigger] self.cell(x, y)
                == old(self).cell(x, y) by {
            lemma_wrap_index_bound(x, y, self.w(), self.h());
        }
    }

    /// Multiplies every cell by `rate`, rounding down.
    pub fn diffuse_pheromone(&mut self, rate: Ratio)
        requires
            old(self).wf(),
            rate.wf(),
        ensures
            final(self).wf(),
            final(self).w() == old(self).w(),
            final(self).h() == old(self).h(),
            final(self).cells().len() == old(self).cells().len(),
            forall|i: int|
                0 <= i < old(self).cells().len() ==> #[trigger] final(self).cells()[i] as int
                    == scaled(old(self).cells()[i] as int, rate),
            forall|i: int|
                0 <= i < old(self).cells().len() ==> #[trigger] final(self).cells()[i]
                    <= old(self).cells()[i],
            final(self).mass() * rate.den <= old(self).mass() * rate.num,
    {
        let n = self.buffer.len();
        let ghost before = self.buffer@;
        let mut i: usize = 0;
        while i < n
            invariant
                self.width == old(self).width,
                self.height == old(self).height,
                before == old(self).buffer@,
                rate.wf(),
                n == before.len(),
                i <= n,
                self.buffer@.len() == n,
                forall|k: int| 0 <= k < i ==> #[trigger] self.buffer@[k] as int == scaled(before[k] as int, rate),
                forall|k: int| i <= k < n ==> #[trigger] self.buffer@[k] == before[k],
            decreases n - i,
        {
            let v = self.buffer[i];
            proof {
                lemma_scaled_bounds(v as int, rate);
                assert((v as u128) * (rate.num as u128) <= u64::MAX as int * u64::MAX as int) by (nonlinear_arith)
                    requires
                        v <= u64::MAX,
                        rate.num <= u64::MAX,
                ;
            }
            let s = ((v as u128) * (rate.num as u128) / (rate.den as u128)) as u64;
            self.buffer.set(i, s);
            i = i + 1;
        }
        proof {
            let f = |k: int| self.buffer@[k] as int;
            let g = |k: int| before[k] as int;
            assert forall|k: int| 0 <= k < n implies #[trigger] f(k) <= g(k) by {
                lemma_scaled_bounds(before[k] as int, rate);
            }
            lemma_sum_le(f, g, n as int);
            assert forall|k: int| 0 <= k < n implies #[trigger] self.buffer@[k] <= before[k] by {
                lemma_scaled_bounds(before[k] as int, rate);
            }
            assert forall|k: int| 0 <= k < n implies (rate.den as int) * #[trigger] f(k) <= rate.num * g(k) by {
                lemma_scaled_bounds(before[k] as int, rate);
            }
            lemma_sum_scale(f, rate.den as int, n as int);
            lemma_sum_scale(g, rate.num as int, n as int);
            lemma_sum_le(|k: int| (rate.den as int) * f(k), |k: int| (rate.num as int) * g(k), n as int);
        }
    }

    /// Replaces the field by a new buffer in which every cell keeps the
    /// fraction `rate` of its value and hands the rest to its eight
    /// neighbours in equal shares, rounded down; the remainder of the
    /// rounding stays in the cell. Computed from the old buffer alone.
    pub fn diffuse_and_spread(&mut self, rate: Ratio)
        requires
            old(self).wf(),
            rate.wf(),
        ensures
            final(self).wf(),
            final(self).w() == old(self).w(),
            final(self).h() == old(self).h(),
            final(self).cells().len() == old(self).cells().len(),
            forall|c: int|
                0 <= c < old(self).cells().len() ==> #[trigger] final(self).cells()[c] as int
                    == spread_cell(old(self).cells(), old(self).w(), old(self).h(), rate, c),
            final(self).mass() == old(self).mass(),
    {
        let n = self.buffer.len();
        let w = self.width;
        let h = self.height;
        let offsets = neighbours();
        let ghost cells = self.buffer@;
        proof {
            lemma_spread_conserves(cells, w as int, h as int, rate);
        }
        let mut diffused: Vec<u64> = Vec::new();
        let mut c: usize = 0;
        while c < n
            invariant
                self.wf(),
                rate.wf(),
                cells == self.buffer@,
                n == cells.len(),
                w == self.w(),
                h == self.h(),
                offsets@.len() == 8,
                forall|k: int|
                    0 <= k < 8 ==> (#[trigger] offsets@[k].0 as int, offsets@[k].1 as int)
                        == neighbour_offsets()[k],
                c <= n,
                diffused@.len() == c,
                forall|i: int|
                    0 <= i < c ==> #[trigger] diffused@[i] as int == spread_cell(
                        cells,
                        w as int,
                        h as int,
                        rate,
                        i,
                    ),
                sum_to(|i: int| spread_cell(cells, w as int, h as int, rate, i), n as int)
                    == seq_sum(cells),
                forall|i: int|
                    0 <= i < n ==> 0 <= #[trigger] spread_cell(cells, w as int, h as int, rate, i),
            decreases n - c,
        {
            let x = c % w;
            let y = c / w;
            let v = self.buffer[c];
            let mut acc: u128 = kept_of(v, rate) as u128;
            let mut k: usize = 0;
            while k < 8
                invariant
                    self.wf(),
                    rate.wf(),
                    cells == self.buffer@,
                    n == cells.len(),
                    w == self.w(),
                    h == self.h(),
                    c < n,
                    x == c as int % w as int,
                    y == c as int / w as int,
                    offsets@.len() == 8,
                    forall|j: int|
                        0 <= j < 8 ==> (#[trigger] offsets@[j].0 as int, offsets@[j].1 as int)
                            == neighbour_offsets()[j],
                    k <= 8,
                    acc == kept(v as int, rate) + sum_to(
                        |j: int| received(cells, w as int, h as int, rate, c as int, j),
                        k as int,
                    ),
                    acc <= (k + 1) * u64::MAX,
                decreases 8 - k,
            {
                let (dx, dy) = offsets[k];
                let nx = wrap_add(x, dx, w);
                let ny = wrap_add(y, dy, h);
                proof {
                    lemma_index_bound(nx as int, ny as int, w as int, h as int);
                    vstd::arithmetic::div_mod::lemma_mod_bound(c as int, w as int);
                }
                let s = share_of(self.buffer[nx + ny * w], rate);
                acc = acc + s as u128;
                k = k + 1;
            }
            proof {
                let f = |i: int| spread_cell(cells, w as int, h as int, rate, i);
                assert(f(c as int) == acc);
                lemma_term_le_sum(f, n as int, c as int);
            }
            diffused.push(acc as u64);
            c = c + 1;
        }
        proof {
            lemma_sum_congruent(
                |i: int| diffused@[i] as int,
                |i: int| spread_cell(cells, w as int, h as int, rate, i),
                n as int,
            );
        }
        self.buffer = diffused;
    }

    /// The total intensity.
    pub fn total(&self) -> (r: u64)
        requires
            self.wf(),
        ensures
            r == self.mass(),
    {
        let mut acc: u64 = 0;
        let mut i: usize = 0;
        proof {
            assert(self.buffer@.take(0) =~= Seq::<u64>::empty());
        }
        while i < self.buffer.len()
            invariant
                self.wf(),
                i <= self.buffer@.len(),
                acc == seq_sum(self.buffer@.take(i as int)),
            decreases self.buffer@.len() - i,
        {
            proof {
                assert(self.buffer@.take(i as int + 1) =~= self.buffer@.take(i as int).push(
                    self.buffer@[i as int],
                ));
                crate::arith::lemma_sum_push(self.buffer@.take(i as int), self.buffer@[i as int]);
                crate::arith::lemma_sum_prefix_le(self.buffer@, i as int + 1);
            }
            acc = acc + self.buffer[i];
            i = i + 1;
        }
        proof {
            assert(self.buffer@.take(i as int) =~= self.buffer@);
        }
        acc
    }

    /// The largest intensity.
    pub fn max(&self) -> (r: u64)
        requires
            self.wf(),
        ensures
            forall|i: int| 0 <= i < self.cells().len() ==> #[trigger] self.cells()[i] <= r,
            exists|i: int| 0 <= i < self.cells().len() && #[trigger] self.cells()[i] == r,
    {
        proof {
            lemma_index_bound(0, 0, self.w(), self.h());
        }
        let mut m: u64 = self.buffer[0];
        let mut j: usize = 0;
        let mut i: usize = 1;
        while i < self.buffer.len()
            invariant
                1 <= i <= self.buffer@.len(),
                j < i,
                self.buffer@[j as int] == m,
                forall|k: int| 0 <= k < i ==> #[trigger] self.buffer@[k] <= m,
            decreases self.buffer@.len() - i,
        {
            if self.buffer[i] > m {
                m = self.buffer[i];
                j = i;
            }
            i = i + 1;
        }
        assert(self.cells()[j as int] == m);
        m
    }

    /// The grey level of every cell, in row-major order, scaled so that the
    /// largest intensity is 255.
    pub fn levels(&self) -> (r: Vec<u8>)
        requires
            self.wf(),
        ensures
            r@.len() == self.cells().len(),
            forall|i: int|
                0 <= i < r@.len() ==> #[trigger] r@[i] as int == level_of(
                    self.cells()[i] as int,
                    max_of(self.cells()),
                ),
    {
        let m = self.max();
        proof {
            lemma_max_of(self.cells(), m);
        }
        let mut r: Vec<u8> = Vec::new();
        let mut i: usize = 0;
        while i < self.buffer.len()
            invariant
                i <= self.buffer@.len(),
                r@.len() == i,
                m as int == max_of(self.cells()),
                forall|k: int| 0 <= k < self.buffer@.len() ==> #[trigger] self.buffer@[k] <= m,
                forall|k: int|
                    0 <= k < i ==> #[trigger] r@[k] as int == level_of(self.buffer@[k] as int, m as int),
            decreases self.buffer@.len() - i,
        {
            r.push(intensity_level(self.buffer[i], m));
            i = i + 1;
        }
        r
    }
}

/// The cells after adding `amount` at linear index `i`.
pub open spec fn deposited(cells: Seq<u64>, i: int, amount: u64) -> Seq<u64> {
    cells.update(i, (cells[i] + amount) as u64)
}

/// Deposit accumulation: depositing `amount` twice at one cell adds
/// `2 * amount` there and leaves every other cell as it was.
pub proof fn lemma_deposit_twice(cells: Seq<u64>, i: int, amount: u64)
    requires
        0 <= i < cells.len(),
        cells[i] + 2 * amount <= u64::MAX,
    ensures
        deposited(deposited(cells, i, amount), i, amount)[i] == cells[i] + 2 * amount,
        deposited(deposited(cells, i, amount), i, amount).len() == cells.len(),
        forall|j: int|
            0 <= j < cells.len() && j != i ==> #[trigger] deposited(
                deposited(cells, i, amount),
                i,
                amount,
            )[j] == cells[j],
{
}

/// The largest of the cells, or 0 when there are none.
pub open spec fn max_of(cells: Seq<u64>) -> int
    decreases cells.len(),
{
    if cells.len() == 0 {
        0
    } else {
        let m = max_of(cells.drop_last());
        if cells.last() as int > m {
            cells.last() as int
        } else {
            m
        }
    }
}

proof fn lemma_max_of(cells: Seq<u64>, m: u64)
    requires
        forall|i: int| 0 <= i < cells.len() ==> #[trigger] cells[i] <= m,
        exists|i: int| 0 <= i < cells.len() && #[trigger] cells[i] == m,
    ensures
        max_of(cells) == m,
    decreases cells.len(),
{
    let i = choose|i: int| 0 <= i < cells.len() && #[trigger] cells[i] == m;
    lemma_max_of_le(cells.drop_last(), m);
    if i < cells.len() - 1 {
        assert(cells.drop_last()[i] == m);
        lemma_max_of(cells.drop_last(), m);
    }
}

proof fn lemma_max_of_le(cells: Seq<u64>, m: u64)
    requires
        forall|i: int| 0 <= i < cells.len() ==> #[trigger] cells[i] <= m,
    ensures
        0 <= max_of(cells) <= m,
    decreases cells.len(),
{
    if cells.len() > 0 {
        lemma_max_of_le(cells.drop_last(), m);
    }
}

/// `round(255 * value / max)`, and 0 when `max` is 0.
pub open spec fn level_of(value: int, max: int) -> int {
    if max == 0 {
        0
    } else {
        (510 * value + max) / (2 * max)
    }
}

/// The grey level of `value` in a field whose largest intensity is `max`:
/// `255 * value / max` rounded to the nearest integer, halves up; 0 when
/// `max` is 0.
pub fn intensity_level(value: u64, max: u64) -> (r: u8)
    requires
        value <= max,
    ensures
        r as int == level_of(value as int, max as int),
{
    if max == 0 {
        return 0;
    }
    let num: u128 = 510 * (value as u128) + (max as u128);
    let den: u128 = 2 * (max as u128);
    proof {
        assert(num < 256 * den) by (nonlinear_arith)
            requires
                num == 510 * value + max,
                den == 2 * max,
                value <= max,
                max > 0,
        ;
        vstd::arithmetic::div_mod::lemma_div_is_ordered(num as int, 256 * den - 1, den as int);
        assert((256 * den - 1) / (den as int) < 256) by {
            vstd::arithmetic::div_mod::lemma_div_by_multiple_is_strongly_ordered(256 * den - 1, 256 * den, 256, den as int);
            vstd::arithmetic::div_mod::lemma_div_by_multiple(256, den as int);
        }
    }
    (num / den) as u8
}

proof fn lemma_share_bounds(v: int, rate: Ratio)
    requires
        rate.wf(),
        0 <= v,
    ensures
        0 <= share(v, rate),
        0 <= kept(v, rate) <= v,
{
    let a = v * (rate.den - rate.num);
    let d = 8 * rate.den;
    vstd::arithmetic::div_mod::lemma_fundamental_div_mod(a, d);
    vstd::arithmetic::div_mod::lemma_mod_bound(a, d);
    let q = a / d;
    assert(0 <= a <= v * rate.den) by (nonlinear_arith)
        requires
            a == v * (rate.den - rate.num),
            0 <= v,
            0 <= rate.num <= rate.den,
    ;
    assert(0 <= 8 * q <= v) by (nonlinear_arith)
        requires
            a == d * q + a % d,
            0 <= a % d < d,
            0 <= a <= v * rate.den,
            d == 8 * rate.den,
            rate.den > 0,
    ;
}

/// A sum over the torus is unchanged when every cell is read at a fixed
/// offset `(dx, dy)` from where it stands.
proof fn lemma_sum_shifted(f: spec_fn(int) -> int, w: int, h: int, dx: int, dy: int)
    requires
        w > 0,
        h > 0,
    ensures
        sum_to(|c: int| f(wrap_index(c % w + dx, c / w + dy, w, h)), w * h) == sum_to(f, w * h),
{
    let g = |c: int| f(wrap_index(c % w + dx, c / w + dy, w, h));
    let row = |y: int| sum_to(|x: int| f(y * w + x), w);
    let grow = |y: int| sum_to(|x: int| g(y * w + x), w);
    lemma_sum_grid(g, w, h);
    lemma_sum_grid(f, w, h);
    assert forall|y: int| 0 <= y < h implies #[trigger] grow(y) == row((y + dy) % h) by {
        let r = (y + dy) % h;
        let fr = |x: int| f(r * w + x);
        assert forall|x: int| 0 <= x < w implies #[trigger] g(y * w + x) == fr((x + dx) % w) by {
            vstd::arithmetic::div_mod::lemma_fundamental_div_mod_converse(y * w + x, w, y, x);
        }
        lemma_sum_congruent(|x: int| g(y * w + x), |x: int| fr((x + dx) % w), w);
        lemma_sum_rotate(fr, dx, w);
    }
    lemma_sum_congruent(grow, |y: int| row((y + dy) % h), h);
    lemma_sum_rotate(row, dy, h);
}

/// Spreading conserves the total intensity, and every new cell is
/// non-negative.
pub proof fn lemma_spread_conserves(cells: Seq<u64>, w: int, h: int, rate: Ratio)
    requires
        w > 0,
        h > 0,
        cells.len() == w * h,
        rate.wf(),
    ensures
        sum_to(|c: int| spread_cell(cells, w, h, rate, c), w * h) == seq_sum(cells),
        forall|c: int| 0 <= c < w * h ==> 0 <= #[trigger] spread_cell(cells, w, h, rate, c),
{
    let n = w * h;
    let sh = |i: int| share(cells[i] as int, rate);
    let kp = |i: int| kept(cells[i] as int, rate);
    let recv = |c: int| sum_to(|k: int| received(cells, w, h, rate, c, k), 8);
    let gr = |c: int, k: int| received(cells, w, h, rate, c, k);
    let total_share = sum_to(sh, n);
    // every neighbour column of the double sum is a shifted copy of the shares
    let col = |k: int| sum_to(|c: int| gr(c, k), n);
    assert forall|k: int| 0 <= k < 8 implies #[trigger] col(k) == total_share by {
        let off = neighbour_offsets()[k];
        lemma_sum_shifted(sh, w, h, off.0, off.1);
        assert forall|c: int| 0 <= c < n implies #[trigger] gr(c, k) == sh(
            wrap_index(c % w + off.0, c / w + off.1, w, h),
        ) by {
            lemma_wrap_index_bound(c % w + off.0, c / w + off.1, w, h);
        }
        lemma_sum_congruent(
            |c: int| gr(c, k),
            |c: int| sh(wrap_index(c % w + off.0, c / w + off.1, w, h)),
            n,
        );
    }
    assert(n >= 0) by (nonlinear_arith)
        requires
            n == w * h,
            w > 0,
            h > 0,
    ;
    lemma_sum_swap(gr, n, 8);
    let rows = |c: int| sum_to(|k: int| gr(c, k), 8);
    assert forall|c: int| 0 <= c < n implies #[trigger] rows(c) == recv(c) by {
        lemma_sum_congruent(|k: int| gr(c, k), |k: int| received(cells, w, h, rate, c, k), 8);
    }
    lemma_sum_congruent(rows, recv, n);
    lemma_sum_congruent(col, |k: int| total_share, 8);
    lemma_sum_const(total_share, 8);
    lemma_sum_add(kp, recv, n);
    lemma_sum_congruent(|c: int| spread_cell(cells, w, h, rate, c), |c: int| kp(c) + recv(c), n);
    crate::arith::lemma_sum_scale(sh, 8, n);
    let sh8 = |i: int| 8 * sh(i);
    lemma_sum_congruent(|i: int| 8 * sh(i), sh8, n);
    lemma_sum_add(kp, sh8, n);
    lemma_sum_congruent(|i: int| kp(i) + sh8(i), |i: int| cells[i] as int, n);
    assert forall|c: int| 0 <= c < n implies 0 <= #[trigger] spread_cell(cells, w, h, rate, c) by {
        lemma_share_bounds(cells[c] as int, rate);
        assert forall|k: int| 0 <= k < 8 implies 0 <= #[trigger] received(cells, w, h, rate, c, k) by {
            let off = neighbour_offsets()[k];
            lemma_wrap_index_bound(c % w + off.0, c / w + off.1, w, h);
            lemma_share_bounds(at(cells, w, h, c % w + off.0, c / w + off.1), rate);
        }
        lemma_sum_nonneg(|k: int| received(cells, w, h, rate, c, k), 8);
    }
}

/// The floor of `v * (1 - rate) / 8`.
fn share_of(v: u64, rate: Ratio) -> (r: u64)
    requires
        rate.wf(),
    ensures
        r as int == share(v as int, rate),
        8 * r <= v,
{
    proof {
        lemma_share_bounds(v as int, rate);
        assert((v as int) * ((rate.den - rate.num) as int) <= u64::MAX as int * u64::MAX as int) by (nonlinear_arith)
            requires
                v <= u64::MAX,
                0 <= rate.den - rate.num <= u64::MAX,
        ;
    }
    ((v as u128) * ((rate.den - rate.num) as u128) / (8 * (rate.den as u128))) as u64
}

/// What a cell holding `v` keeps when it spreads.
fn kept_of(v: u64, rate: Ratio) -> (r: u64)
    requires
        rate.wf(),
    ensures
        r as int == kept(v as int, rate),
{
    v - 8 * share_of(v, rate)
}

proof fn lemma_sum_zero(n: int)
    ensures
        sum_to(|k: int| 0, n) == 0,
    decreases n,
{
    if n > 0 {
        lemma_sum_zero(n - 1);
    }
}

proof fn lemma_scaled_bounds(v: int, rate: Ratio)
    requires
        rate.wf(),
        0 <= v,
    ensures
        0 <= scaled(v, rate) <= v,
        rate.den * scaled(v, rate) <= rate.num * v,
{
    let a = v * rate.num;
    let d = rate.den as int;
    vstd::arithmetic::div_mod::lemma_fundamental_div_mod(a, d);
    vstd::arithmetic::div_mod::lemma_mod_bound(a, d);
    let q = a / d;
    assert(0 <= a <= v * d) by (nonlinear_arith)
        requires
            a == v * rate.num,
            0 <= v,
            0 <= rate.num <= d,
    ;
    assert(0 <= q <= v) by (nonlinear_arith)
        requires
            a == d * q + a % d,
            0 <= a % d < d,
            0 <= a <= v * d,
            d > 0,
    ;
    assert(d * q <= rate.num * v) by (nonlinear_arith)
        requires
            a == d * q + a % d,
            0 <= a % d,
            a == v * rate.num,
    ;
}

} // verus!
