//! Finite sums over integer-indexed terms, and the facts about them that
//! the field's mass laws rest on.
use vstd::prelude::*;

verus! {

/// `f(0) + f(1) + ... + f(n - 1)`.
pub open spec fn sum_to(f: spec_fn(int) -> int, n: int) -> int
    decreases n,
{
    if n <= 0 {
        0
    } else {
        sum_to(f, n - 1) + f(n - 1)
    }
}

/// The total of a sequence of intensities.
pub open spec fn seq_sum(s: Seq<u64>) -> int {
    sum_to(|i: int| s[i] as int, s.len() as int)
}

pub proof fn lemma_sum_congruent(f: spec_fn(int) -> int, g: spec_fn(int) -> int, n: int)
    requires
        forall|i: int| 0 <= i < n ==> #[trigger] f(i) == g(i),
    ensures
        sum_to(f, n) == sum_to(g, n),
    decreases n,
{
    if n > 0 {
        lemma_sum_congruent(f, g, n - 1);
    }
}

pub proof fn lemma_sum_le(f: spec_fn(int) -> int, g: spec_fn(int) -> int, n: int)
    requires
        forall|i: int| 0 <= i < n ==> #[trigger] f(i) <= g(i),
    ensures
        sum_to(f, n) <= sum_to(g, n),
    decreases n,
{
    if n > 0 {
        lemma_sum_le(f, g, n - 1);
    }
}

pub proof fn lemma_sum_nonneg(f: spec_fn(int) -> int, n: int)
    requires
        forall|i: int| 0 <= i < n ==> #[trigger] f(i) >= 0,
    ensures
        sum_to(f, n) >= 0,
    decreases n,
{
    if n > 0 {
        lemma_sum_nonneg(f, n - 1);
    }
}

/// A non-negative term is at most the whole sum.
pub proof fn lemma_term_le_sum(f: spec_fn(int) -> int, n: int, k: int)
    requires
        0 <= k < n,
        forall|i: int| 0 <= i < n ==> #[trigger] f(i) >= 0,
    ensures
        f(k) <= sum_to(f, n),
    decreases n,
{
    lemma_sum_nonneg(f, n - 1);
    if k < n - 1 {
        lemma_term_le_sum(f, n - 1, k);
    }
}

pub proof fn lemma_sum_add(f: spec_fn(int) -> int, g: spec_fn(int) -> int, n: int)
    ensures
        sum_to(|i: int| f(i) + g(i), n) == sum_to(f, n) + sum_to(g, n),
    decreases n,
{
    if n > 0 {
        lemma_sum_add(f, g, n - 1);
    }
}

pub proof fn lemma_sum_scale(f: spec_fn(int) -> int, c: int, n: int)
    ensures
        sum_to(|i: int| c * f(i), n) == c * sum_to(f, n),
    decreases n,
{
    if n > 0 {
        lemma_sum_scale(f, c, n - 1);
        let a = sum_to(f, n - 1);
        let b = f(n - 1);
        assert(c * (a + b) == c * a + c * b) by (nonlinear_arith);
    }
}

/// Splits a sum at `a`.
pub proof fn lemma_sum_split(f: spec_fn(int) -> int, a: int, n: int)
    requires
        0 <= a <= n,
    ensures
        sum_to(f, n) == sum_to(f, a) + sum_to(|i: int| f(i + a), n - a),
    decreases n,
{
    if n > a {
        lemma_sum_split(f, a, n - 1);
        assert((|i: int| f(i + a))(n - a - 1) == f(n - 1));
    }
}

proof fn lemma_sum_update_prefix(s: Seq<u64>, k: int, v: u64, m: int)
    requires
        0 <= k < s.len(),
        0 <= m <= s.len(),
    ensures
        sum_to(|i: int| s.update(k, v)[i] as int, m) == sum_to(|i: int| s[i] as int, m) - (if k
            < m {
            s[k] - v
        } else {
            0
        }),
    decreases m,
{
    if m > 0 {
        lemma_sum_update_prefix(s, k, v, m - 1);
    }
}

/// Changing one term changes the sum by the difference.
pub proof fn lemma_sum_update(s: Seq<u64>, k: int, v: u64)
    requires
        0 <= k < s.len(),
    ensures
        seq_sum(s.update(k, v)) == seq_sum(s) - s[k] + v,
{
    lemma_sum_update_prefix(s, k, v, s.len() as int);
}

/// Each term of a sequence of intensities is at most its total.
pub proof fn lemma_elem_le_sum(s: Seq<u64>, k: int)
    requires
        0 <= k < s.len(),
    ensures
        s[k] <= seq_sum(s),
        seq_sum(s) >= 0,
{
    let f = |i: int| s[i] as int;
    lemma_term_le_sum(f, s.len() as int, k);
}

/// The sum of a rotated sequence of terms is unchanged.
pub proof fn lemma_sum_rotate(f: spec_fn(int) -> int, k: int, n: int)
    requires
        n > 0,
    ensures
        sum_to(|i: int| f((i + k) % n), n) == sum_to(f, n),
{
    let r = k % n;
    let g = |i: int| f((i + k) % n);
    assert forall|i: int| 0 <= i < n implies #[trigger] g(i) == f((i + r) % n) by {
        vstd::arithmetic::div_mod::lemma_add_mod_noop_right(i, k, n);
    }
    lemma_sum_split(g, n - r, n);
    lemma_sum_split(f, r, n);
    assert forall|i: int| 0 <= i < n - r implies #[trigger] g(i) == f(i + r) by {
        vstd::arithmetic::div_mod::lemma_small_mod((i + r) as nat, n as nat);
    }
    lemma_sum_congruent(g, |i: int| f(i + r), n - r);
    assert forall|i: int| 0 <= i < r implies #[trigger] g(i + (n - r)) == f(i) by {
        assert((i + (n - r) + r) % n == i) by {
            vstd::arithmetic::div_mod::lemma_mod_add_multiples_vanish(i, n);
            vstd::arithmetic::div_mod::lemma_small_mod(i as nat, n as nat);
        }
    }
    lemma_sum_congruent(|i: int| g(i + (n - r)), f, r);
}

/// A sum over a `w` by `h` grid, in row-major order, is the sum of its row sums.
pub proof fn lemma_sum_grid(f: spec_fn(int) -> int, w: int, h: int)
    requires
        w >= 0,
        h >= 0,
    ensures
        sum_to(f, w * h) == sum_to(|y: int| sum_to(|x: int| f(y * w + x), w), h),
    decreases h,
{
    let row = |y: int| sum_to(|x: int| f(y * w + x), w);
    if h > 0 {
        lemma_sum_grid(f, w, h - 1);
        assert(w * h == w * (h - 1) + w) by (nonlinear_arith);
        assert(w * (h - 1) >= 0) by (nonlinear_arith)
            requires
                w >= 0,
                h > 0,
        ;
        assert(w * (h - 1) == (h - 1) * w) by (nonlinear_arith);
        lemma_sum_split(f, w * (h - 1), w * h);
        lemma_sum_congruent(
            |i: int| f(i + w * (h - 1)),
            |x: int| f((h - 1) * w + x),
            w,
        );
        assert(row(h - 1) == sum_to(|x: int| f((h - 1) * w + x), w));
        assert(sum_to(row, h) == sum_to(row, h - 1) + row(h - 1));
    } else {
        assert(w * h == 0) by (nonlinear_arith)
            requires
                h == 0,
        ;
    }
}

pub proof fn lemma_seq_sum_nonneg(s: Seq<u64>)
    ensures
        seq_sum(s) >= 0,
{
    lemma_sum_nonneg(|i: int| s[i] as int, s.len() as int);
}

/// Appending a term adds it to the total.
pub proof fn lemma_sum_push(s: Seq<u64>, v: u64)
    ensures
        seq_sum(s.push(v)) == seq_sum(s) + v,
{
    let t = s.push(v);
    lemma_sum_congruent(|i: int| s[i] as int, |i: int| t[i] as int, s.len() as int);
}

/// The total of a prefix is at most the whole total.
pub proof fn lemma_sum_prefix_le(s: Seq<u64>, k: int)
    requires
        0 <= k <= s.len(),
    ensures
        seq_sum(s.take(k)) <= seq_sum(s),
{
    let t = s.take(k);
    lemma_sum_congruent(|i: int| s[i] as int, |i: int| t[i] as int, k);
    lemma_sum_split(|i: int| s[i] as int, k, s.len() as int);
    lemma_sum_nonneg(|i: int| (|j: int| s[j] as int)(i + k), s.len() - k);
}

/// Exchanges the order of a double sum.
pub proof fn lemma_sum_swap(g: spec_fn(int, int) -> int, n: int, m: int)
    requires
        n >= 0,
        m >= 0,
    ensures
        sum_to(|c: int| sum_to(|k: int| g(c, k), m), n) == sum_to(
            |k: int| sum_to(|c: int| g(c, k), n),
            m,
        ),
    decreases n,
{
    let lhs = |c: int| sum_to(|k: int| g(c, k), m);
    let rhs = |k: int| sum_to(|c: int| g(c, k), n);
    if n > 0 {
        let prev = |k: int| sum_to(|c: int| g(c, k), n - 1);
        let last = |k: int| g(n - 1, k);
        lemma_sum_swap(g, n - 1, m);
        lemma_sum_add(prev, last, m);
        assert forall|k: int| 0 <= k < m implies #[trigger] rhs(k) == prev(k) + last(k) by {
            let col = |c: int| g(c, k);
            assert(sum_to(col, n) == sum_to(col, n - 1) + col(n - 1));
        }
        lemma_sum_congruent(rhs, |k: int| prev(k) + last(k), m);
        assert(sum_to(lhs, n) == sum_to(lhs, n - 1) + lhs(n - 1));
        lemma_sum_congruent(|k: int| g(n - 1, k), last, m);
    } else {
        lemma_sum_const(0, m);
        lemma_sum_congruent(rhs, |k: int| 0, m);
    }
}

pub proof fn lemma_sum_const(v: int, m: int)
    requires
        m >= 0,
    ensures
        sum_to(|k: int| v, m) == m * v,
    decreases m,
{
    let f = |k: int| v;
    if m > 0 {
        lemma_sum_const(v, m - 1);
        assert(sum_to(f, m) == sum_to(f, m - 1) + f(m - 1));
        assert((m - 1) * v + v == m * v) by (nonlinear_arith);
    } else {
        assert(sum_to(f, m) == 0);
        assert(m * v == 0) by (nonlinear_arith)
            requires
                m == 0,
        ;
    }
}

} // verus!
