//! The mathematical model of a distribution: a table of `(outcome, mass)`
//! pairs over the integers, and the operations on tables that the
//! distribution's methods are specified by.

use vstd::prelude::*;

use crate::numerics::{fixed_mul, sat_sub, Number};

verus! {

/// An outcome of a random variable.
pub type Sample = i64;

/// A table of `(outcome, mass)` pairs, as mathematical integers.
pub type Table = Seq<(int, int)>;

/// Outcomes strictly increase along the table.
pub open spec fn strictly_ascending(s: Table) -> bool {
    forall|i: int, j: int| 0 <= i < j < s.len() ==> s[i].0 < s[j].0
}

/// Every mass lies between zero and the magnitude `u` of one.
pub open spec fn masses_in_range(s: Table, u: int) -> bool {
    forall|i: int| 0 <= i < s.len() ==> 0 <= #[trigger] s[i].1 <= u
}

/// The exact sum of all masses.
pub open spec fn total(s: Table) -> int
    decreases s.len(),
{
    if s.len() == 0 {
        0
    } else {
        total(s.drop_last()) + s.last().1
    }
}

/// `t` is within one hundredth of the magnitude `u` of one.
pub open spec fn within_tolerance(t: int, u: int) -> bool {
    100 * (if t >= u { t - u } else { u - t }) < u
}

/// `x`, clamped to the magnitude `u` of one.
pub open spec fn clamp(x: int, u: int) -> int {
    if x > u {
        u
    } else {
        x
    }
}

/// Some entry of the table has outcome `x`.
pub open spec fn has_key(s: Table, x: int) -> bool {
    exists|i: int| 0 <= i < s.len() && s[i].0 == x
}

/// The mass stored at outcome `x`, zero where there is none.
pub open spec fn mass_at(s: Table, x: int) -> int {
    if has_key(s, x) {
        s[choose|i: int| 0 <= i < s.len() && s[i].0 == x].1
    } else {
        0
    }
}

/// The table of a vector of `(outcome, mass)` pairs.
pub open spec fn table_of<T: Number>(v: Seq<(Sample, T)>) -> Table {
    v.map_values(|p: (Sample, T)| (p.0 as int, p.1.val()))
}

pub(crate) proof fn lemma_table_in_range<T: Number>(v: Seq<(Sample, T)>)
    ensures
        masses_in_range(table_of(v), T::unit()),
        table_of(v).len() == v.len(),
{
    assert forall|i: int| 0 <= i < table_of(v).len() implies 0 <= #[trigger] table_of(v)[i].1
        <= T::unit() by {
        v[i].1.lemma_bounds();
    }
}

pub(crate) proof fn lemma_total_push(s: Table, p: (int, int))
    ensures
        total(s.push(p)) == total(s) + p.1,
{
    assert(s.push(p).drop_last() =~= s);
}

pub(crate) proof fn lemma_total_take_step(s: Table, i: int)
    requires
        0 <= i < s.len(),
    ensures
        total(s.take(i + 1)) == total(s.take(i)) + s[i].1,
{
    assert(s.take(i + 1).drop_last() =~= s.take(i));
}

/// `P(X <= x)` at each outcome `x`, accumulated with saturating addition.
pub open spec fn cumulative_table(s: Table, u: int) -> Table {
    Seq::new(s.len(), |i: int| (s[i].0, clamp(total(s.take(i + 1)), u)))
}

/// `P(X < x)` at each outcome `x`, accumulated with saturating addition.
pub open spec fn cumulative_exclusive_table(s: Table, u: int) -> Table {
    Seq::new(s.len(), |i: int| (s[i].0, clamp(total(s.take(i)), u)))
}

/// `P(X >= x)` at each outcome `x`, accumulated with saturating addition.
pub open spec fn rev_cumulative_table(s: Table, u: int) -> Table {
    Seq::new(s.len(), |i: int| (s[i].0, clamp(total(s.skip(i)), u)))
}

/// `P(X > x)` at each outcome `x`, accumulated with saturating addition.
pub open spec fn rev_cumulative_exclusive_table(s: Table, u: int) -> Table {
    Seq::new(s.len(), |i: int| (s[i].0, clamp(total(s.skip(i + 1)), u)))
}

/// The number of outcomes at most `b`.
pub open spec fn count_at_most(s: Table, b: int) -> int
    decreases s.len(),
{
    if s.len() == 0 {
        0
    } else {
        count_at_most(s.drop_last(), b) + if s.last().0 <= b {
            1int
        } else {
            0int
        }
    }
}

/// The number of outcomes below `b`.
pub open spec fn count_below(s: Table, b: int) -> int
    decreases s.len(),
{
    if s.len() == 0 {
        0
    } else {
        count_below(s.drop_last(), b) + if s.last().0 < b {
            1int
        } else {
            0int
        }
    }
}

/// The mass at the greatest outcome at most `b`, zero where there is none.
pub open spec fn value_below(s: Table, b: int) -> int {
    let c = count_at_most(s, b);
    if c == 0 {
        0
    } else {
        s[c - 1].1
    }
}

/// The mass at the least outcome at least `b`, zero where there is none.
pub open spec fn value_above(s: Table, b: int) -> int {
    let c = count_below(s, b);
    if c < s.len() {
        s[c].1
    } else {
        0
    }
}

pub(crate) proof fn lemma_total_first(s: Table)
    requires
        s.len() > 0,
    ensures
        total(s) == s[0].1 + total(s.drop_first()),
    decreases s.len(),
{
    if s.len() > 1 {
        lemma_total_first(s.drop_last());
        assert(s.drop_last().drop_first() =~= s.drop_first().drop_last());
    } else {
        assert(s.drop_last() =~= Seq::<(int, int)>::empty());
        assert(s.drop_first() =~= Seq::<(int, int)>::empty());
    }
}

pub(crate) proof fn lemma_total_skip_step(s: Table, i: int)
    requires
        0 <= i < s.len(),
    ensures
        total(s.skip(i)) == s[i].1 + total(s.skip(i + 1)),
{
    lemma_total_first(s.skip(i));
    assert(s.skip(i).drop_first() =~= s.skip(i + 1));
}

/// Where the outcomes at most `b` are exactly the first `c`, there are `c`
/// of them.
pub(crate) proof fn lemma_count_at_most(s: Table, b: int, c: int)
    requires
        0 <= c <= s.len(),
        forall|i: int| 0 <= i < c ==> s[i].0 <= b,
        forall|i: int| c <= i < s.len() ==> s[i].0 > b,
    ensures
        count_at_most(s, b) == c,
    decreases s.len(),
{
    if s.len() > 0 {
        if c == s.len() {
            lemma_count_at_most(s.drop_last(), b, c - 1);
        } else {
            lemma_count_at_most(s.drop_last(), b, c);
        }
    }
}

/// Where the outcomes below `b` are exactly the first `c`, there are `c` of
/// them.
pub(crate) proof fn lemma_count_below(s: Table, b: int, c: int)
    requires
        0 <= c <= s.len(),
        forall|i: int| 0 <= i < c ==> s[i].0 < b,
        forall|i: int| c <= i < s.len() ==> s[i].0 >= b,
    ensures
        count_below(s, b) == c,
    decreases s.len(),
{
    if s.len() > 0 {
        if c == s.len() {
            lemma_count_below(s.drop_last(), b, c - 1);
        } else {
            lemma_count_below(s.drop_last(), b, c);
        }
    }
}

/// Every outcome shifted by `d`.
pub open spec fn shift_table(s: Table, d: int) -> Table {
    Seq::new(s.len(), |i: int| (s[i].0 + d, s[i].1))
}

/// Every outcome multiplied by `f`, in ascending order again. With `f == 0`
/// all outcomes collapse onto zero, which holds the saturated total mass.
pub open spec fn scale_table(s: Table, f: int, u: int) -> Table {
    if f > 0 {
        Seq::new(s.len(), |i: int| (s[i].0 * f, s[i].1))
    } else if f < 0 {
        Seq::new(s.len(), |i: int| (s[s.len() - 1 - i].0 * f, s[s.len() - 1 - i].1))
    } else if s.len() == 0 {
        s
    } else {
        seq![(0int, clamp(total(s), u))]
    }
}

/// Every mass replaced by `g(mass)`.
pub open spec fn map_masses(s: Table, g: spec_fn(int) -> int) -> Table {
    Seq::new(s.len(), |i: int| (s[i].0, g(s[i].1)))
}

/// The entries whose mass is not zero, in order.
pub open spec fn drop_zeroes(s: Table) -> Table
    decreases s.len(),
{
    if s.len() == 0 {
        s
    } else if s.last().1 != 0 {
        drop_zeroes(s.drop_last()).push(s.last())
    } else {
        drop_zeroes(s.drop_last())
    }
}

/// Two tables of the same length with the same masses have the same total.
pub(crate) proof fn lemma_total_same_masses(s1: Table, s2: Table)
    requires
        s1.len() == s2.len(),
        forall|i: int| 0 <= i < s1.len() ==> s1[i].1 == s2[i].1,
    ensures
        total(s1) == total(s2),
    decreases s1.len(),
{
    if s1.len() > 0 {
        lemma_total_same_masses(s1.drop_last(), s2.drop_last());
    }
}

/// A table whose masses are those of `s` in reverse order has the same
/// total.
pub(crate) proof fn lemma_total_reversed(s: Table, r: Table)
    requires
        r.len() == s.len(),
        forall|i: int| 0 <= i < s.len() ==> r[i].1 == s[s.len() - 1 - i].1,
    ensures
        total(r) == total(s),
    decreases s.len(),
{
    if s.len() > 0 {
        lemma_total_first(s);
        lemma_total_reversed(s.drop_first(), r.drop_last());
    }
}

pub(crate) proof fn lemma_drop_zeroes_total(s: Table)
    ensures
        total(drop_zeroes(s)) == total(s),
    decreases s.len(),
{
    if s.len() > 0 {
        lemma_drop_zeroes_total(s.drop_last());
        lemma_total_push(drop_zeroes(s.drop_last()), s.last());
    }
}

/// `x` raised to the power `e` in fixed point by repeated squaring, in the
/// order `num::pow` multiplies: one when `e == 0`, otherwise `pow_strip`.
pub open spec fn pow_fixed(x: int, e: nat, u: int) -> int {
    if e == 0 {
        u
    } else {
        pow_strip(x, e, u)
    }
}

/// Squares the base while the exponent is even; an exponent of one gives
/// the base, and an odd one above that continues in `pow_accumulate`.
pub open spec fn pow_strip(b: int, e: nat, u: int) -> int
    decreases e,
{
    if e == 0 || e == 1 {
        b
    } else if e % 2 == 0 {
        pow_strip(fixed_mul(b, b, u), e / 2, u)
    } else {
        pow_accumulate(b, b, e, u)
    }
}

/// Halves the exponent and squares the base, multiplying the squared base
/// into the accumulator whenever the halved exponent is odd, until the
/// exponent reaches one.
pub open spec fn pow_accumulate(acc: int, b: int, e: nat, u: int) -> int
    decreases e,
{
    if e > 1 {
        let e2 = e / 2;
        let b2 = fixed_mul(b, b, u);
        pow_accumulate(
            if e2 % 2 == 1 {
                fixed_mul(acc, b2, u)
            } else {
                acc
            },
            b2,
            e2,
            u,
        )
    } else {
        acc
    }
}

/// `P(X < x_i)^e` for the `i`-th outcome `x_i`, and one past the last.
pub open spec fn advantage_cdf(s: Table, i: int, e: nat, u: int) -> int {
    if i >= s.len() {
        u
    } else {
        pow_fixed(clamp(total(s.take(i)), u), e, u)
    }
}

/// The distribution of the greatest of `e` independent draws: the
/// differences of consecutive values of `advantage_cdf`.
pub open spec fn advantage_table(s: Table, e: nat, u: int) -> Table {
    Seq::new(
        s.len(),
        |i: int| (s[i].0, sat_sub(advantage_cdf(s, i + 1, e, u), advantage_cdf(s, i, e, u))),
    )
}

pub(crate) proof fn lemma_total_nonneg(s: Table, u: int)
    requires
        masses_in_range(s, u),
    ensures
        total(s) >= 0,
    decreases s.len(),
{
    if s.len() > 0 {
        assert(masses_in_range(s.drop_last(), u)) by {
            assert forall|i: int| 0 <= i < s.drop_last().len() implies 0 <= #[trigger] s.drop_last()[i].1 <= u by {
                assert(s.drop_last()[i] == s[i]);
            }
        }
        lemma_total_nonneg(s.drop_last(), u);
        assert(0 <= s[s.len() - 1].1);
    }
}

pub(crate) proof fn lemma_take_in_range(s: Table, i: int, u: int)
    requires
        masses_in_range(s, u),
        0 <= i <= s.len(),
    ensures
        masses_in_range(s.take(i), u),
        total(s.take(i)) >= 0,
{
    assert forall|k: int| 0 <= k < s.take(i).len() implies 0 <= #[trigger] s.take(i)[k].1 <= u by {
        assert(s.take(i)[k] == s[k]);
    }
    lemma_total_nonneg(s.take(i), u);
}

proof fn lemma_mul_monotone(a: int, b: int, c: int, d: int, u: int)
    requires
        0 <= a <= b <= u,
        0 <= c <= d <= u,
        u > 0,
    ensures
        0 <= fixed_mul(a, c, u) <= fixed_mul(b, d, u) <= u,
        a == 0 ==> fixed_mul(a, c, u) == 0,
{
    assert(0 <= a * c <= b * d <= u * u) by (nonlinear_arith)
        requires
            0 <= a <= b <= u,
            0 <= c <= d <= u,
    ;
    assert(0 <= a * c / u <= b * d / u <= u) by (nonlinear_arith)
        requires
            0 <= a * c <= b * d <= u * u,
            u > 0,
    ;
    if a == 0 {
        assert(a * c == 0) by (nonlinear_arith)
            requires
                a == 0,
        ;
        assert(0int / u == 0);
    }
}

proof fn lemma_accumulate_monotone(a1: int, a2: int, b1: int, b2: int, e: nat, u: int)
    requires
        0 <= a1 <= a2 <= u,
        0 <= b1 <= b2 <= u,
        u > 0,
    ensures
        0 <= pow_accumulate(a1, b1, e, u) <= pow_accumulate(a2, b2, e, u) <= u,
        a1 == 0 ==> pow_accumulate(a1, b1, e, u) == 0,
    decreases e,
{
    if e > 1 {
        let e2 = e / 2;
        lemma_mul_monotone(b1, b2, b1, b2, u);
        let c1 = fixed_mul(b1, b1, u);
        let c2 = fixed_mul(b2, b2, u);
        lemma_mul_monotone(a1, a2, c1, c2, u);
        if e2 % 2 == 1 {
            lemma_accumulate_monotone(fixed_mul(a1, c1, u), fixed_mul(a2, c2, u), c1, c2, e2, u);
        } else {
            lemma_accumulate_monotone(a1, a2, c1, c2, e2, u);
        }
    }
}

proof fn lemma_strip_monotone(b1: int, b2: int, e: nat, u: int)
    requires
        0 <= b1 <= b2 <= u,
        u > 0,
    ensures
        0 <= pow_strip(b1, e, u) <= pow_strip(b2, e, u) <= u,
        b1 == 0 ==> pow_strip(b1, e, u) == 0,
    decreases e,
{
    if e == 0 || e == 1 {
    } else if e % 2 == 0 {
        lemma_mul_monotone(b1, b2, b1, b2, u);
        lemma_strip_monotone(fixed_mul(b1, b1, u), fixed_mul(b2, b2, u), e / 2, u);
    } else {
        lemma_accumulate_monotone(b1, b2, b1, b2, e, u);
    }
}

pub(crate) proof fn lemma_pow_bounds(x: int, y: int, e: nat, u: int)
    requires
        0 <= x <= y <= u,
        u > 0,
    ensures
        0 <= pow_fixed(x, e, u) <= pow_fixed(y, e, u) <= u,
        e > 0 && x == 0 ==> pow_fixed(x, e, u) == 0,
{
    if e > 0 {
        lemma_strip_monotone(x, y, e, u);
    }
}

/// The advantage cdf never decreases along the table.
pub(crate) proof fn lemma_advantage_cdf_monotone(s: Table, i: int, e: nat, u: int)
    requires
        masses_in_range(s, u),
        u > 0,
        0 <= i < s.len(),
    ensures
        0 <= advantage_cdf(s, i, e, u) <= advantage_cdf(s, i + 1, e, u) <= u,
{
    lemma_take_in_range(s, i, u);
    lemma_total_take_step(s, i);
    let x = clamp(total(s.take(i)), u);
    if i + 1 < s.len() {
        lemma_take_in_range(s, i + 1, u);
        lemma_pow_bounds(x, clamp(total(s.take(i + 1)), u), e, u);
    } else {
        lemma_pow_bounds(x, x, e, u);
    }
}

/// The masses of the advantage table, summed over its first `i` entries,
/// telescope to the difference of the cdf at `i` and at zero.
pub(crate) proof fn lemma_advantage_telescopes(s: Table, i: int, e: nat, u: int)
    requires
        masses_in_range(s, u),
        u > 0,
        0 <= i <= s.len(),
    ensures
        total(advantage_table(s, e, u).take(i)) == advantage_cdf(s, i, e, u) - advantage_cdf(s, 0, e, u),
    decreases i,
{
    let t = advantage_table(s, e, u);
    if i == 0 {
        assert(t.take(0) =~= Seq::<(int, int)>::empty());
    } else {
        lemma_advantage_telescopes(s, i - 1, e, u);
        lemma_total_take_step(t, i - 1);
        lemma_advantage_cdf_monotone(s, i - 1, e, u);
    }
}

/// The arithmetic operation under which a convolution combines outcomes.
#[derive(Clone, Copy, Debug, PartialEq, Eq, Structural)]
pub enum Combine {
    Sum,
    Product,
    /// Division truncating toward zero; pairs whose divisor is zero are
    /// skipped.
    Quotient,
}

pub open spec fn abs(x: int) -> int {
    if x < 0 {
        -x
    } else {
        x
    }
}

/// Integer division truncating toward zero.
pub open spec fn trunc_div(x: int, y: int) -> int {
    if (x < 0) != (y < 0) {
        -(abs(x) / abs(y))
    } else {
        abs(x) / abs(y)
    }
}

/// Whether the pair of outcomes `x`, `y` takes part under `op`.
pub open spec fn pair_defined(op: Combine, x: int, y: int) -> bool {
    op != Combine::Quotient || y != 0
}

/// The outcome that the pair `x`, `y` produces under `op`.
pub open spec fn combine(op: Combine, x: int, y: int) -> int {
    match op {
        Combine::Sum => x + y,
        Combine::Product => x * y,
        Combine::Quotient => trunc_div(x, y),
    }
}

/// What the pair of entries `p`, `q` contributes to the mass at `x`.
pub open spec fn pair_term(op: Combine, p: (int, int), q: (int, int), x: int, u: int) -> int {
    if pair_defined(op, p.0, q.0) && combine(op, p.0, q.0) == x {
        fixed_mul(p.1, q.1, u)
    } else {
        0
    }
}

/// What the entry `p`, paired with each entry of `b`, contributes at `x`.
pub open spec fn row_sum(op: Combine, p: (int, int), b: Table, x: int, u: int) -> int
    decreases b.len(),
{
    if b.len() == 0 {
        0
    } else {
        row_sum(op, p, b.drop_last(), x, u) + pair_term(op, p, b.last(), x, u)
    }
}

/// The exact sum, over all pairs of an entry of `a` and one of `b` that
/// produce `x`, of the product of their masses.
pub open spec fn pair_sum(op: Combine, a: Table, b: Table, x: int, u: int) -> int
    decreases a.len(),
{
    if a.len() == 0 {
        0
    } else {
        pair_sum(op, a.drop_last(), b, x, u) + row_sum(op, a.last(), b, x, u)
    }
}

/// Some pair of an outcome of `a` and one of `b` produces `x`.
pub open spec fn produces(op: Combine, a: Table, b: Table, x: int) -> bool {
    exists|i: int, j: int|
        0 <= i < a.len() && 0 <= j < b.len() && pair_defined(op, a[i].0, b[j].0) && #[trigger] combine(
            op,
            a[i].0,
            b[j].0,
        ) == x
}

/// Every outcome that a pair produces fits in a `Sample`.
pub open spec fn keys_fit(op: Combine, a: Table, b: Table) -> bool {
    forall|i: int, j: int|
        0 <= i < a.len() && 0 <= j < b.len() && pair_defined(op, a[i].0, b[j].0) ==> i64::MIN
            <= #[trigger] combine(op, a[i].0, b[j].0) <= i64::MAX
}

/// `r` is the convolution of `a` and `b` under `op`: its outcomes are those
/// that some pair produces, in ascending order, and the mass at each is the
/// sum of the pair products there, saturated at one.
pub open spec fn is_convolution(r: Table, a: Table, b: Table, op: Combine, u: int) -> bool {
    &&& strictly_ascending(r)
    &&& forall|x: int| #[trigger] has_key(r, x) <==> produces(op, a, b, x)
    &&& forall|i: int| 0 <= i < r.len() ==> #[trigger] r[i].1 == clamp(pair_sum(op, a, b, r[i].0, u), u)
}

/// The convolution of `a` and `b` under `op` (see `is_convolution`, which
/// determines it).
pub open spec fn convolution(a: Table, b: Table, op: Combine, u: int) -> Table {
    choose|r: Table| is_convolution(r, a, b, op, u)
}

/// The distribution of the sum of `n + 1` independent draws from `s`.
pub open spec fn sum_power(s: Table, n: nat, u: int) -> Table
    decreases n,
{
    if n == 0 {
        s
    } else {
        convolution(sum_power(s, (n - 1) as nat, u), s, Combine::Sum, u)
    }
}

/// The pairs before `(i, j)`, row by row, produce `x`.
pub(crate) open spec fn produced_before(op: Combine, a: Table, b: Table, i: int, j: int, x: int) -> bool {
    exists|ii: int, jj: int|
        ((0 <= ii < i && 0 <= jj < b.len()) || (ii == i && 0 <= jj < j)) && pair_defined(
            op,
            a[ii].0,
            b[jj].0,
        ) && #[trigger] combine(op, a[ii].0, b[jj].0) == x
}

/// The pair sum at `x` over the pairs before `(i, j)`, row by row.
pub(crate) open spec fn partial_sum(op: Combine, a: Table, b: Table, i: int, j: int, x: int, u: int) -> int {
    pair_sum(op, a.take(i), b, x, u) + row_sum(op, a[i], b.take(j), x, u)
}

pub(crate) proof fn lemma_mass_at_index(s: Table, i: int)
    requires
        strictly_ascending(s),
        0 <= i < s.len(),
    ensures
        has_key(s, s[i].0),
        mass_at(s, s[i].0) == s[i].1,
{
    assert(has_key(s, s[i].0));
    let j = choose|j: int| 0 <= j < s.len() && s[j].0 == s[i].0;
    if j < i {
        assert(s[j].0 < s[i].0);
    } else if j > i {
        assert(s[i].0 < s[j].0);
    }
}

pub(crate) proof fn lemma_row_zero(op: Combine, p: (int, int), b: Table, x: int, u: int)
    requires
        forall|j: int| 0 <= j < b.len() ==> !(pair_defined(op, p.0, b[j].0) && #[trigger] combine(op, p.0, b[j].0) == x),
    ensures
        row_sum(op, p, b, x, u) == 0,
    decreases b.len(),
{
    if b.len() > 0 {
        assert(!(pair_defined(op, p.0, b[b.len() - 1].0) && combine(op, p.0, b[b.len() - 1].0) == x));
        lemma_row_zero(op, p, b.drop_last(), x, u);
    }
}

pub(crate) proof fn lemma_pair_zero(op: Combine, a: Table, b: Table, x: int, u: int)
    requires
        !produces(op, a, b, x),
    ensures
        pair_sum(op, a, b, x, u) == 0,
    decreases a.len(),
{
    if a.len() > 0 {
        let i = a.len() - 1;
        assert forall|j: int| 0 <= j < b.len() implies !(pair_defined(op, a[i].0, b[j].0) && #[trigger] combine(op, a[i].0, b[j].0) == x) by {
            if pair_defined(op, a[i].0, b[j].0) && combine(op, a[i].0, b[j].0) == x {
                assert(produces(op, a, b, x));
            }
        }
        lemma_row_zero(op, a.last(), b, x, u);
        assert forall|ii: int, jj: int| 0 <= ii < a.drop_last().len() && 0 <= jj < b.len() implies !(pair_defined(op, a.drop_last()[ii].0, b[jj].0) && #[trigger] combine(op, a.drop_last()[ii].0, b[jj].0) == x) by {
            if pair_defined(op, a[ii].0, b[jj].0) && combine(op, a[ii].0, b[jj].0) == x {
                assert(produces(op, a, b, x));
            }
        }
        lemma_pair_zero(op, a.drop_last(), b, x, u);
    }
}

/// Taking one more entry of an ascending table adds exactly its outcome,
/// with its mass.
pub(crate) proof fn lemma_take_step_keys(b: Table, j: int)
    requires
        strictly_ascending(b),
        0 <= j < b.len(),
    ensures
        !has_key(b.take(j), b[j].0),
        mass_at(b.take(j + 1), b[j].0) == b[j].1,
        forall|x: int| #[trigger] has_key(b.take(j + 1), x) <==> (has_key(b.take(j), x) || x == b[j].0),
        forall|x: int| x != b[j].0 ==> #[trigger] mass_at(b.take(j + 1), x) == mass_at(b.take(j), x),
{
    let t0 = b.take(j);
    let t1 = b.take(j + 1);
    if has_key(t0, b[j].0) {
        let k = choose|k: int| 0 <= k < t0.len() && t0[k].0 == b[j].0;
        assert(b[k].0 < b[j].0);
    }
    assert(strictly_ascending(t1));
    assert(strictly_ascending(t0));
    lemma_mass_at_index(t1, j);
    assert forall|x: int| #[trigger] has_key(t1, x) <==> (has_key(t0, x) || x == b[j].0) by {
        if has_key(t0, x) {
            let k = choose|k: int| 0 <= k < t0.len() && t0[k].0 == x;
            assert(t1[k].0 == x);
        }
        if has_key(t1, x) && x != b[j].0 {
            let k = choose|k: int| 0 <= k < t1.len() && t1[k].0 == x;
            assert(t0[k].0 == x);
        }
    }
    assert forall|x: int| x != b[j].0 implies #[trigger] mass_at(t1, x) == mass_at(t0, x) by {
        if has_key(t0, x) {
            let k = choose|k: int| 0 <= k < t0.len() && t0[k].0 == x;
            lemma_mass_at_index(t0, k);
            lemma_mass_at_index(t1, k);
        }
    }
}

} // verus!
