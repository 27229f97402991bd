//! Algebraic laws of the distribution engine, stated over tables.

use vstd::prelude::*;

use crate::numerics::fixed_mul;
use crate::numerics::Number;
use crate::pdf::PDF;
use crate::table::{
    advantage_cdf, advantage_table, clamp, cumulative_table, lemma_count_at_most, lemma_mass_at_index,
    lemma_take_in_range, lemma_total_take_step, scale_table, shift_table, total,
    value_below, within_tolerance,
};
use crate::table::{
    combine, has_key, is_convolution, masses_in_range, mass_at, pair_defined, pair_sum, pair_term,
    produces, row_sum, strictly_ascending, Combine, Table,
};

verus! {

/// Two tables with ascending outcomes that hold the same outcomes, with the
/// same mass at each, are equal.
pub proof fn lemma_table_unique(s1: Table, s2: Table)
    requires
        strictly_ascending(s1),
        strictly_ascending(s2),
        forall|x: int| #[trigger] has_key(s1, x) <==> has_key(s2, x),
        forall|x: int| has_key(s1, x) ==> #[trigger] mass_at(s1, x) == mass_at(s2, x),
    ensures
        s1 == s2,
    decreases s1.len(),
{
    if s1.len() == 0 {
        if s2.len() > 0 {
            assert(has_key(s2, s2[0].0));
            assert(has_key(s1, s2[0].0));
        }
        assert(s1 =~= s2);
    } else {
        assert(has_key(s1, s1[0].0));
        let n1 = s1.len() - 1;
        let n2 = s2.len() - 1;
        let l1 = s1[n1].0;
        let l2 = s2[n2].0;
        assert(has_key(s1, l1));
        assert(has_key(s2, l2));
        let j = choose|j: int| 0 <= j < s2.len() && s2[j].0 == l1;
        assert(has_key(s1, l2));
        let i = choose|i: int| 0 <= i < s1.len() && s1[i].0 == l2;
        if j < n2 {
            assert(s2[j].0 < s2[n2].0);
        }
        if i < n1 {
            assert(s1[i].0 < s1[n1].0);
        }
        assert(l1 == l2);
        lemma_mass_at_index(s1, n1);
        lemma_mass_at_index(s2, n2);
        let d1 = s1.drop_last();
        let d2 = s2.drop_last();
        assert forall|x: int| #[trigger] has_key(d1, x) <==> (has_key(s1, x) && x != l1) by {
            if has_key(d1, x) {
                let k = choose|k: int| 0 <= k < d1.len() && d1[k].0 == x;
                assert(s1[k].0 < s1[n1].0);
                assert(has_key(s1, x));
            }
            if has_key(s1, x) && x != l1 {
                let k = choose|k: int| 0 <= k < s1.len() && s1[k].0 == x;
                assert(d1[k].0 == x);
            }
        }
        assert forall|x: int| #[trigger] has_key(d2, x) <==> (has_key(s2, x) && x != l1) by {
            if has_key(d2, x) {
                let k = choose|k: int| 0 <= k < d2.len() && d2[k].0 == x;
                assert(s2[k].0 < s2[n2].0);
                assert(has_key(s2, x));
            }
            if has_key(s2, x) && x != l1 {
                let k = choose|k: int| 0 <= k < s2.len() && s2[k].0 == x;
                assert(d2[k].0 == x);
            }
        }
        assert forall|x: int| #[trigger] has_key(d1, x) <==> has_key(d2, x) by {}
        assert forall|x: int| has_key(d1, x) implies #[trigger] mass_at(d1, x) == mass_at(d2, x) by {
            let k1 = choose|k: int| 0 <= k < d1.len() && d1[k].0 == x;
            let k2 = choose|k: int| 0 <= k < d2.len() && d2[k].0 == x;
            lemma_mass_at_index(d1, k1);
            lemma_mass_at_index(d2, k2);
            lemma_mass_at_index(s1, k1);
            lemma_mass_at_index(s2, k2);
        }
        lemma_table_unique(d1, d2);
        assert(s1 =~= d1.push(s1[n1]));
        assert(s2 =~= d2.push(s2[n2]));
    }
}

/// Two tables that are both the convolution of `a` and `b` under `op` are
/// equal.
pub proof fn lemma_convolution_unique(r1: Table, r2: Table, a: Table, b: Table, op: Combine, u: int)
    requires
        is_convolution(r1, a, b, op, u),
        is_convolution(r2, a, b, op, u),
    ensures
        r1 == r2,
{
    assert forall|x: int| #[trigger] has_key(r1, x) <==> has_key(r2, x) by {}
    assert forall|x: int| has_key(r1, x) implies #[trigger] mass_at(r1, x) == mass_at(r2, x) by {
        let k1 = choose|k: int| 0 <= k < r1.len() && r1[k].0 == x;
        let k2 = choose|k: int| 0 <= k < r2.len() && r2[k].0 == x;
        lemma_mass_at_index(r1, k1);
        lemma_mass_at_index(r2, k2);
    }
    lemma_table_unique(r1, r2);
}

/// The sum, over the entries `p` of `b`, of what the pair `p`, `q` adds at `x`.
spec fn col_sum(op: Combine, b: Table, q: (int, int), x: int, u: int) -> int
    decreases b.len(),
{
    if b.len() == 0 {
        0
    } else {
        col_sum(op, b.drop_last(), q, x, u) + pair_term(op, b.last(), q, x, u)
    }
}

proof fn lemma_pair_sum_last_col(op: Combine, b: Table, a: Table, x: int, u: int)
    requires
        a.len() > 0,
    ensures
        pair_sum(op, b, a, x, u) == pair_sum(op, b, a.drop_last(), x, u) + col_sum(
            op,
            b,
            a.last(),
            x,
            u,
        ),
    decreases b.len(),
{
    if b.len() > 0 {
        lemma_pair_sum_last_col(op, b.drop_last(), a, x, u);
    }
}

proof fn lemma_term_symmetric(op: Combine, p: (int, int), q: (int, int), x: int, u: int)
    requires
        op != Combine::Quotient,
    ensures
        pair_term(op, p, q, x, u) == pair_term(op, q, p, x, u),
{
    assert(p.0 * q.0 == q.0 * p.0) by (nonlinear_arith);
    assert(p.1 * q.1 == q.1 * p.1) by (nonlinear_arith);
    assert(fixed_mul(p.1, q.1, u) == fixed_mul(q.1, p.1, u));
}

proof fn lemma_row_col(op: Combine, p: (int, int), b: Table, x: int, u: int)
    requires
        op != Combine::Quotient,
    ensures
        row_sum(op, p, b, x, u) == col_sum(op, b, p, x, u),
    decreases b.len(),
{
    if b.len() > 0 {
        lemma_row_col(op, p, b.drop_last(), x, u);
        lemma_term_symmetric(op, p, b.last(), x, u);
    }
}

proof fn lemma_pair_sum_swap(op: Combine, a: Table, b: Table, x: int, u: int)
    requires
        op != Combine::Quotient,
    ensures
        pair_sum(op, a, b, x, u) == pair_sum(op, b, a, x, u),
    decreases a.len(),
{
    if a.len() == 0 {
        lemma_pair_sum_empty(op, b, a, x, u);
    } else {
        lemma_pair_sum_swap(op, a.drop_last(), b, x, u);
        lemma_row_col(op, a.last(), b, x, u);
        lemma_pair_sum_last_col(op, b, a, x, u);
    }
}

proof fn lemma_pair_sum_empty(op: Combine, b: Table, a: Table, x: int, u: int)
    requires
        a.len() == 0,
    ensures
        pair_sum(op, b, a, x, u) == 0,
    decreases b.len(),
{
    if b.len() > 0 {
        lemma_pair_sum_empty(op, b.drop_last(), a, x, u);
    }
}

/// Convolution under a sum or a product is commutative: the tables that
/// `A + B` and `B + A` (or `A * B` and `B * A`) return are identical.
pub proof fn lemma_convolution_commutative(op: Combine, a: Table, b: Table, r1: Table, r2: Table, u: int)
    requires
        op != Combine::Quotient,
        is_convolution(r1, a, b, op, u),
        is_convolution(r2, b, a, op, u),
    ensures
        r1 == r2,
{
    assert forall|x: int| #[trigger] has_key(r1, x) <==> has_key(r2, x) by {
        if produces(op, a, b, x) {
            let (i, j) = choose|i: int, j: int|
                0 <= i < a.len() && 0 <= j < b.len() && pair_defined(op, a[i].0, b[j].0)
                    && #[trigger] combine(op, a[i].0, b[j].0) == x;
            assert(a[i].0 * b[j].0 == b[j].0 * a[i].0) by (nonlinear_arith);
            assert(combine(op, b[j].0, a[i].0) == x);
        }
        if produces(op, b, a, x) {
            let (j, i) = choose|j: int, i: int|
                0 <= j < b.len() && 0 <= i < a.len() && pair_defined(op, b[j].0, a[i].0)
                    && #[trigger] combine(op, b[j].0, a[i].0) == x;
            assert(a[i].0 * b[j].0 == b[j].0 * a[i].0) by (nonlinear_arith);
            assert(combine(op, a[i].0, b[j].0) == x);
        }
    }
    assert forall|x: int| has_key(r1, x) implies #[trigger] mass_at(r1, x) == mass_at(r2, x) by {
        let k1 = choose|k: int| 0 <= k < r1.len() && r1[k].0 == x;
        let k2 = choose|k: int| 0 <= k < r2.len() && r2[k].0 == x;
        lemma_mass_at_index(r1, k1);
        lemma_mass_at_index(r2, k2);
        lemma_pair_sum_swap(op, a, b, x, u);
    }
    lemma_table_unique(r1, r2);
}

proof fn lemma_identity_pair_sum(d: Table, x: int, u: int)
    requires
        strictly_ascending(d),
        u > 0,
    ensures
        pair_sum(Combine::Sum, d, seq![(0int, u)], x, u) == mass_at(d, x),
    decreases d.len(),
{
    let e = seq![(0int, u)];
    if d.len() == 0 {
        assert(!has_key(d, x));
    } else {
        let n = d.len() - 1;
        let dl = d.drop_last();
        assert(e.drop_last() =~= Seq::<(int, int)>::empty());
        assert(e.last() == (0int, u));
        assert(row_sum(Combine::Sum, d[n], e.drop_last(), x, u) == 0);
        assert(row_sum(Combine::Sum, d[n], e, x, u) == pair_term(Combine::Sum, d[n], (0int, u), x, u));
        assert(d.last() == d[n]);
        lemma_identity_pair_sum(dl, x, u);
        assert(d[n].1 * u / u == d[n].1) by (nonlinear_arith)
            requires
                u > 0,
        ;
        if d[n].0 == x {
            lemma_mass_at_index(d, n);
            if has_key(dl, x) {
                let k = choose|k: int| 0 <= k < dl.len() && dl[k].0 == x;
                assert(d[k].0 < d[n].0);
            }
        } else {
            if has_key(dl, x) {
                let k = choose|k: int| 0 <= k < dl.len() && dl[k].0 == x;
                lemma_mass_at_index(dl, k);
                lemma_mass_at_index(d, k);
            }
            if has_key(d, x) {
                let k = choose|k: int| 0 <= k < d.len() && d[k].0 == x;
                assert(dl[k].0 == x);
            }
        }
    }
}

/// The point mass at outcome zero is the identity of sum-convolution:
/// `D + {0: 1}` is `D`.
pub proof fn lemma_sum_identity(d: Table, r: Table, u: int)
    requires
        strictly_ascending(d),
        masses_in_range(d, u),
        u > 0,
        is_convolution(r, d, seq![(0int, u)], Combine::Sum, u),
    ensures
        r == d,
{
    let e = seq![(0int, u)];
    assert forall|x: int| #[trigger] has_key(r, x) <==> has_key(d, x) by {
        if produces(Combine::Sum, d, e, x) {
            let (i, j) = choose|i: int, j: int|
                0 <= i < d.len() && 0 <= j < e.len() && pair_defined(Combine::Sum, d[i].0, e[j].0)
                    && #[trigger] combine(Combine::Sum, d[i].0, e[j].0) == x;
            assert(d[i].0 == x);
        }
        if has_key(d, x) {
            let i = choose|i: int| 0 <= i < d.len() && d[i].0 == x;
            assert(combine(Combine::Sum, d[i].0, e[0].0) == x);
        }
    }
    assert forall|x: int| has_key(r, x) implies #[trigger] mass_at(r, x) == mass_at(d, x) by {
        let k = choose|k: int| 0 <= k < r.len() && r[k].0 == x;
        let i = choose|i: int| 0 <= i < d.len() && d[i].0 == x;
        lemma_mass_at_index(r, k);
        lemma_mass_at_index(d, i);
        lemma_identity_pair_sum(d, x, u);
    }
    lemma_table_unique(r, d);
}

/// Every sound distribution has all its masses in `[0, 1]` and a total
/// mass within `[0.99, 1.01]` of one.
pub proof fn lemma_sound_bounds<T: Number>(d: &PDF<T, true>)
    requires
        d.wf(),
    ensures
        forall|i: int| 0 <= i < d@.len() ==> 0 <= #[trigger] d@[i].1 <= T::unit(),
        99 * T::unit() <= 100 * total(d@) <= 101 * T::unit(),
{
    assert(within_tolerance(total(d@), T::unit()));
}

/// Shifting by `k` and then by `-k` restores the table exactly. Where the
/// outcomes are samples and every shifted outcome is one too, with `k`
/// above `i64::MIN`, shifting back by `-k` stays within `Sample` as well, so
/// `offset(k).offset(-k)` is always admissible after `offset(k)`.
pub proof fn lemma_offset_round_trip(s: Table, k: int)
    ensures
        shift_table(shift_table(s, k), -k) == s,
        (forall|i: int| 0 <= i < s.len() ==> i64::MIN <= #[trigger] s[i].0 <= i64::MAX) ==> forall|i: int|
            0 <= i < s.len() ==> i64::MIN <= #[trigger] shift_table(s, k)[i].0 + (-k) <= i64::MAX,
{
    assert(shift_table(shift_table(s, k), -k) =~= s);
    assert forall|i: int| 0 <= i < s.len() implies #[trigger] shift_table(s, k)[i].0 + (-k) == s[i].0 by {}
}

/// Scaling by one is the identity.
pub proof fn lemma_scale_identity(s: Table, u: int)
    ensures
        scale_table(s, 1, u) == s,
{
    assert(scale_table(s, 1, u) =~= s);
}

/// The cumulative table at the greatest outcome holds the sum of all
/// masses, taken with the saturating addition of the mass type.
pub proof fn lemma_cumulative_at_max(s: Table, u: int)
    requires
        s.len() > 0,
    ensures
        cumulative_table(s, u)[s.len() - 1].1 == clamp(total(s), u),
{
    assert(s.take(s.len() as int) =~= s);
}

proof fn lemma_prefix_at_most_total(s: Table, i: int, u: int)
    requires
        masses_in_range(s, u),
        0 <= i <= s.len(),
    ensures
        0 <= total(s.take(i)) <= total(s),
    decreases s.len() - i,
{
    lemma_take_in_range(s, i, u);
    if i == s.len() {
        assert(s.take(i) =~= s);
    } else {
        lemma_total_take_step(s, i);
        lemma_prefix_at_most_total(s, i + 1, u);
    }
}

/// With a single draw the advantage transform keeps every entry but the
/// last, and gives the last one minus the masses before it; for every
/// table whose masses before the last entry sum to at most one. When the
/// masses sum exactly to one, it is the identity.
pub proof fn lemma_advantage_single_draw(s: Table, u: int)
    requires
        masses_in_range(s, u),
        u > 0,
        s.len() > 0,
        total(s.drop_last()) <= u,
    ensures
        forall|i: int| 0 <= i < s.len() - 1 ==> #[trigger] advantage_table(s, 1, u)[i] == s[i],
        advantage_table(s, 1, u)[s.len() - 1] == (s[s.len() - 1].0, u - total(s.drop_last())),
        total(s) == u ==> advantage_table(s, 1, u) == s,
{
    let n = s.len() - 1;
    assert(s.take(n) =~= s.drop_last());
    assert forall|i: int| 0 <= i <= n implies #[trigger] total(s.take(i)) <= u by {
        lemma_prefix_at_most_total(s.drop_last(), i, u);
        assert(s.drop_last().take(i) =~= s.take(i));
    }
    assert forall|i: int| 0 <= i <= s.len() implies #[trigger] advantage_cdf(s, i, 1, u) == if i < s.len() {
        total(s.take(i))
    } else {
        u
    } by {
        if i < s.len() {
            lemma_take_in_range(s, i, u);
            assert(total(s.take(i)) <= u);
        }
    }
    assert forall|i: int| 0 <= i < n implies #[trigger] advantage_table(s, 1, u)[i] == s[i] by {
        lemma_total_take_step(s, i);
        assert(advantage_cdf(s, i + 1, 1, u) == total(s.take(i + 1)));
        assert(advantage_cdf(s, i, 1, u) == total(s.take(i)));
        assert(0 <= s[i].1);
    }
    assert(advantage_cdf(s, n + 1, 1, u) == u);
    assert(advantage_cdf(s, n, 1, u) == total(s.take(n)));
    if total(s) == u {
        lemma_total_take_step(s, n);
        assert(s.take(n + 1) =~= s);
        assert(advantage_table(s, 1, u) =~= s);
    }
}

/// The value below a bound is zero when the bound precedes every outcome,
/// and is the stored mass when the bound is itself an outcome.
pub proof fn lemma_value_below(s: Table, b: int)
    requires
        strictly_ascending(s),
    ensures
        (s.len() == 0 || b < s[0].0) ==> value_below(s, b) == 0,
        forall|i: int| 0 <= i < s.len() && #[trigger] s[i].0 == b ==> value_below(s, b) == s[i].1,
{
    if s.len() == 0 || b < s[0].0 {
        assert forall|i: int| 0 <= i < s.len() implies s[i].0 > b by {
            if i > 0 {
                assert(s[0].0 < s[i].0);
            }
        }
        lemma_count_at_most(s, b, 0);
    }
    assert forall|i: int| 0 <= i < s.len() && #[trigger] s[i].0 == b implies value_below(s, b) == s[i].1 by {
        assert forall|k: int| 0 <= k < i + 1 implies s[k].0 <= b by {
            if k < i {
                assert(s[k].0 < s[i].0);
            }
        }
        assert forall|k: int| i + 1 <= k < s.len() implies s[k].0 > b by {
            assert(s[i].0 < s[k].0);
        }
        lemma_count_at_most(s, b, i + 1);
    }
}

} // verus!
