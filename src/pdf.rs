//! The distribution container: a sparse, outcome-ordered table from integer
//! outcome to probability mass, tagged at the type level as sound or
//! unchecked.

use vstd::prelude::*;

use crate::numerics::{fixed_mul, sat_add, sat_sub, Number};
use crate::laws::lemma_convolution_unique;
use crate::table::{
    abs, advantage_cdf, advantage_table, clamp, combine, convolution, count_at_most, count_below, cumulative_exclusive_table, cumulative_table, drop_zeroes, has_key, is_convolution, keys_fit, lemma_advantage_telescopes, lemma_count_at_most, lemma_count_below, lemma_drop_zeroes_total, lemma_mass_at_index, lemma_pair_zero, lemma_pow_bounds, lemma_row_zero, pow_accumulate, pow_strip, lemma_table_in_range, lemma_take_step_keys, lemma_total_push, lemma_total_reversed, lemma_total_same_masses, lemma_total_skip_step, lemma_total_take_step, map_masses, mass_at, masses_in_range, pair_defined, pair_sum, partial_sum, pow_fixed, produced_before, produces, rev_cumulative_exclusive_table, rev_cumulative_table, scale_table, shift_table, strictly_ascending, sum_power, table_of, total, value_above, value_below, within_tolerance, Combine, Sample, Table,
};
use crate::LlDoiceError;

verus! {

/// A discrete probability distribution over integer outcomes.
///
/// When `SOUND` holds, every mass lies in `[0, 1]` and the masses sum to
/// within one hundredth of one. Operations that cannot keep that guarantee
/// return an unchecked (`SOUND == false`) distribution.
pub struct PDF<T, const SOUND: bool> {
    data: Vec<(Sample, T)>,
}

impl<T: Number, const SOUND: bool> View for PDF<T, SOUND> {
    type V = Table;

    closed spec fn view(&self) -> Table {
        table_of(self.data@)
    }
}

/// The outcome that the pair `x`, `y` produces under `op`.
fn combine_exec(op: Combine, x: Sample, y: Sample) -> (r: Sample)
    requires
        pair_defined(op, x as int, y as int),
        i64::MIN <= combine(op, x as int, y as int) <= i64::MAX,
    ensures
        r == combine(op, x as int, y as int),
{
    match op {
        Combine::Sum => x + y,
        Combine::Product => x * y,
        Combine::Quotient => {
            let xa: u128 = if x < 0 {
                (0 - (x as i128)) as u128
            } else {
                x as u128
            };
            let ya: u128 = if y < 0 {
                (0 - (y as i128)) as u128
            } else {
                y as u128
            };
            let q: u128 = xa / ya;
            assert(q <= xa) by (nonlinear_arith)
                requires
                    q == xa / ya,
                    ya > 0,
            ;
            if (x < 0) != (y < 0) {
                (0 - (q as i128)) as i64
            } else {
                q as i64
            }
        },
    }
}

/// The number of leading entries whose outcome is at most `bound` (or, when
/// `strict`, below it), found by binary search.
fn partition_point<T: Number>(data: &Vec<(Sample, T)>, bound: Sample, strict: bool) -> (c: usize)
    requires
        strictly_ascending(table_of(data@)),
    ensures
        c <= data@.len(),
        forall|i: int| 0 <= i < c ==> if strict {
            data@[i].0 < bound
        } else {
            data@[i].0 <= bound
        },
        forall|i: int| c <= i < data@.len() ==> if strict {
            data@[i].0 >= bound
        } else {
            data@[i].0 > bound
        },
{
    let ghost s = table_of(data@);
    let mut lo: usize = 0;
    let mut hi: usize = data.len();
    while lo < hi
        invariant
            s == table_of(data@),
            strictly_ascending(s),
            lo <= hi <= data@.len(),
            forall|i: int| 0 <= i < lo ==> if strict {
                data@[i].0 < bound
            } else {
                data@[i].0 <= bound
            },
            forall|i: int| hi <= i < data@.len() ==> if strict {
                data@[i].0 >= bound
            } else {
                data@[i].0 > bound
            },
        decreases hi - lo,
    {
        let mid = lo + (hi - lo) / 2;
        let k = data[mid].0;
        proof {
            assert forall|i: int| 0 <= i < mid implies data@[i].0 <= k by {
                assert(s[i].0 < s[mid as int].0);
            }
            assert forall|i: int| mid < i < data@.len() implies data@[i].0 >= k by {
                assert(s[mid as int].0 < s[i].0);
            }
        }
        let below = if strict {
            k < bound
        } else {
            k <= bound
        };
        if below {
            lo = mid + 1;
        } else {
            hi = mid;
        }
    }
    lo
}

/// `base` raised to the power `exp` by repeated squaring, multiplying in the
/// order `num::pow` does.
fn fixed_pow<T: Number>(base: T, exp: u128) -> (r: T)
    ensures
        r.val() == pow_fixed(base.val(), exp as nat, T::unit()),
{
    let ghost u = T::unit();
    if exp == 0 {
        return T::one();
    }
    let mut b = base;
    let mut e = exp;
    while e % 2 == 0
        invariant
            u == T::unit(),
            e >= 1,
            pow_strip(b.val(), e as nat, u) == pow_strip(base.val(), exp as nat, u),
        decreases e,
    {
        b = b.mul(&b);
        e = e / 2;
    }
    if e == 1 {
        return b;
    }
    let mut acc = b;
    while e > 1
        invariant
            u == T::unit(),
            e >= 1,
            pow_accumulate(acc.val(), b.val(), e as nat, u) == pow_strip(base.val(), exp as nat, u),
        decreases e,
    {
        e = e / 2;
        b = b.mul(&b);
        if e % 2 == 1 {
            acc = acc.mul(&b);
        }
    }
    acc
}

/// Adds mass `m` at outcome `key`, inserting the outcome in order where it
/// is new.
#[verifier::rlimit(40)]
fn accumulate<T: Number>(data: &mut Vec<(Sample, T)>, key: Sample, m: T)
    requires
        strictly_ascending(table_of(old(data)@)),
    ensures
        strictly_ascending(table_of(final(data)@)),
        forall|x: int| #[trigger] has_key(table_of(final(data)@), x) <==> (has_key(table_of(old(data)@), x) || x == key),
        forall|x: int| x != key ==> #[trigger] mass_at(table_of(final(data)@), x) == mass_at(table_of(old(data)@), x),
        mass_at(table_of(final(data)@), key as int) == sat_add(mass_at(table_of(old(data)@), key as int), m.val(), T::unit()),
{
    let ghost s = table_of(data@);
    let pos = partition_point(data, key, true);
    if pos < data.len() && data[pos].0 == key {
        let cur = data[pos].1;
        let nv = cur.add(&m);
        data.set(pos, (key, nv));
        proof {
            let t = table_of(data@);
            assert(t =~= s.update(pos as int, (key as int, nv.val())));
            assert forall|i: int, j: int| 0 <= i < j < t.len() implies t[i].0 < t[j].0 by {
                assert(t[i].0 == s[i].0 && t[j].0 == s[j].0);
            }
            lemma_mass_at_index(s, pos as int);
            lemma_mass_at_index(t, pos as int);
            assert forall|x: int| #[trigger] has_key(t, x) <==> (has_key(s, x) || x == key) by {
                if has_key(s, x) {
                    let i = choose|i: int| 0 <= i < s.len() && s[i].0 == x;
                    assert(t[i].0 == x);
                }
                if has_key(t, x) {
                    let i = choose|i: int| 0 <= i < t.len() && t[i].0 == x;
                    assert(s[i].0 == x);
                }
            }
            assert forall|x: int| x != key implies #[trigger] mass_at(t, x) == mass_at(s, x) by {
                if has_key(s, x) {
                    let i = choose|i: int| 0 <= i < s.len() && s[i].0 == x;
                    lemma_mass_at_index(s, i);
                    lemma_mass_at_index(t, i);
                }
            }
        }
    } else {
        proof {
            assert forall|i: int| 0 <= i < s.len() implies s[i].0 != key by {
                if i >= pos {
                    if i > pos {
                        assert(s[pos as int].0 < s[i].0);
                    }
                }
            }
        }
        data.insert(pos, (key, m));
        proof {
            let t = table_of(data@);
            assert(t =~= s.insert(pos as int, (key as int, m.val())));
            assert forall|i: int, j: int| 0 <= i < j < t.len() implies t[i].0 < t[j].0 by {
                if i < pos && j > pos {
                    assert(s[i].0 < key);
                }
                if i < pos && j < pos {
                    assert(s[i].0 < s[j].0);
                }
                if i > pos {
                    assert(s[i - 1].0 < s[j - 1].0);
                }
                if i == pos {
                    assert(s[j - 1].0 >= key);
                }
            }
            m.lemma_bounds();
            lemma_mass_at_index(t, pos as int);
            assert forall|x: int| #[trigger] has_key(t, x) <==> (has_key(s, x) || x == key) by {
                if has_key(s, x) {
                    let i = choose|i: int| 0 <= i < s.len() && s[i].0 == x;
                    if i < pos {
                        assert(t[i].0 == x);
                    } else {
                        assert(t[i + 1].0 == x);
                    }
                }
                if has_key(t, x) {
                    let i = choose|i: int| 0 <= i < t.len() && t[i].0 == x;
                    if i < pos {
                        assert(s[i].0 == x);
                    } else if i > pos {
                        assert(s[i - 1].0 == x);
                    }
                }
            }
            assert forall|x: int| x != key implies #[trigger] mass_at(t, x) == mass_at(s, x) by {
                if has_key(s, x) {
                    let i = choose|i: int| 0 <= i < s.len() && s[i].0 == x;
                    lemma_mass_at_index(s, i);
                    if i < pos {
                        lemma_mass_at_index(t, i);
                    } else {
                        lemma_mass_at_index(t, i + 1);
                    }
                }
            }
        }
    }
}

impl<T: Number, const SOUND: bool> PDF<T, SOUND> {
    /// The distribution is well formed: outcomes strictly ascend, masses lie
    /// in range, and a sound distribution's total is within tolerance.
    pub open spec fn wf(&self) -> bool {
        &&& strictly_ascending(self@)
        &&& masses_in_range(self@, T::unit())
        &&& (SOUND ==> within_tolerance(total(self@), T::unit()))
    }

    /// The `(outcome, mass)` pairs, in ascending order of outcome.
    pub fn data(&self) -> (r: &Vec<(Sample, T)>)
        ensures
            table_of(r@) == self@,
    {
        &self.data
    }

    /// The number of outcomes.
    pub fn len(&self) -> (r: usize)
        ensures
            r == self@.len(),
    {
        self.data.len()
    }

    /// The exact total mass, as a wide integer.
    fn total_magnitude(&self) -> (r: u128)
        ensures
            r == total(self@),
    {
        let mut acc: u128 = 0;
        let mut i: usize = 0;
        let n = self.data.len();
        proof {
            assert(self@.take(0) =~= Seq::<(int, int)>::empty());
        }
        while i < n
            invariant
                n == self.data@.len(),
                n == self@.len(),
                i <= n,
                acc == total(self@.take(i as int)),
                acc <= i * (u64::MAX as int),
            decreases n - i,
        {
            let m = self.data[i].1.magnitude();
            proof {
                lemma_total_take_step(self@, i as int);
                assert(self@[i as int].1 == m);
                assert(i * (u64::MAX as int) + (u64::MAX as int) == (i + 1) * (u64::MAX as int))
                    by (nonlinear_arith);
                assert(i * (u64::MAX as int) < u128::MAX - u64::MAX) by (nonlinear_arith)
                    requires
                        i < 0x1_0000_0000_0000_0000,
                ;
            }
            acc = acc + m as u128;
            i = i + 1;
        }
        proof {
            assert(self@.take(n as int) =~= self@);
        }
        acc
    }

    /// Whether the total mass is within one hundredth of one.
    fn check_total(&self) -> (r: bool)
        ensures
            r == within_tolerance(total(self@), T::unit()),
    {
        let t = self.total_magnitude();
        let u = T::unit_magnitude() as u128;
        let diff: u128 = if t >= u {
            t - u
        } else {
            u - t
        };
        if diff > u {
            false
        } else {
            100 * diff < u
        }
    }

    /// Checks the soundness conditions and, when they hold, returns the same
    /// table as a sound distribution. Otherwise fails with
    /// `InvalidProbability`.
    pub fn validate(self) -> (r: Result<PDF<T, true>, LlDoiceError>)
        requires
            self.wf(),
        ensures
            r is Ok <==> within_tolerance(total(self@), T::unit()),
            SOUND ==> r is Ok,
            r matches Ok(d) ==> d@ == self@ && d.wf(),
            r matches Err(e) ==> e == LlDoiceError::InvalidProbability,
    {
        if self.check_total() {
            Ok(PDF { data: self.data })
        } else {
            Err(LlDoiceError::InvalidProbability)
        }
    }

    /// Promotes the distribution to sound without checking it at run time;
    /// the caller proves that the total is within tolerance.
    pub fn assert_soundness(self) -> (r: PDF<T, true>)
        requires
            self.wf(),
            within_tolerance(total(self@), T::unit()),
        ensures
            r@ == self@,
            r.wf(),
    {
        PDF { data: self.data }
    }

    /// Forgets that the distribution is sound.
    pub fn assert_unsoundness(self) -> (r: PDF<T, false>)
        requires
            self.wf(),
        ensures
            r@ == self@,
            r.wf(),
    {
        PDF { data: self.data }
    }

    /// The entry at the greatest outcome at most `bound`, if any.
    pub fn get_nearest_below(&self, bound: Sample) -> (r: Option<(Sample, T)>)
        requires
            self.wf(),
        ensures
            0 <= count_at_most(self@, bound as int) <= self@.len(),
            count_at_most(self@, bound as int) == 0 <==> r is None,
            r matches Some(p) ==> (p.0 as int, p.1.val()) == self@[count_at_most(self@, bound as int) - 1],
            r matches Some(p) ==> p.0 <= bound && forall|i: int|
                0 <= i < self@.len() && self@[i].0 <= bound ==> self@[i].0 <= p.0,
    {
        let c = partition_point(&self.data, bound, false);
        proof {
            lemma_count_at_most(self@, bound as int, c as int);
        }
        if c == 0 {
            None
        } else {
            let p = self.data[c - 1];
            assert(self@[c - 1] == (p.0 as int, p.1.val()));
            Some(p)
        }
    }

    /// The mass at the greatest outcome at most `bound`, or zero where there
    /// is none.
    pub fn get_value_below(&self, bound: Sample) -> (r: T)
        requires
            self.wf(),
        ensures
            r.val() == value_below(self@, bound as int),
    {
        match self.get_nearest_below(bound) {
            Some(p) => p.1,
            None => T::zero(),
        }
    }

    /// The entry at the least outcome at least `bound`, if any.
    pub fn get_nearest_above(&self, bound: Sample) -> (r: Option<(Sample, T)>)
        requires
            self.wf(),
        ensures
            0 <= count_below(self@, bound as int) <= self@.len(),
            count_below(self@, bound as int) == self@.len() <==> r is None,
            r matches Some(p) ==> (p.0 as int, p.1.val()) == self@[count_below(self@, bound as int)],
            r matches Some(p) ==> p.0 >= bound && forall|i: int|
                0 <= i < self@.len() && self@[i].0 >= bound ==> self@[i].0 >= p.0,
    {
        let c = partition_point(&self.data, bound, true);
        proof {
            lemma_count_below(self@, bound as int, c as int);
        }
        if c == self.data.len() {
            None
        } else {
            let p = self.data[c];
            assert(self@[c as int] == (p.0 as int, p.1.val()));
            Some(p)
        }
    }

    /// The mass at the least outcome at least `bound`, or zero where there is
    /// none.
    pub fn get_value_above(&self, bound: Sample) -> (r: T)
        requires
            self.wf(),
        ensures
            r.val() == value_above(self@, bound as int),
    {
        match self.get_nearest_above(bound) {
            Some(p) => p.1,
            None => T::zero(),
        }
    }

    /// Combines this distribution with an independent one under `op`: each
    /// pair of entries adds the product of its masses at the outcome it
    /// produces.
    fn convolve<const S2: bool>(&self, rhs: &PDF<T, S2>, op: Combine) -> (r: PDF<T, false>)
        requires
            self.wf(),
            rhs.wf(),
            keys_fit(op, self@, rhs@),
        ensures
            r.wf(),
            is_convolution(r@, self@, rhs@, op, T::unit()),
    {
        let ghost a = self@;
        let ghost b = rhs@;
        let ghost u = T::unit();
        let n = self.data.len();
        let m = rhs.data.len();
        let mut data: Vec<(Sample, T)> = Vec::new();
        let mut i: usize = 0;
        proof {
            assert(a.take(0) =~= Seq::<(int, int)>::empty());
            assert(table_of(data@) =~= Seq::<(int, int)>::empty());
        }
        while i < n
            invariant
                a == self@,
                b == rhs@,
                u == T::unit(),
                n == a.len(),
                m == b.len(),
                n == self.data@.len(),
                m == rhs.data@.len(),
                keys_fit(op, a, b),
                i <= n,
                strictly_ascending(table_of(data@)),
                forall|x: int| #[trigger]
                    has_key(table_of(data@), x) <==> produced_before(op, a, b, i as int, 0, x),
                forall|x: int|
                    has_key(table_of(data@), x) ==> #[trigger] mass_at(table_of(data@), x) == clamp(
                        pair_sum(op, a.take(i as int), b, x, u),
                        u,
                    ),
            decreases n - i,
        {
            let (ka, pa) = self.data[i];
            assert(a[i as int] == (ka as int, pa.val()));
            let mut j: usize = 0;
            proof {
                assert(b.take(0) =~= Seq::<(int, int)>::empty());
                assert forall|x: int| #[trigger]
                    has_key(table_of(data@), x) implies mass_at(table_of(data@), x) == clamp(
                        partial_sum(op, a, b, i as int, 0, x, u),
                        u,
                    ) by {}
            }
            while j < m
                invariant
                    a == self@,
                    b == rhs@,
                    u == T::unit(),
                    n == a.len(),
                    m == b.len(),
                    n == self.data@.len(),
                    m == rhs.data@.len(),
                    keys_fit(op, a, b),
                    i < n,
                    j <= m,
                    a[i as int] == (ka as int, pa.val()),
                    strictly_ascending(table_of(data@)),
                    forall|x: int| #[trigger]
                        has_key(table_of(data@), x) <==> produced_before(
                            op,
                            a,
                            b,
                            i as int,
                            j as int,
                            x,
                        ),
                    forall|x: int|
                        has_key(table_of(data@), x) ==> #[trigger] mass_at(table_of(data@), x)
                            == clamp(partial_sum(op, a, b, i as int, j as int, x, u), u),
                decreases m - j,
            {
                let (kb, pb) = rhs.data[j];
                assert(b[j as int] == (kb as int, pb.val()));
                let ghost prev = table_of(data@);
                let defined = match op {
                    Combine::Quotient => kb != 0,
                    _ => true,
                };
                assert(defined == pair_defined(op, ka as int, kb as int));
                proof {
                    assert(b.take(j + 1).drop_last() =~= b.take(j as int));
                    pa.lemma_bounds();
                    pb.lemma_bounds();
                }
                if defined {
                    assert(i64::MIN <= combine(op, a[i as int].0, b[j as int].0) <= i64::MAX);
                    let key = combine_exec(op, ka, kb);
                    let prod = pa.mul(&pb);
                    accumulate(&mut data, key, prod);
                    proof {
                        let t = table_of(data@);
                        assert forall|x: int| #[trigger]
                            has_key(t, x) <==> produced_before(
                                op,
                                a,
                                b,
                                i as int,
                                j + 1,
                                x,
                            ) by {
                            if produced_before(op, a, b, i as int, j + 1, x) {
                                let (ii, jj) = choose|ii: int, jj: int|
                                    ((0 <= ii < i && 0 <= jj < b.len()) || (ii == i && 0 <= jj
                                        < j + 1)) && pair_defined(op, a[ii].0, b[jj].0)
                                        && #[trigger] combine(op, a[ii].0, b[jj].0) == x;
                                if !(ii == i && jj == j) {
                                    assert(produced_before(op, a, b, i as int, j as int, x));
                                }
                            }
                            if has_key(prev, x) {
                                let (ii, jj) = choose|ii: int, jj: int|
                                    ((0 <= ii < i && 0 <= jj < b.len()) || (ii == i && 0 <= jj
                                        < j)) && pair_defined(op, a[ii].0, b[jj].0)
                                        && #[trigger] combine(op, a[ii].0, b[jj].0) == x;
                                assert(produced_before(op, a, b, i as int, j + 1, x));
                            }
                            if x == key {
                                assert(combine(op, a[i as int].0, b[j as int].0) == x);
                            }
                        }
                        assert forall|x: int| has_key(t, x) implies #[trigger] mass_at(t, x)
                            == clamp(partial_sum(op, a, b, i as int, j + 1, x, u), u) by {
                            if x == key {
                                if !has_key(prev, x) {
                                    assert forall|ii: int, jj: int|
                                        0 <= ii < a.take(i as int).len() && 0 <= jj
                                            < b.len() implies !(pair_defined(
                                        op,
                                        a.take(i as int)[ii].0,
                                        b[jj].0,
                                    ) && #[trigger] combine(op, a.take(i as int)[ii].0, b[jj].0)
                                        == x) by {
                                        if pair_defined(op, a[ii].0, b[jj].0) && combine(
                                            op,
                                            a[ii].0,
                                            b[jj].0,
                                        ) == x {
                                            assert(produced_before(
                                                op,
                                                a,
                                                b,
                                                i as int,
                                                j as int,
                                                x,
                                            ));
                                        }
                                    }
                                    lemma_pair_zero(op, a.take(i as int), b, x, u);
                                    assert forall|jj: int| 0 <= jj < b.take(j as int).len() implies !(
                                    pair_defined(op, a[i as int].0, b.take(j as int)[jj].0)
                                        && #[trigger] combine(
                                        op,
                                        a[i as int].0,
                                        b.take(j as int)[jj].0,
                                    ) == x) by {
                                        if pair_defined(op, a[i as int].0, b[jj].0) && combine(
                                            op,
                                            a[i as int].0,
                                            b[jj].0,
                                        ) == x {
                                            assert(produced_before(
                                                op,
                                                a,
                                                b,
                                                i as int,
                                                j as int,
                                                x,
                                            ));
                                        }
                                    }
                                    lemma_row_zero(op, a[i as int], b.take(j as int), x, u);
                                }
                            } else {
                                assert(has_key(prev, x));
                            }
                        }
                    }
                }
                j = j + 1;
            }
            proof {
                assert(b.take(m as int) =~= b);
                assert(a.take(i + 1).drop_last() =~= a.take(i as int));
                let t = table_of(data@);
                assert forall|x: int| #[trigger]
                    has_key(t, x) <==> produced_before(op, a, b, i + 1, 0, x) by {
                    if produced_before(op, a, b, i + 1, 0, x) {
                        let (ii, jj) = choose|ii: int, jj: int|
                            ((0 <= ii < i + 1 && 0 <= jj < b.len()) || (ii == i + 1 && 0 <= jj
                                < 0)) && pair_defined(op, a[ii].0, b[jj].0) && #[trigger] combine(
                                op,
                                a[ii].0,
                                b[jj].0,
                            ) == x;
                        assert(produced_before(op, a, b, i as int, m as int, x));
                    }
                    if produced_before(op, a, b, i as int, m as int, x) {
                        let (ii, jj) = choose|ii: int, jj: int|
                            ((0 <= ii < i && 0 <= jj < b.len()) || (ii == i && 0 <= jj < m))
                                && pair_defined(op, a[ii].0, b[jj].0) && #[trigger] combine(
                                op,
                                a[ii].0,
                                b[jj].0,
                            ) == x;
                        assert(produced_before(op, a, b, i + 1, 0, x));
                    }
                }
            }
            i = i + 1;
        }
        let r = PDF { data };
        proof {
            assert(a.take(n as int) =~= a);
            lemma_table_in_range(r.data@);
            assert forall|x: int| #[trigger] has_key(r@, x) <==> produces(op, a, b, x) by {
                if produces(op, a, b, x) {
                    let (ii, jj) = choose|ii: int, jj: int|
                        0 <= ii < a.len() && 0 <= jj < b.len() && pair_defined(op, a[ii].0, b[jj].0)
                            && #[trigger] combine(op, a[ii].0, b[jj].0) == x;
                    assert(produced_before(op, a, b, n as int, 0, x));
                }
                if produced_before(op, a, b, n as int, 0, x) {
                    let (ii, jj) = choose|ii: int, jj: int|
                        ((0 <= ii < n && 0 <= jj < b.len()) || (ii == n && 0 <= jj < 0))
                            && pair_defined(op, a[ii].0, b[jj].0) && #[trigger] combine(
                            op,
                            a[ii].0,
                            b[jj].0,
                        ) == x;
                    assert(produces(op, a, b, x));
                }
            }
            assert forall|k: int| 0 <= k < r@.len() implies #[trigger] r@[k].1 == clamp(
                pair_sum(op, a, b, r@[k].0, u),
                u,
            ) by {
                lemma_mass_at_index(r@, k);
            }
        }
        r
    }

    /// The distribution of the sum of two independent variables.
    ///
    /// Like every convolution, the result is unchecked: masses are rounded
    /// down and the inputs' totals may each be off by up to a hundredth, so
    /// a sound pair does not always give a total within tolerance.
    pub fn add(&self, rhs: &PDF<T, SOUND>) -> (r: PDF<T, false>)
        requires
            self.wf(),
            rhs.wf(),
            keys_fit(Combine::Sum, self@, rhs@),
        ensures
            r.wf(),
            is_convolution(r@, self@, rhs@, Combine::Sum, T::unit()),
    {
        self.convolve(rhs, Combine::Sum)
    }

    /// The distribution of the product of two independent variables.
    pub fn mul(&self, rhs: &PDF<T, SOUND>) -> (r: PDF<T, false>)
        requires
            self.wf(),
            rhs.wf(),
            keys_fit(Combine::Product, self@, rhs@),
        ensures
            r.wf(),
            is_convolution(r@, self@, rhs@, Combine::Product, T::unit()),
    {
        self.convolve(rhs, Combine::Product)
    }

    /// The distribution of the truncated quotient of two independent
    /// variables. Pairs whose divisor outcome is zero are skipped, so their
    /// mass is dropped from the result.
    pub fn div(&self, rhs: &PDF<T, SOUND>) -> (r: PDF<T, false>)
        requires
            self.wf(),
            rhs.wf(),
            keys_fit(Combine::Quotient, self@, rhs@),
        ensures
            r.wf(),
            is_convolution(r@, self@, rhs@, Combine::Quotient, T::unit()),
    {
        self.convolve(rhs, Combine::Quotient)
    }

    /// Shifts every outcome by `delta`; the masses are untouched.
    pub fn offset(self, delta: Sample) -> (r: Self)
        requires
            self.wf(),
            forall|i: int| 0 <= i < self@.len() ==> i64::MIN <= #[trigger] self@[i].0 + delta <= i64::MAX,
        ensures
            r.wf(),
            r@ == shift_table(self@, delta as int),
    {
        let ghost s = self@;
        let n = self.data.len();
        let mut out: Vec<(Sample, T)> = Vec::new();
        let mut i: usize = 0;
        while i < n
            invariant
                s == self@,
                n == s.len(),
                n == self.data@.len(),
                i <= n,
                out@.len() == i,
                forall|i: int| 0 <= i < s.len() ==> i64::MIN <= #[trigger] s[i].0 + delta <= i64::MAX,
                forall|a: int| 0 <= a < i ==> #[trigger] table_of(out@)[a] == shift_table(s, delta as int)[a],
            decreases n - i,
        {
            let (k, v) = self.data[i];
            assert(s[i as int] == (k as int, v.val()));
            assert(i64::MIN <= s[i as int].0 + delta <= i64::MAX);
            let ghost prev = out@;
            out.push((k + delta, v));
            proof {
                assert forall|a: int| 0 <= a < i + 1 implies #[trigger] table_of(out@)[a]
                    == shift_table(s, delta as int)[a] by {
                    if a < i {
                        assert(out@[a] == prev[a]);
                        assert(table_of(prev)[a] == shift_table(s, delta as int)[a]);
                    }
                }
            }
            i = i + 1;
        }
        let r = PDF { data: out };
        proof {
            lemma_table_in_range(out@);
            assert(r@ =~= shift_table(s, delta as int));
            lemma_total_same_masses(r@, s);
        }
        r
    }

    /// Multiplies every outcome by `factor`; the masses are untouched. With
    /// `factor == 0` all outcomes collapse onto zero, whose mass is the
    /// (saturated) total.
    pub fn scale(self, factor: Sample) -> (r: Self)
        requires
            self.wf(),
            forall|i: int| 0 <= i < self@.len() ==> i64::MIN <= #[trigger] self@[i].0 * factor <= i64::MAX,
        ensures
            r.wf(),
            r@ == scale_table(self@, factor as int, T::unit()),
    {
        let ghost s = self@;
        let ghost u = T::unit();
        let n = self.data.len();
        if factor == 0 {
            if n == 0 {
                return self;
            }
            let mut acc = T::zero();
            let mut i: usize = 0;
            proof {
                acc.lemma_bounds();
                assert(s.take(0) =~= Seq::<(int, int)>::empty());
            }
            while i < n
                invariant
                    s == self@,
                    u == T::unit(),
                    n == s.len(),
                    n == self.data@.len(),
                    i <= n,
                    acc.val() == clamp(total(s.take(i as int)), u),
                decreases n - i,
            {
                let v = self.data[i].1;
                assert(s[i as int].1 == v.val());
                proof {
                    lemma_total_take_step(s, i as int);
                    v.lemma_bounds();
                    acc.lemma_bounds();
                }
                acc = acc.add(&v);
                i = i + 1;
            }
            let mut out: Vec<(Sample, T)> = Vec::new();
            out.push((0, acc));
            let r = PDF { data: out };
            proof {
                assert(s.take(n as int) =~= s);
                lemma_table_in_range(out@);
                assert(r@ =~= scale_table(s, 0, u));
                assert(r@.drop_last() =~= Seq::<(int, int)>::empty());
                acc.lemma_bounds();
                assert(total(r@) == total(r@.drop_last()) + acc.val());
                assert(total(r@) == acc.val());
                assert(SOUND ==> within_tolerance(total(s), u));
            }
            return r;
        }
        let mut out: Vec<(Sample, T)> = Vec::new();
        let mut i: usize = 0;
        while i < n
            invariant
                s == self@,
                u == T::unit(),
                n == s.len(),
                n == self.data@.len(),
                factor != 0,
                strictly_ascending(s),
                i <= n,
                out@.len() == i,
                forall|i: int| 0 <= i < s.len() ==> i64::MIN <= #[trigger] s[i].0 * factor <= i64::MAX,
                forall|a: int| 0 <= a < i ==> #[trigger] table_of(out@)[a] == scale_table(s, factor as int, u)[a],
            decreases n - i,
        {
            let j = if factor > 0 {
                i
            } else {
                n - 1 - i
            };
            let (k, v) = self.data[j];
            assert(s[j as int] == (k as int, v.val()));
            assert(i64::MIN <= s[j as int].0 * factor <= i64::MAX);
            let ghost prev = out@;
            out.push((k * factor, v));
            proof {
                assert forall|a: int| 0 <= a < i + 1 implies #[trigger] table_of(out@)[a]
                    == scale_table(s, factor as int, u)[a] by {
                    if a < i {
                        assert(out@[a] == prev[a]);
                        assert(table_of(prev)[a] == scale_table(s, factor as int, u)[a]);
                    }
                }
            }
            i = i + 1;
        }
        let r = PDF { data: out };
        proof {
            lemma_table_in_range(out@);
            assert(r@ =~= scale_table(s, factor as int, u));
            assert forall|a: int, b: int| 0 <= a < b < r@.len() implies r@[a].0 < r@[b].0 by {
                if factor > 0 {
                    assert(s[a].0 < s[b].0);
                    assert(s[a].0 * factor < s[b].0 * factor) by (nonlinear_arith)
                        requires
                            s[a].0 < s[b].0,
                            factor > 0,
                    ;
                } else {
                    let aa = n - 1 - a;
                    let bb = n - 1 - b;
                    assert(s[bb].0 < s[aa].0);
                    assert(s[aa].0 * factor < s[bb].0 * factor) by (nonlinear_arith)
                        requires
                            s[bb].0 < s[aa].0,
                            factor < 0,
                    ;
                }
            }
            if factor > 0 {
                lemma_total_same_masses(r@, s);
            } else {
                lemma_total_reversed(s, r@);
            }
        }
        r
    }

    /// Multiplies every mass by `factor`.
    pub fn scale_probabilities(self, factor: T) -> (r: PDF<T, false>)
        requires
            self.wf(),
        ensures
            r.wf(),
            r@ == map_masses(self@, |p: int| fixed_mul(p, factor.val(), T::unit())),
    {
        let ghost s = self@;
        let ghost g = |p: int| fixed_mul(p, factor.val(), T::unit());
        let n = self.data.len();
        let mut out: Vec<(Sample, T)> = Vec::new();
        let mut i: usize = 0;
        while i < n
            invariant
                s == self@,
                g == (|p: int| fixed_mul(p, factor.val(), T::unit())),
                n == s.len(),
                n == self.data@.len(),
                i <= n,
                out@.len() == i,
                forall|a: int| 0 <= a < i ==> #[trigger] table_of(out@)[a] == map_masses(s, g)[a],
            decreases n - i,
        {
            let (k, v) = self.data[i];
            assert(s[i as int] == (k as int, v.val()));
            let ghost prev = out@;
            out.push((k, v.mul(&factor)));
            proof {
                assert forall|a: int| 0 <= a < i + 1 implies #[trigger] table_of(out@)[a]
                    == map_masses(s, g)[a] by {
                    if a < i {
                        assert(out@[a] == prev[a]);
                        assert(table_of(prev)[a] == map_masses(s, g)[a]);
                    }
                }
            }
            i = i + 1;
        }
        let r = PDF { data: out };
        proof {
            lemma_table_in_range(out@);
            assert(r@ =~= map_masses(s, g));
        }
        r
    }

    /// Replaces every mass by its square.
    pub fn square_probabilities(self) -> (r: PDF<T, false>)
        requires
            self.wf(),
        ensures
            r.wf(),
            r@ == map_masses(self@, |p: int| fixed_mul(p, p, T::unit())),
    {
        let ghost s = self@;
        let ghost g = |p: int| fixed_mul(p, p, T::unit());
        let n = self.data.len();
        let mut out: Vec<(Sample, T)> = Vec::new();
        let mut i: usize = 0;
        while i < n
            invariant
                s == self@,
                g == (|p: int| fixed_mul(p, p, T::unit())),
                n == s.len(),
                n == self.data@.len(),
                i <= n,
                out@.len() == i,
                forall|a: int| 0 <= a < i ==> #[trigger] table_of(out@)[a] == map_masses(s, g)[a],
            decreases n - i,
        {
            let (k, v) = self.data[i];
            assert(s[i as int] == (k as int, v.val()));
            let ghost prev = out@;
            out.push((k, v.mul(&v)));
            proof {
                assert forall|a: int| 0 <= a < i + 1 implies #[trigger] table_of(out@)[a]
                    == map_masses(s, g)[a] by {
                    if a < i {
                        assert(out@[a] == prev[a]);
                        assert(table_of(prev)[a] == map_masses(s, g)[a]);
                    }
                }
            }
            i = i + 1;
        }
        let r = PDF { data: out };
        proof {
            lemma_table_in_range(out@);
            assert(r@ =~= map_masses(s, g));
        }
        r
    }

    /// Removes every entry whose mass is exactly zero.
    pub fn trim_zeroes(&mut self)
        requires
            old(self).wf(),
        ensures
            final(self).wf(),
            final(self)@ == drop_zeroes(old(self)@),
    {
        let ghost s = self@;
        let n = self.data.len();
        let mut out: Vec<(Sample, T)> = Vec::new();
        let mut i: usize = 0;
        proof {
            assert(s.take(0) =~= Seq::<(int, int)>::empty());
        }
        while i < n
            invariant
                s == self@,
                self.wf(),
                n == s.len(),
                n == self.data@.len(),
                i <= n,
                table_of(out@) == drop_zeroes(s.take(i as int)),
                strictly_ascending(table_of(out@)),
                forall|a: int, k: int| 0 <= a < out@.len() && i <= k < n ==> #[trigger] table_of(out@)[a].0 < #[trigger] s[k].0,
            decreases n - i,
        {
            let (k, v) = self.data[i];
            assert(s[i as int] == (k as int, v.val()));
            assert(s.take(i + 1).drop_last() =~= s.take(i as int));
            if !v.is_zero() {
                let ghost prev = out@;
                out.push((k, v));
                proof {
                    assert(table_of(out@) =~= table_of(prev).push(s[i as int]));
                    assert forall|a: int, b: int| 0 <= a < b < table_of(out@).len() implies table_of(out@)[a].0 < table_of(out@)[b].0 by {
                        if b == prev.len() {
                            assert(table_of(prev)[a].0 < s[i as int].0);
                        } else {
                            assert(table_of(prev)[a].0 < table_of(prev)[b].0);
                        }
                    }
                    assert forall|a: int, kk: int| 0 <= a < out@.len() && i + 1 <= kk < n implies #[trigger] table_of(out@)[a].0 < #[trigger] s[kk].0 by {
                        assert(s[i as int].0 < s[kk].0);
                        if a < prev.len() {
                            assert(table_of(prev)[a].0 < s[i as int].0);
                        }
                    }
                }
            }
            i = i + 1;
        }
        proof {
            assert(s.take(n as int) =~= s);
            lemma_table_in_range(out@);
            lemma_drop_zeroes_total(s);
        }
        self.data = out;
    }

    /// Replaces the distribution by that of the greatest of `n + 1`
    /// independent draws from it: `n` counts the draws beyond the first, so
    /// `with_advantage(0)` is a single draw.
    pub fn with_advantage(&mut self, n: usize)
        requires
            old(self).wf(),
        ensures
            final(self).wf(),
            final(self)@ == advantage_table(old(self)@, (n + 1) as nat, T::unit()),
    {
        let ghost s = self@;
        let ghost u = T::unit();
        let ghost e = (n + 1) as nat;
        let len = self.data.len();
        let one = T::one();
        let mut state = T::zero();
        let mut i: usize = 0;
        proof {
            state.lemma_bounds();
            assert(s.take(0) =~= Seq::<(int, int)>::empty());
        }
        while i < len
            invariant
                s == old(self)@,
                u == T::unit(),
                e == n + 1,
                len == s.len(),
                len == self.data@.len(),
                one.val() == u,
                i <= len,
                state.val() == clamp(total(s.take(i as int)), u),
                forall|a: int| 0 <= a < i ==> #[trigger] table_of(self.data@)[a] == (s[a].0, advantage_cdf(s, a, e, u)),
                forall|a: int| i <= a < len ==> #[trigger] table_of(self.data@)[a] == s[a],
            decreases len - i,
        {
            let (k, v) = self.data[i];
            assert(table_of(self.data@)[i as int] == (k as int, v.val()));
            let c = fixed_pow(state, n as u128 + 1);
            let ghost prev = self.data@;
            self.data.set(i, (k, c));
            proof {
                lemma_total_take_step(s, i as int);
                v.lemma_bounds();
                state.lemma_bounds();
                assert forall|a: int| 0 <= a < i + 1 implies #[trigger] table_of(self.data@)[a] == (s[a].0, advantage_cdf(s, a, e, u)) by {
                    if a < i {
                        assert(self.data@[a] == prev[a]);
                        assert(table_of(prev)[a] == (s[a].0, advantage_cdf(s, a, e, u)));
                    }
                }
                assert forall|a: int| i + 1 <= a < len implies #[trigger] table_of(self.data@)[a] == s[a] by {
                    assert(self.data@[a] == prev[a]);
                    assert(table_of(prev)[a] == s[a]);
                }
            }
            state = state.add(&v);
            i = i + 1;
        }
        let mut i: usize = 0;
        while i < len
            invariant
                s == old(self)@,
                u == T::unit(),
                e == n + 1,
                len == s.len(),
                len == self.data@.len(),
                one.val() == u,
                i <= len,
                forall|a: int| 0 <= a < i ==> #[trigger] table_of(self.data@)[a] == advantage_table(s, e, u)[a],
                forall|a: int| i <= a < len ==> #[trigger] table_of(self.data@)[a] == (s[a].0, advantage_cdf(s, a, e, u)),
            decreases len - i,
        {
            let (k, cur) = self.data[i];
            assert(table_of(self.data@)[i as int] == (k as int, cur.val()));
            let next = if i + 1 < len {
                let nx = self.data[i + 1].1;
                assert(table_of(self.data@)[i + 1] == (s[i + 1].0, advantage_cdf(s, i + 1, e, u)));
                nx
            } else {
                one
            };
            let ghost prev = self.data@;
            self.data.set(i, (k, next.sub(&cur)));
            proof {
                assert forall|a: int| 0 <= a < i + 1 implies #[trigger] table_of(self.data@)[a] == advantage_table(s, e, u)[a] by {
                    if a < i {
                        assert(self.data@[a] == prev[a]);
                        assert(table_of(prev)[a] == advantage_table(s, e, u)[a]);
                    }
                }
                assert forall|a: int| i + 1 <= a < len implies #[trigger] table_of(self.data@)[a] == (s[a].0, advantage_cdf(s, a, e, u)) by {
                    assert(self.data@[a] == prev[a]);
                    assert(table_of(prev)[a] == (s[a].0, advantage_cdf(s, a, e, u)));
                }
            }
            i = i + 1;
        }
        proof {
            let t = advantage_table(s, e, u);
            assert(self@ =~= t);
            lemma_table_in_range(self.data@);
            one.lemma_bounds();
            if SOUND {
                if len == 0 {
                    assert(total(s) == 0);
                } else {
                    lemma_advantage_telescopes(s, len as int, e, u);
                    assert(t.take(len as int) =~= t);
                    assert(s.take(0) =~= Seq::<(int, int)>::empty());
                    lemma_pow_bounds(0, 0, e, u);
                    assert(total(t) == u);
                }
            }
        }
    }

    /// Adds the masses of `other` into this distribution, outcome by
    /// outcome, with saturating addition where both hold an outcome.
    pub fn add_pointwise(self, other: &Self) -> (r: PDF<T, false>)
        requires
            self.wf(),
            other.wf(),
        ensures
            r.wf(),
            forall|x: int| #[trigger] has_key(r@, x) <==> (has_key(self@, x) || has_key(other@, x)),
            forall|x: int| has_key(r@, x) ==> #[trigger] mass_at(r@, x) == clamp(mass_at(self@, x) + mass_at(other@, x), T::unit()),
    {
        let ghost a = self@;
        let ghost b = other@;
        let ghost u = T::unit();
        let m = other.data.len();
        let mut data = self.data;
        let mut j: usize = 0;
        proof {
            assert(b.take(0) =~= Seq::<(int, int)>::empty());
            assert forall|x: int| has_key(table_of(data@), x) implies #[trigger] mass_at(table_of(data@), x) == clamp(mass_at(a, x) + mass_at(b.take(0), x), u) by {
                let k = choose|k: int| 0 <= k < a.len() && a[k].0 == x;
                lemma_mass_at_index(a, k);
            }
        }
        while j < m
            invariant
                a == self@,
                b == other@,
                u == T::unit(),
                m == b.len(),
                m == other.data@.len(),
                other.wf(),
                j <= m,
                strictly_ascending(table_of(data@)),
                forall|x: int| #[trigger] has_key(table_of(data@), x) <==> (has_key(a, x) || has_key(b.take(j as int), x)),
                forall|x: int| has_key(table_of(data@), x) ==> #[trigger] mass_at(table_of(data@), x) == clamp(mass_at(a, x) + mass_at(b.take(j as int), x), u),
            decreases m - j,
        {
            let (k, v) = other.data[j];
            assert(b[j as int] == (k as int, v.val()));
            let ghost prev = table_of(data@);
            proof {
                lemma_take_step_keys(b, j as int);
                v.lemma_bounds();
            }
            accumulate(&mut data, k, v);
            proof {
                let t = table_of(data@);
                assert forall|x: int| #[trigger] has_key(t, x) <==> (has_key(a, x) || has_key(b.take(j + 1), x)) by {}
                assert forall|x: int| has_key(t, x) implies #[trigger] mass_at(t, x) == clamp(mass_at(a, x) + mass_at(b.take(j + 1), x), u) by {
                    if x == k {
                        if !has_key(prev, x) {
                            assert(!has_key(a, x));
                        }
                    } else {
                        assert(has_key(prev, x));
                    }
                }
            }
            j = j + 1;
        }
        let r = PDF { data };
        proof {
            assert(b.take(m as int) =~= b);
            lemma_table_in_range(r.data@);
        }
        r
    }

    /// The distribution of the sum of `n + 1` independent draws from this
    /// one: the distribution convolved with itself `n` times.
    pub fn autoconvolute(self, n: usize) -> (r: PDF<T, false>)
        requires
            self.wf(),
            forall|i: int| 0 <= i < self@.len() ==> i64::MIN <= #[trigger] self@[i].0 * (n + 1) <= i64::MAX,
        ensures
            r.wf(),
            r@ == sum_power(self@, n as nat, T::unit()),
    {
        let ghost s = self@;
        let ghost u = T::unit();
        let mut result = PDF::<T, false> { data: Vec::new() };
        let len = self.data.len();
        let mut i: usize = 0;
        while i < len
            invariant
                len == self.data@.len(),
                i <= len,
                result.data@.len() == i,
                forall|a: int| 0 <= a < i ==> #[trigger] result.data@[a] == self.data@[a],
            decreases len - i,
        {
            result.data.push(self.data[i]);
            i = i + 1;
        }
        proof {
            assert(result.data@ =~= self.data@);
            assert forall|i: int| 0 <= i < result@.len() implies i64::MIN <= #[trigger] result@[i].0 * (n + 1) <= i64::MAX by {
                assert(i64::MIN <= s[i].0 * (n + 1) <= i64::MAX);
            }
        }
        let mut k: usize = 0;
        while k < n
            invariant
                s == self@,
                u == T::unit(),
                self.wf(),
                forall|i: int| 0 <= i < s.len() ==> i64::MIN <= #[trigger] s[i].0 * (n + 1) <= i64::MAX,
                k <= n,
                result.wf(),
                result@ == sum_power(s, k as nat, u),
                forall|i: int| 0 <= i < result@.len() ==> (k + 1) * i64::MIN <= #[trigger] result@[i].0 * (n + 1) <= (k + 1) * i64::MAX,
            decreases n - k,
        {
            proof {
                assert forall|i: int, j: int|
                    0 <= i < result@.len() && 0 <= j < s.len() && pair_defined(Combine::Sum, result@[i].0, s[j].0)
                    implies i64::MIN <= #[trigger] combine(Combine::Sum, result@[i].0, s[j].0) <= i64::MAX by {
                    let x = result@[i].0;
                    let y = s[j].0;
                    assert((k + 1) * i64::MIN <= x * (n + 1) <= (k + 1) * i64::MAX);
                    assert(i64::MIN <= y * (n + 1) <= i64::MAX);
                    assert(i64::MIN <= x + y <= i64::MAX) by (nonlinear_arith)
                        requires
                            (k + 1) * i64::MIN <= x * (n + 1) <= (k + 1) * i64::MAX,
                            i64::MIN <= y * (n + 1) <= i64::MAX,
                            k < n,
                    ;
                }
            }
            let next = result.convolve(&self, Combine::Sum);
            proof {
                let c = convolution(result@, s, Combine::Sum, u);
                assert(is_convolution(c, result@, s, Combine::Sum, u));
                lemma_convolution_unique(c, next@, result@, s, Combine::Sum, u);
                assert forall|i: int| 0 <= i < next@.len() implies (k + 2) * i64::MIN <= #[trigger] next@[i].0 * (n + 1) <= (k + 2) * i64::MAX by {
                    assert(has_key(next@, next@[i].0));
                    let (ii, jj) = choose|ii: int, jj: int|
                        0 <= ii < result@.len() && 0 <= jj < s.len() && pair_defined(Combine::Sum, result@[ii].0, s[jj].0)
                            && #[trigger] combine(Combine::Sum, result@[ii].0, s[jj].0) == next@[i].0;
                    let x = result@[ii].0;
                    let y = s[jj].0;
                    assert((k + 1) * i64::MIN <= x * (n + 1) <= (k + 1) * i64::MAX);
                    assert(i64::MIN <= y * (n + 1) <= i64::MAX);
                    assert(next@[i].0 == x + y);
                    assert((k + 2) * i64::MIN <= (x + y) * (n + 1) <= (k + 2) * i64::MAX) by (nonlinear_arith)
                        requires
                            (k + 1) * i64::MIN <= x * (n + 1) <= (k + 1) * i64::MAX,
                            i64::MIN <= y * (n + 1) <= i64::MAX,
                    ;
                }
            }
            result = next;
            k = k + 1;
        }
        result
    }

    /// `P(X <= x)` at each outcome `x`.
    pub fn cumulative(&self) -> (r: PDF<T, false>)
        requires
            self.wf(),
        ensures
            r.wf(),
            r@ == cumulative_table(self@, T::unit()),
    {
        self.sweep_forward(true)
    }

    /// `P(X < x)` at each outcome `x`.
    pub fn cumulative_exclusive(&self) -> (r: PDF<T, false>)
        requires
            self.wf(),
        ensures
            r.wf(),
            r@ == cumulative_exclusive_table(self@, T::unit()),
    {
        self.sweep_forward(false)
    }

    /// `P(X >= x)` at each outcome `x`.
    pub fn rev_cumulative(&self) -> (r: PDF<T, false>)
        requires
            self.wf(),
        ensures
            r.wf(),
            r@ == rev_cumulative_table(self@, T::unit()),
    {
        self.sweep_backward(true)
    }

    /// `P(X > x)` at each outcome `x`.
    pub fn rev_cumulative_exclusive(&self) -> (r: PDF<T, false>)
        requires
            self.wf(),
        ensures
            r.wf(),
            r@ == rev_cumulative_exclusive_table(self@, T::unit()),
    {
        self.sweep_backward(false)
    }

    /// An ascending sweep with a running sum; with `inclusive` each entry's
    /// own mass is added before it is emitted, otherwise after.
    fn sweep_forward(&self, inclusive: bool) -> (r: PDF<T, false>)
        requires
            self.wf(),
        ensures
            r.wf(),
            inclusive ==> r@ == cumulative_table(self@, T::unit()),
            !inclusive ==> r@ == cumulative_exclusive_table(self@, T::unit()),
    {
        let ghost s = self@;
        let ghost u = T::unit();
        let ghost want = if inclusive {
            cumulative_table(s, u)
        } else {
            cumulative_exclusive_table(s, u)
        };
        let n = self.data.len();
        let mut out: Vec<(Sample, T)> = Vec::new();
        let mut state = T::zero();
        let mut i: usize = 0;
        proof {
            state.lemma_bounds();
            assert(s.take(0) =~= Seq::<(int, int)>::empty());
        }
        while i < n
            invariant
                s == self@,
                n == s.len(),
                n == self.data@.len(),
                u == T::unit(),
                want == (if inclusive {
                    cumulative_table(s, u)
                } else {
                    cumulative_exclusive_table(s, u)
                }),
                i <= n,
                out@.len() == i,
                forall|a: int| 0 <= a < i ==> #[trigger] table_of(out@)[a] == want[a],
                state.val() == clamp(total(s.take(i as int)), u),
            decreases n - i,
        {
            let (k, v) = self.data[i];
            assert(s[i as int] == (k as int, v.val()));
            proof {
                lemma_total_take_step(s, i as int);
                v.lemma_bounds();
                state.lemma_bounds();
            }
            let ghost prev = out@;
            if inclusive {
                state = state.add(&v);
                out.push((k, state));
            } else {
                out.push((k, state));
                state = state.add(&v);
            }
            proof {
                assert(table_of(out@)[i as int] == want[i as int]);
                assert forall|a: int| 0 <= a < i + 1 implies #[trigger] table_of(out@)[a]
                    == want[a] by {
                    if a < i {
                        assert(out@[a] == prev[a]);
                        assert(table_of(prev)[a] == want[a]);
                    }
                }
            }
            i = i + 1;
        }
        let r = PDF { data: out };
        proof {
            lemma_table_in_range(out@);
            assert(r@ =~= want);
        }
        r
    }

    /// A descending sweep with a running sum; with `inclusive` each entry's
    /// own mass is added before it is emitted, otherwise after.
    fn sweep_backward(&self, inclusive: bool) -> (r: PDF<T, false>)
        requires
            self.wf(),
        ensures
            r.wf(),
            inclusive ==> r@ == rev_cumulative_table(self@, T::unit()),
            !inclusive ==> r@ == rev_cumulative_exclusive_table(self@, T::unit()),
    {
        let ghost s = self@;
        let ghost u = T::unit();
        let ghost want = if inclusive {
            rev_cumulative_table(s, u)
        } else {
            rev_cumulative_exclusive_table(s, u)
        };
        let n = self.data.len();
        let mut out: Vec<(Sample, T)> = Vec::new();
        let mut j: usize = 0;
        while j < n
            invariant
                n == self.data@.len(),
                j <= n,
                out@.len() == j,
                forall|a: int| 0 <= a < j ==> #[trigger] out@[a] == self.data@[a],
            decreases n - j,
        {
            out.push(self.data[j]);
            j = j + 1;
        }
        let mut state = T::zero();
        let mut i: usize = n;
        proof {
            state.lemma_bounds();
            assert(s.skip(n as int) =~= Seq::<(int, int)>::empty());
        }
        while i > 0
            invariant
                s == self@,
                n == s.len(),
                n == self.data@.len(),
                u == T::unit(),
                want == (if inclusive {
                    rev_cumulative_table(s, u)
                } else {
                    rev_cumulative_exclusive_table(s, u)
                }),
                i <= n,
                out@.len() == n,
                forall|a: int| 0 <= a < i ==> #[trigger] out@[a] == self.data@[a],
                forall|a: int| i <= a < n ==> #[trigger] table_of(out@)[a] == want[a],
                state.val() == clamp(total(s.skip(i as int)), u),
            decreases i,
        {
            let (k, v) = self.data[i - 1];
            assert(s[i - 1] == (k as int, v.val()));
            proof {
                lemma_total_skip_step(s, i - 1);
                v.lemma_bounds();
                state.lemma_bounds();
            }
            let ghost prev = out@;
            if inclusive {
                state = state.add(&v);
                out.set(i - 1, (k, state));
            } else {
                out.set(i - 1, (k, state));
                state = state.add(&v);
            }
            proof {
                assert(table_of(out@)[i - 1] == want[i - 1]);
                assert forall|a: int| i - 1 <= a < n implies #[trigger] table_of(out@)[a]
                    == want[a] by {
                    if a >= i {
                        assert(out@[a] == prev[a]);
                        assert(table_of(prev)[a] == want[a]);
                    }
                }
            }
            i = i - 1;
        }
        let r = PDF { data: out };
        proof {
            lemma_table_in_range(out@);
            assert(r@ =~= want);
        }
        r
    }
}

impl<T: Number> PDF<T, false> {
    /// Replaces every mass `p` by `1 - p`.
    pub fn invert_probabilities(&mut self)
        requires
            old(self).wf(),
        ensures
            final(self).wf(),
            final(self)@ == map_masses(old(self)@, |p: int| sat_sub(T::unit(), p)),
    {
        let ghost s = self@;
        let ghost g = |p: int| sat_sub(T::unit(), p);
        let one = T::one();
        let n = self.data.len();
        let mut out: Vec<(Sample, T)> = Vec::new();
        let mut i: usize = 0;
        while i < n
            invariant
                s == self@,
                g == (|p: int| sat_sub(T::unit(), p)),
                one.val() == T::unit(),
                n == s.len(),
                n == self.data@.len(),
                i <= n,
                out@.len() == i,
                forall|a: int| 0 <= a < i ==> #[trigger] table_of(out@)[a] == map_masses(s, g)[a],
            decreases n - i,
        {
            let (k, v) = self.data[i];
            assert(s[i as int] == (k as int, v.val()));
            let ghost prev = out@;
            out.push((k, one.sub(&v)));
            proof {
                assert forall|a: int| 0 <= a < i + 1 implies #[trigger] table_of(out@)[a]
                    == map_masses(s, g)[a] by {
                    if a < i {
                        assert(out@[a] == prev[a]);
                        assert(table_of(prev)[a] == map_masses(s, g)[a]);
                    }
                }
            }
            i = i + 1;
        }
        proof {
            lemma_table_in_range(out@);
            assert(table_of(out@) =~= map_masses(s, g));
        }
        self.data = out;
    }

    /// The empty, unchecked distribution.
    pub fn new() -> (r: PDF<T, false>)
        ensures
            r@ == Seq::<(int, int)>::empty(),
            r.wf(),
    {
        let r = PDF { data: Vec::new() };
        proof {
            assert(r@ =~= Seq::<(int, int)>::empty());
        }
        r
    }

    /// Builds an unchecked distribution from its outcomes and their masses.
    ///
    /// Fails with `InvalidLength` when the two counts differ, and otherwise
    /// with `UnorderedOutcomes` when the outcomes are not strictly ascending.
    pub fn from_parts(outcomes: Vec<Sample>, masses: Vec<T>) -> (r: Result<
        PDF<T, false>,
        LlDoiceError,
    >)
        ensures
            outcomes@.len() != masses@.len() ==> r == Err::<PDF<T, false>, LlDoiceError>(
                LlDoiceError::InvalidLength,
            ),
            outcomes@.len() == masses@.len() && !(forall|i: int, j: int|
                0 <= i < j < outcomes@.len() ==> outcomes@[i] < outcomes@[j]) ==> r == Err::<
                PDF<T, false>,
                LlDoiceError,
            >(LlDoiceError::UnorderedOutcomes),
            outcomes@.len() == masses@.len() && (forall|i: int, j: int|
                0 <= i < j < outcomes@.len() ==> outcomes@[i] < outcomes@[j]) ==> r is Ok,
            r matches Ok(d) ==> d.wf() && d@.len() == outcomes@.len() && forall|i: int|
                0 <= i < outcomes@.len() ==> #[trigger] d@[i] == (
                    outcomes@[i] as int,
                    masses@[i].val(),
                ),
    {
        let n = outcomes.len();
        if n != masses.len() {
            return Err(LlDoiceError::InvalidLength);
        }
        let mut data: Vec<(Sample, T)> = Vec::new();
        let mut i: usize = 0;
        while i < n
            invariant
                n == outcomes@.len(),
                n == masses@.len(),
                i <= n,
                data@.len() == i,
                forall|a: int, b: int| 0 <= a < b < i ==> outcomes@[a] < outcomes@[b],
                forall|a: int| #![trigger data@[a]]
                    0 <= a < i ==> data@[a].0 == outcomes@[a] && data@[a].1 == masses@[a],
            decreases n - i,
        {
            if i > 0 && outcomes[i - 1] >= outcomes[i] {
                return Err(LlDoiceError::UnorderedOutcomes);
            }
            proof {
                assert forall|a: int, b: int| 0 <= a < b < i + 1 implies outcomes@[a]
                    < outcomes@[b] by {
                    if b == i && a < i - 1 {
                        assert(outcomes@[a] < outcomes@[i - 1]);
                    }
                }
            }
            data.push((outcomes[i], masses[i]));
            i = i + 1;
        }
        let d = PDF { data };
        proof {
            lemma_table_in_range(d.data@);
            assert forall|a: int, b: int| 0 <= a < b < d@.len() implies d@[a].0 < d@[b].0 by {
                assert(d.data@[a].0 == outcomes@[a]);
                assert(d.data@[b].0 == outcomes@[b]);
            }
        }
        Ok(d)
    }
}

impl<T: Number> Default for PDF<T, true> {
    /// The sound distribution certain to be zero.
    fn default() -> (r: PDF<T, true>)
        ensures
            r@ == seq![(0int, T::unit())],
            r.wf(),
    {
        let mut data: Vec<(Sample, T)> = Vec::new();
        data.push((0, T::one()));
        let r = PDF { data };
        proof {
            assert(r@ =~= seq![(0int, T::unit())]);
            assert(r@.drop_last() =~= Seq::<(int, int)>::empty());
            lemma_total_push(Seq::<(int, int)>::empty(), (0int, T::unit()));
            assert(Seq::<(int, int)>::empty().push((0int, T::unit())) =~= r@);
            assert(total(Seq::<(int, int)>::empty()) == 0);
            assert(total(r@) == T::unit());
            lemma_table_in_range(r.data@);
            r.data@[0].1.lemma_bounds();
        }
        r
    }
}

} // verus!
