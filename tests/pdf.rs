use lldoice::{Fpp, LlDoiceError, Number, PDF};

const MAX: u64 = u64::MAX;

fn table(pdf_data: &Vec<(i64, Fpp)>) -> Vec<(i64, u64)> {
    pdf_data.iter().map(|(k, v)| (*k, v.inner())).collect()
}

fn unchecked(pairs: &[(i64, u64)]) -> PDF<Fpp, false> {
    let outcomes = pairs.iter().map(|p| p.0).collect();
    let masses = pairs.iter().map(|p| Fpp(p.1)).collect();
    PDF::from_parts(outcomes, masses).unwrap()
}

fn die(sides: i64) -> PDF<Fpp, true> {
    let p = Fpp::from_ratio(1, sides).unwrap();
    let outcomes = (1..=sides).collect();
    let masses = (1..=sides).map(|_| p).collect();
    PDF::from_parts(outcomes, masses).unwrap().validate().unwrap()
}

/// Two masses that add up to exactly one.
const LOW_HALF: u64 = (1 << 63) - 1;
const HIGH_HALF: u64 = 1 << 63;

#[test]
fn new_is_empty() {
    let d: PDF<Fpp, false> = PDF::new();
    assert_eq!(d.len(), 0);
    assert!(d.data().is_empty());
}

#[test]
fn from_parts_errors() {
    let r = PDF::from_parts(vec![1, 2], vec![Fpp(1)]);
    assert!(matches!(r, Err(LlDoiceError::InvalidLength)));
    let r = PDF::from_parts(vec![2, 1], vec![Fpp(1), Fpp(2)]);
    assert!(matches!(r, Err(LlDoiceError::UnorderedOutcomes)));
    let r = PDF::from_parts(vec![1, 1], vec![Fpp(1), Fpp(2)]);
    assert!(matches!(r, Err(LlDoiceError::UnorderedOutcomes)));
    let d = PDF::from_parts(vec![-3, 0, 8], vec![Fpp(1), Fpp(2), Fpp(3)]).unwrap();
    assert_eq!(table(d.data()), vec![(-3, 1), (0, 2), (8, 3)]);
}

#[test]
fn validate_accepts_within_tolerance() {
    let d = unchecked(&[(1, LOW_HALF), (2, HIGH_HALF)]);
    let s = d.validate().unwrap();
    assert_eq!(table(s.data()), vec![(1, LOW_HALF), (2, HIGH_HALF)]);
    // 0.995 is within a hundredth of one.
    let d = unchecked(&[(0, MAX / 1000 * 995)]);
    assert!(d.validate().is_ok());
}

#[test]
fn validate_rejects_outside_tolerance() {
    let d = unchecked(&[(0, MAX / 2)]);
    assert!(matches!(d.validate(), Err(LlDoiceError::InvalidProbability)));
    let d = unchecked(&[(0, MAX), (1, MAX)]);
    assert!(matches!(d.validate(), Err(LlDoiceError::InvalidProbability)));
    let d: PDF<Fpp, false> = PDF::new();
    assert!(matches!(d.validate(), Err(LlDoiceError::InvalidProbability)));
}

#[test]
fn validate_is_idempotent() {
    let s = die(6);
    let before = table(s.data());
    let again = s.validate().unwrap();
    assert_eq!(table(again.data()), before);
    let twice = again.assert_unsoundness().validate().unwrap();
    assert_eq!(table(twice.data()), before);
}

#[test]
fn assert_soundness_keeps_table() {
    let d = unchecked(&[(1, LOW_HALF), (2, HIGH_HALF)]);
    let s = d.assert_soundness();
    assert_eq!(table(s.data()), vec![(1, LOW_HALF), (2, HIGH_HALF)]);
}

#[test]
fn sound_distribution_total_within_tolerance() {
    let s = die(6);
    let total: u128 = s.data().iter().map(|(_, v)| v.inner() as u128).sum();
    let max = MAX as u128;
    assert!(100 * total >= 99 * max && 100 * total <= 101 * max);
}

#[test]
fn offset_round_trip() {
    let d = die(6);
    let before = table(d.data());
    let moved = d.offset(10);
    assert_eq!(table(moved.data())[0], (11, before[0].1));
    let back = moved.offset(-10);
    assert_eq!(table(back.data()), before);
}

#[test]
fn scale_by_one_is_identity() {
    let d = die(4);
    let before = table(d.data());
    assert_eq!(table(d.scale(1).data()), before);
}

#[test]
fn scale_negative_and_zero() {
    let d = unchecked(&[(1, 5), (2, 6), (3, 7)]);
    assert_eq!(table(d.scale(-2).data()), vec![(-6, 7), (-4, 6), (-2, 5)]);
    let d = unchecked(&[(1, 5), (2, 6), (3, 7)]);
    assert_eq!(table(d.scale(3).data()), vec![(3, 5), (6, 6), (9, 7)]);
    let d = unchecked(&[(1, 5), (2, 6), (3, 7)]);
    assert_eq!(table(d.scale(0).data()), vec![(0, 18)]);
}

#[test]
fn two_dice_sum() {
    let d6 = die(6);
    let p = Fpp::from_ratio(1, 6).unwrap();
    let pair = p.mul(&p).inner();
    let sum = d6.add(&d6);
    let got = table(sum.data());
    let counts = [1u64, 2, 3, 4, 5, 6, 5, 4, 3, 2, 1];
    assert_eq!(got.len(), 11);
    for (i, (k, v)) in got.iter().enumerate() {
        assert_eq!(*k, i as i64 + 2);
        assert_eq!(*v, counts[i] * pair);
        let exact = Fpp::from_ratio(counts[i] as i64, 36).unwrap().inner();
        assert!(exact.abs_diff(*v) <= 16);
    }
}

#[test]
fn sum_convolution_commutes() {
    let a = unchecked(&[(-1, MAX / 3), (2, MAX / 3 * 2)]);
    let b = unchecked(&[(0, MAX / 5), (3, MAX / 5 * 2), (4, MAX / 5 * 2)]);
    assert_eq!(table(a.add(&b).data()), table(b.add(&a).data()));
    assert_eq!(table(a.mul(&b).data()), table(b.mul(&a).data()));
}

#[test]
fn point_mass_is_sum_identity() {
    let d = die(6);
    let zero: PDF<Fpp, true> = PDF::default();
    assert_eq!(table(zero.data()), vec![(0, MAX)]);
    assert_eq!(table(d.add(&zero).data()), table(d.data()));
}

#[test]
fn product_and_quotient() {
    let a = unchecked(&[(-3, 100), (4, 200)]);
    let b = unchecked(&[(0, MAX), (2, MAX)]);
    assert_eq!(
        table(a.mul(&b).data()),
        vec![(-6, 100), (0, 300), (8, 200)]
    );
    // Pairs with a zero divisor are skipped; -3 / 2 truncates to -1.
    assert_eq!(table(a.div(&b).data()), vec![(-1, 100), (2, 200)]);
}

#[test]
fn autoconvolute_counts_draws() {
    let coin = unchecked(&[(0, LOW_HALF), (1, HIGH_HALF)])
        .validate()
        .unwrap();
    let once = coin.autoconvolute(0);
    assert_eq!(table(once.data()), vec![(0, LOW_HALF), (1, HIGH_HALF)]);
    let coin = unchecked(&[(0, LOW_HALF), (1, HIGH_HALF)])
        .validate()
        .unwrap();
    let three = coin.autoconvolute(2);
    let keys: Vec<i64> = three.data().iter().map(|p| p.0).collect();
    assert_eq!(keys, vec![0, 1, 2, 3]);
    let eighth = MAX / 8;
    for (_, v) in table(three.data()) {
        assert!(v > eighth / 2);
    }
}

#[test]
fn cumulative_variants() {
    let d = unchecked(&[(1, 10), (2, 20), (5, 30)]);
    assert_eq!(table(d.cumulative().data()), vec![(1, 10), (2, 30), (5, 60)]);
    assert_eq!(
        table(d.cumulative_exclusive().data()),
        vec![(1, 0), (2, 10), (5, 30)]
    );
    assert_eq!(table(d.rev_cumulative().data()), vec![(1, 60), (2, 50), (5, 30)]);
    assert_eq!(
        table(d.rev_cumulative_exclusive().data()),
        vec![(1, 50), (2, 30), (5, 0)]
    );
}

#[test]
fn cumulative_at_max_is_total() {
    let d = unchecked(&[(1, LOW_HALF), (2, HIGH_HALF)]);
    let c = d.cumulative();
    assert_eq!(c.data().last().unwrap().1.inner(), MAX);
    let d = unchecked(&[(1, MAX), (2, MAX)]);
    assert_eq!(d.cumulative().data().last().unwrap().1.inner(), MAX);
}

#[test]
fn value_queries() {
    let d = unchecked(&[(1, 10), (2, 20), (5, 30)]);
    let c = d.cumulative();
    assert_eq!(c.get_value_below(0), Fpp(0));
    assert_eq!(c.get_value_below(2), Fpp(30));
    assert_eq!(c.get_value_below(4), Fpp(30));
    assert_eq!(c.get_value_below(100), Fpp(60));
    assert_eq!(c.get_value_above(3), Fpp(60));
    assert_eq!(c.get_value_above(1), Fpp(10));
    assert_eq!(c.get_value_above(6), Fpp(0));
    assert_eq!(c.get_nearest_below(4), Some((2, Fpp(30))));
    assert_eq!(c.get_nearest_below(0), None);
    assert_eq!(c.get_nearest_above(3), Some((5, Fpp(60))));
    assert_eq!(c.get_nearest_above(6), None);
}

#[test]
fn advantage_single_draw_is_identity() {
    let mut d = unchecked(&[(1, LOW_HALF), (2, HIGH_HALF)]).validate().unwrap();
    d.with_advantage(0);
    assert_eq!(table(d.data()), vec![(1, LOW_HALF), (2, HIGH_HALF)]);
}

#[test]
fn advantage_two_draws() {
    let mut d = unchecked(&[(1, LOW_HALF), (2, HIGH_HALF)]).validate().unwrap();
    d.with_advantage(1);
    let low = LOW_HALF as u128;
    let quarter = (low * low / MAX as u128) as u64;
    assert_eq!(table(d.data()), vec![(1, quarter), (2, MAX - quarter)]);
}

#[test]
fn pointwise_combinators() {
    let d = unchecked(&[(1, MAX / 2), (3, MAX)]);
    let scaled = d.scale_probabilities(Fpp(MAX / 2));
    let expect = ((MAX / 2) as u128 * (MAX / 2) as u128 / MAX as u128) as u64;
    assert_eq!(table(scaled.data()), vec![(1, expect), (3, MAX / 2)]);

    let d = unchecked(&[(1, MAX / 2), (3, MAX)]);
    let sq = d.square_probabilities();
    assert_eq!(table(sq.data()), vec![(1, expect), (3, MAX)]);

    let a = unchecked(&[(1, 5), (3, MAX - 1)]);
    let b = unchecked(&[(0, 7), (3, 9)]);
    let merged = a.add_pointwise(&b);
    assert_eq!(table(merged.data()), vec![(0, 7), (1, 5), (3, MAX)]);

    let mut inv = unchecked(&[(1, 5), (2, MAX)]);
    inv.invert_probabilities();
    assert_eq!(table(inv.data()), vec![(1, MAX - 5), (2, 0)]);
}

#[test]
fn trim_zeroes_drops_exact_zeroes() {
    let mut d = unchecked(&[(1, 0), (2, 4), (3, 0), (4, 1)]);
    d.trim_zeroes();
    assert_eq!(table(d.data()), vec![(2, 4), (4, 1)]);
}

fn fixed_mul(a: u64, b: u64) -> u64 {
    (a as u128 * b as u128 / MAX as u128) as u64
}

#[test]
fn advantage_four_draws_squares_repeatedly() {
    let mut d = unchecked(&[(1, LOW_HALF), (2, HIGH_HALF)]).validate().unwrap();
    d.with_advantage(3);
    let sq = fixed_mul(LOW_HALF, LOW_HALF);
    let fourth = fixed_mul(sq, sq);
    assert_eq!(table(d.data()), vec![(1, fourth), (2, MAX - fourth)]);
}

#[test]
fn autoconvolute_single_draw_at_extreme_outcomes() {
    let d = unchecked(&[(i64::MIN, LOW_HALF), (i64::MAX, HIGH_HALF)]);
    let same = d.autoconvolute(0);
    assert_eq!(
        table(same.data()),
        vec![(i64::MIN, LOW_HALF), (i64::MAX, HIGH_HALF)]
    );
}
