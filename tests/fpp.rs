use lldoice::{Fpp, LlDoiceError, Number};

const MAX: u64 = u64::MAX;

#[test]
fn generic_init() {
    let fpp = Fpp::from_ratio(1, 2).unwrap();
    assert_eq!(fpp.inner(), 0x8000_0000_0000_0000);

    let failed_fpp = Fpp::from_ratio(-1, 1);
    assert_eq!(failed_fpp, Err(LlDoiceError::InvalidProbability));
}

#[test]
fn from_ratio_outside_unit_interval_fails() {
    assert_eq!(Fpp::from_ratio(-1, 1), Err(LlDoiceError::InvalidProbability));
    assert_eq!(Fpp::from_ratio(3, 2), Err(LlDoiceError::InvalidProbability));
    assert_eq!(Fpp::from_ratio(1, 0), Err(LlDoiceError::InvalidProbability));
    assert_eq!(Fpp::from_ratio(1, -2), Err(LlDoiceError::InvalidProbability));
}

#[test]
fn from_ratio_ends_and_rounding() {
    assert_eq!(Fpp::from_ratio(0, 5).unwrap().inner(), 0);
    assert_eq!(Fpp::from_ratio(7, 7).unwrap().inner(), MAX);
    // MAX / 3 is exact, 2 * MAX / 3 is exact as well.
    assert_eq!(Fpp::from_ratio(1, 3).unwrap().inner(), MAX / 3);
    assert_eq!(Fpp::from_ratio(2, 3).unwrap().inner(), MAX / 3 * 2);
    // MAX / 6 = 3074457345618258602.5, rounded up.
    assert_eq!(Fpp::from_ratio(1, 6).unwrap().inner(), 3074457345618258603);
}

#[test]
fn identities() {
    assert_eq!(Fpp::zero().inner(), 0);
    assert_eq!(Fpp::one().inner(), MAX);
    assert!(Fpp::zero().is_zero());
    assert!(!Fpp::one().is_zero());
    assert_eq!(Fpp(12).magnitude(), 12);
    assert_eq!(Fpp::unit_magnitude(), MAX);
}

#[test]
fn add_and_sub_saturate() {
    assert_eq!(Fpp(3).add(&Fpp(4)), Fpp(7));
    assert_eq!(Fpp(MAX - 1).add(&Fpp(5)), Fpp(MAX));
    assert_eq!(Fpp(10).sub(&Fpp(4)), Fpp(6));
    assert_eq!(Fpp(4).sub(&Fpp(10)), Fpp(0));
}

#[test]
fn mul_rescales_product() {
    let half = Fpp(1 << 63);
    let expected = ((1u128 << 63) * (1u128 << 63) / MAX as u128) as u64;
    assert_eq!(half.mul(&half).inner(), expected);
    assert_eq!(Fpp::one().mul(&Fpp(12345)), Fpp(12345));
    assert_eq!(Fpp(12345).mul(&Fpp::zero()), Fpp(0));
}

#[test]
fn div_and_rem() {
    let quarter = Fpp(MAX / 4);
    let half = Fpp(MAX / 2);
    let q = quarter.div(&half).inner();
    let expected = ((MAX / 4) as u128 * MAX as u128 / (MAX / 2) as u128) as u64;
    assert_eq!(q, expected);
    assert_eq!(half.div(&quarter), Fpp(MAX));
    assert_eq!(Fpp(17).rem(&Fpp(5)), Fpp(2));
}

#[test]
fn error_messages() {
    assert_eq!(
        LlDoiceError::InvalidProbability.message(),
        "Probability must be between 0 and 1.0."
    );
    assert_eq!(
        LlDoiceError::InvalidLength.message(),
        "Number of outcomes and probabilities must be equal."
    );
    assert_eq!(
        LlDoiceError::UnorderedOutcomes.message(),
        "Outcomes must always be in ascending order."
    );
}

#[test]
fn integer_conversions() {
    assert_eq!(Fpp::one().to_u64(), 1);
    assert_eq!(Fpp(MAX - 1).to_u64(), 0);
    assert_eq!(Fpp::one().to_i64(), 1);
    assert_eq!(Fpp::zero().to_i64(), 0);
}
