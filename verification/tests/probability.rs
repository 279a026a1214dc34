use forest_fire::probability::{Probability, SCALE};

#[test]
fn scale_is_one_billion() {
    assert_eq!(SCALE, 1_000_000_000);
}

#[test]
fn zero_and_one_are_the_ends() {
    assert_eq!(Probability::zero().parts(), 0);
    assert_eq!(Probability::one().parts(), SCALE);
}

#[test]
fn new_accepts_up_to_one() {
    assert_eq!(Probability::new(0), Some(Probability::zero()));
    assert_eq!(Probability::new(SCALE), Some(Probability::one()));
    assert_eq!(Probability::new(123).map(|p| p.parts()), Some(123));
    assert_eq!(Probability::new(SCALE + 1), None);
    assert_eq!(Probability::new(u32::MAX), None);
}

#[test]
fn ratio_of_percent_is_exact() {
    assert_eq!(Probability::from_ratio(35, 100).unwrap().parts(), 350_000_000);
    assert_eq!(Probability::from_ratio(45, 100).unwrap().parts(), 450_000_000);
    assert_eq!(Probability::from_ratio(0, 100), Some(Probability::zero()));
    assert_eq!(Probability::from_ratio(100, 100), Some(Probability::one()));
}

#[test]
fn ratio_is_rounded_down() {
    assert_eq!(Probability::from_ratio(1, 3).unwrap().parts(), 333_333_333);
    assert_eq!(Probability::from_ratio(2, 3).unwrap().parts(), 666_666_666);
    assert_eq!(
        Probability::from_ratio(u32::MAX - 1, u32::MAX).unwrap().parts(),
        999_999_999
    );
    assert_eq!(Probability::from_ratio(u32::MAX, u32::MAX), Some(Probability::one()));
}

#[test]
fn ratio_outside_the_unit_interval_is_refused() {
    assert_eq!(Probability::from_ratio(0, 0), None);
    assert_eq!(Probability::from_ratio(1, 0), None);
    assert_eq!(Probability::from_ratio(2, 1), None);
    assert_eq!(Probability::from_ratio(101, 100), None);
}

#[test]
fn complement_adds_up_to_one() {
    let p = Probability::from_ratio(35, 100).unwrap();
    assert_eq!(p.complement().parts(), 650_000_000);
    assert_eq!(p.complement().complement(), p);
    assert_eq!(Probability::zero().complement(), Probability::one());
    assert_eq!(Probability::one().complement(), Probability::zero());
}

#[test]
fn product_is_rounded_down() {
    let q = Probability::new(650_000_000).unwrap();
    assert_eq!(q.times(q).parts(), 422_500_000);
    assert_eq!(q.times(q).times(q).parts(), 274_625_000);
    let third = Probability::from_ratio(1, 3).unwrap();
    let two_thirds = Probability::from_ratio(2, 3).unwrap();
    assert_eq!(third.times(two_thirds).parts(), 222_222_221);
    assert_eq!(two_thirds.times(third).parts(), 222_222_221);
    assert_eq!(Probability::new(1).unwrap().times(Probability::new(1).unwrap()).parts(), 0);
}

#[test]
fn one_is_neutral_and_zero_absorbs() {
    let p = Probability::new(123_456_789).unwrap();
    assert_eq!(p.times(Probability::one()), p);
    assert_eq!(Probability::one().times(p), p);
    assert_eq!(p.times(Probability::zero()), Probability::zero());
    assert_eq!(Probability::zero().times(p), Probability::zero());
    assert_eq!(Probability::one().times(Probability::one()), Probability::one());
}
