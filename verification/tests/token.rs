use fvm_machine::token::TokenAmount;

fn atto(n: i128) -> TokenAmount {
    TokenAmount::from_atto(n)
}

#[test]
fn amounts_are_held_as_sign_and_magnitude() {
    let a = atto(0x0102_03);
    assert!(!a.sign_is_minus());
    assert_eq!(a.magnitude(), &vec![0x01, 0x02, 0x03]);
    let b = atto(-256);
    assert!(b.sign_is_minus());
    assert_eq!(b.magnitude(), &vec![0x01, 0x00]);
    assert!(TokenAmount::from_parts(false, vec![0, 0, 7]).same_amount(&atto(7)));
    assert!(TokenAmount::from_parts(true, vec![]).same_amount(&TokenAmount::zero()));
    assert!(TokenAmount::from_parts(true, vec![0]).same_amount(&atto(0)));
}

#[test]
fn amounts_add_and_subtract_exactly() {
    assert!(atto(2).plus(&atto(3)).same_amount(&atto(5)));
    assert!(atto(2).minus(&atto(3)).same_amount(&atto(-1)));
    assert!(atto(-2).plus(&atto(2)).same_amount(&TokenAmount::zero()));
    assert!(atto(255).plus(&atto(1)).same_amount(&atto(256)));
    assert!(!atto(2).plus(&atto(3)).same_amount(&atto(2)));
    let big = atto(i128::MAX);
    let sum = big.plus(&big).plus(&atto(2));
    // 2^128, which no 128-bit integer holds.
    let mut digits = vec![0u8; 17];
    digits[0] = 1;
    assert!(sum.same_amount(&TokenAmount::from_parts(false, digits)));
    assert!(sum.minus(&big).minus(&big).same_amount(&atto(2)));
    assert!(atto(i128::MIN).minus(&atto(1)).less_than(&atto(i128::MIN)));
}

#[test]
fn amounts_are_ordered_by_quantity() {
    assert!(atto(1).less_than(&atto(2)));
    assert!(!atto(2).less_than(&atto(2)));
    assert!(!atto(3).less_than(&atto(2)));
    assert!(atto(-3).less_than(&atto(-2)));
    assert!(atto(-1).less_than(&TokenAmount::zero()));
    assert!(atto(255).less_than(&atto(256)));
    assert!(atto(-1).is_negative());
    assert!(!atto(0).is_negative());
    assert!(!atto(1).is_negative());
    assert!(!TokenAmount::from_parts(true, vec![0]).is_negative());
}
