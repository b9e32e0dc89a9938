use icfp_lang::error::Error;
use icfp_lang::integer::Integer;

#[test]
fn integers_from_machine_words() {
    assert_eq!(Integer::from_i64(5), Integer::from_u64(5));
    assert_ne!(Integer::from_i64(-5), Integer::from_u64(5));
    assert_eq!(Integer::from_i64(0).to_decimal(), "0");
    assert_eq!(Integer::from_i64(-42).to_decimal(), "-42");
    assert_eq!(
        Integer::from_u64(u64::MAX).to_decimal(),
        "18446744073709551615"
    );
    assert_eq!(
        Integer::from_i64(i64::MIN).to_decimal(),
        "-9223372036854775808"
    );
}

#[test]
fn integer_arithmetic() {
    let a = Integer::from_i64(-7);
    let b = Integer::from_i64(2);
    assert_eq!(a.plus(&b), Integer::from_i64(-5));
    assert_eq!(a.minus(&b), Integer::from_i64(-9));
    assert_eq!(a.times(&b), Integer::from_i64(-14));
    assert_eq!(a.negated(), Integer::from_i64(7));
    assert_eq!(a.quotient(&b), Ok(Integer::from_i64(-3)));
    assert_eq!(a.remainder(&b), Ok(Integer::from_i64(-1)));
    assert_eq!(b.quotient(&a), Ok(Integer::from_i64(0)));
    assert_eq!(b.remainder(&a), Ok(Integer::from_i64(2)));
    assert_eq!(a.quotient(&Integer::from_i64(0)), Err(Error::Division));
    assert_eq!(a.remainder(&Integer::from_i64(0)), Err(Error::Division));
}

#[test]
fn integer_arithmetic_beyond_machine_words() {
    let big = Integer::from_u64(u64::MAX);
    let square = big.times(&big);
    assert_eq!(
        square.to_decimal(),
        "340282366920938463426481119284349108225"
    );
    assert_eq!(square.quotient(&big), Ok(big.clone()));
    assert_eq!(square.remainder(&big), Ok(Integer::from_u64(0)));
    assert_eq!(square.minus(&square), Integer::from_u64(0));
    assert_eq!(
        square.negated().to_decimal(),
        "-340282366920938463426481119284349108225"
    );
    assert_eq!(square.to_usize(), None);
}

#[test]
fn integer_comparisons() {
    let a = Integer::from_i64(-7);
    let b = Integer::from_i64(2);
    assert!(a.less_than(&b));
    assert!(!b.less_than(&a));
    assert!(!a.less_than(&a));
    assert!(a.equals(&a.clone()));
    assert!(!a.equals(&b));
    assert!(a.is_negative());
    assert!(!b.is_negative());
    assert!(!Integer::from_i64(0).is_negative());
    assert!(Integer::from_i64(0).is_zero());
    assert!(!a.is_zero());
}

#[test]
fn integer_to_word() {
    assert_eq!(Integer::from_i64(0).to_usize(), Some(0));
    assert_eq!(Integer::from_i64(93).to_usize(), Some(93));
    assert_eq!(Integer::from_i64(-1).to_usize(), None);
    assert_eq!(
        Integer::from_u64(usize::MAX as u64).to_usize(),
        Some(usize::MAX)
    );
    assert_eq!(
        Integer::from_u64(usize::MAX as u64)
            .plus(&Integer::from_u64(1))
            .to_usize(),
        None
    );
}
