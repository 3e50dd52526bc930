use miniactor::big_uint::{BigUInt, ParseBigUIntError};

#[test]
fn string_test() {
    assert_eq!(BigUInt::zero().to_string(), "0");
    assert_eq!(BigUInt::one().to_string(), "1");

    let a = BigUInt::from_str("1,000,000,000,000,000,000,000,000").unwrap();
    assert_eq!(a.to_string(), "1000000000000000000000000");

    let b = BigUInt::from_str("76345621812716237612783617236178236712378123").unwrap();
    assert_eq!(
        b.to_string(),
        "76345621812716237612783617236178236712378123"
    );
}

#[test]
fn add_test() {
    fn case(a: &str, b: &str, c: &str) {
        let a = BigUInt::from_str(a).unwrap();
        let b = BigUInt::from_str(b).unwrap();
        let c = BigUInt::from_str(c).unwrap();
        assert_eq!(a.add(&b), c);
    }

    case(
        "1,000,000,000,000,000,000,000,000",
        "1,000,000,000,000,000,000,000,000",
        "2,000,000,000,000,000,000,000,000",
    );
    case(
        "1234567890987654321",
        "9876543210123456789",
        "11111111101111111110",
    );
    case(
        "1,000,000,000,000,000,000,000,000",
        "1",
        "1,000,000,000,000,000,000,000,001",
    );
}

#[test]
fn sub_test() {
    fn case(a: &str, b: &str, c: &str) {
        let a = BigUInt::from_str(a).unwrap();
        let b = BigUInt::from_str(b).unwrap();
        let c = BigUInt::from_str(c).unwrap();
        assert_eq!(a.sub(&b), c);
    }

    case(
        "1,000,000,000,000,000,000,000,000",
        "1,000,000,000,000,000,000,000,000",
        "0",
    );
    case(
        "9876543210123456789",
        "1234567890987654321",
        "8641975319135802468",
    );
    case("1", "2", "0");
}

#[test]
fn mul_test() {
    fn case(a: &str, b: &str, c: &str) {
        let a = BigUInt::from_str(a).unwrap();
        let b = BigUInt::from_str(b).unwrap();
        let c = BigUInt::from_str(c).unwrap();
        assert_eq!(a.mul(&b), c);
    }

    case(
        "1,000,000,000,000,000,000,000,000",
        "1,000,000,000,000,000,000,000,000",
        "1,000,000,000,000,000,000,000,000,000,000,000,000,000,000,000,000",
    );
    case(
        "9876543210123456789",
        "1234567890987654321",
        "12193263121170553265523548251112635269",
    );
    case("1", "0", "0");
}

#[test]
fn div_test() {
    fn case(a: &str, b: &str, c: &str) {
        let a = BigUInt::from_str(a).unwrap();
        let b = BigUInt::from_str(b).unwrap();
        let c = BigUInt::from_str(c).unwrap();
        assert_eq!(a.div(&b), c);
    }

    case(
        "1,000,000,000,000,000,000,000,000",
        "1,000,000,000,000,000,000,000,000",
        "1",
    );
    case("9876543210123456789", "123456789", "80000000730");
    case("123456789", "9876543210123456789", "0");
}

#[test]
fn rem_test() {
    fn case(a: &str, b: &str, c: &str) {
        let a = BigUInt::from_str(a).unwrap();
        let b = BigUInt::from_str(b).unwrap();
        let c = BigUInt::from_str(c).unwrap();
        assert_eq!(a.rem(&b), c);
    }

    case(
        "1,000,000,000,000,000,000,000,000",
        "1,000,000,000,000,000,000,000,000",
        "0",
    );
    case("9876543210123456789", "123456789", "819");
    case("123456789", "9876543210123456789", "123456789")
}

#[test]
fn cmp_test() {
    fn case(a: &str, b: &str) {
        let a = BigUInt::from_str(a).unwrap();
        let b = BigUInt::from_str(b).unwrap();
        assert!(a.lt(&b));
    }

    case(
        "1,000,000,000,000,000,000,000,000",
        "1,100,000,000,000,000,000,000,000",
    );
    case(
        "100,000,000,000,000,000,000,000",
        "1,000,000,000,000,000,000,000,000",
    );
    case(
        "999_999_999_999_999_999_999_999",
        "1,000,000,000,000,000,000,000,000",
    );
}

#[test]
fn parse_error_test() {
    assert_eq!(BigUInt::from_str("").unwrap_err(), ParseBigUIntError::Empty);
    assert_eq!(
        BigUInt::from_str("01").unwrap_err(),
        ParseBigUIntError::LeadingZero
    );
    assert_eq!(
        BigUInt::from_str("00").unwrap_err(),
        ParseBigUIntError::LeadingZero
    );
    assert_eq!(
        BigUInt::from_str("x5").unwrap_err(),
        ParseBigUIntError::NotStartingWithDigit
    );
    assert_eq!(
        BigUInt::from_str(",1").unwrap_err(),
        ParseBigUIntError::NotStartingWithDigit
    );
    assert_eq!(
        BigUInt::from_str("12a3").unwrap_err(),
        ParseBigUIntError::InvalidCharacter
    );
    assert_eq!(
        BigUInt::from_str("12 3").unwrap_err(),
        ParseBigUIntError::InvalidCharacter
    );
    assert!(BigUInt::from_str("0").is_ok());
    assert_eq!(BigUInt::from_str("0").unwrap(), BigUInt::zero());
}

#[test]
fn from_u64_test() {
    assert_eq!(BigUInt::from_u64(0), BigUInt::zero());
    assert_eq!(BigUInt::from_u64(1), BigUInt::one());
    assert_eq!(BigUInt::from_u64(250).to_string(), "250");
    let a = BigUInt::from_u64(100);
    let b = BigUInt::from_u64(150);
    assert_eq!(a.add(&b), BigUInt::from_u64(250));
    assert_eq!(b.sub(&a), BigUInt::from_u64(50));
    assert_eq!(a.mul(&b), BigUInt::from_u64(15000));
    assert_eq!(b.div(&BigUInt::from_u64(11)), BigUInt::from_u64(13));
    assert_eq!(b.rem(&BigUInt::from_u64(11)), BigUInt::from_u64(7));
}

#[test]
fn carry_chain_test() {
    // one past a limb boundary: 2^64 == 18446744073709551616
    let max = BigUInt::from_u64(u64::MAX);
    let sum = max.add(&BigUInt::one());
    assert_eq!(sum.to_string(), "18446744073709551616");
    assert_eq!(sum.sub(&BigUInt::one()), max);
    assert_eq!(sum.rem(&max), BigUInt::one());
    assert_eq!(sum.div(&max), BigUInt::one());
}

#[test]
fn roundtrip_test() {
    let texts = [
        "1",
        "9",
        "10",
        "18446744073709551615",
        "18446744073709551616",
        "340282366920938463463374607431768211456",
    ];
    for t in texts {
        let v = BigUInt::from_str(t).unwrap();
        assert_eq!(v.to_string(), t);
    }
}

#[test]
fn compare_equal_test() {
    let a = BigUInt::from_str("123456789123456789123456789").unwrap();
    let b = BigUInt::from_str("123_456_789_123_456_789_123_456_789").unwrap();
    assert_eq!(a, b);
    assert!(!a.lt(&b));
    assert!(a.le(&b));
}
