use dc4::integer::Integer;

fn big(v: i64) -> Integer {
    Integer::from_i64(v)
}

#[test]
fn from_and_to_machine_integers() {
    assert_eq!(Integer::from_u64(0).to_u64(), Some(0));
    assert_eq!(Integer::from_u64(u64::MAX).to_u64(), Some(u64::MAX));
    assert_eq!(Integer::from_u64(4_294_967_295).to_u32(), Some(u32::MAX));
    assert_eq!(Integer::from_u64(4_294_967_296).to_u32(), None);
    assert_eq!(big(-1).to_u64(), None);
    assert_eq!(big(i64::MIN).to_str_radix(10), b"-9223372036854775808");
    assert_eq!(Integer::zero().to_u64(), Some(0));
}

#[test]
fn signs() {
    assert!(big(-5).is_negative());
    assert!(!big(0).is_negative());
    assert!(!big(128).is_negative());
    assert!(big(-128).is_negative());
    assert!(big(0).is_zero());
    assert!(Integer::zero().is_zero());
    assert!(!big(256).is_zero());
    assert!(big(7).is_positive());
    assert!(!big(0).is_positive());
    assert!(!big(-7).is_positive());
}

#[test]
fn sums_differences_products() {
    assert!(big(999).add(&big(1)).equals(&big(1000)));
    assert!(big(10).sub(&big(20)).equals(&big(-10)));
    assert!(big(-12).mul(&big(12)).equals(&big(-144)));
    assert!(big(5).neg().equals(&big(-5)));
    assert!(big(-5).abs().equals(&big(5)));
    assert!(big(5).abs().equals(&big(5)));
    let big = Integer::from_u64(u64::MAX).mul(&Integer::from_u64(u64::MAX));
    assert_eq!(big.to_str_radix(10), b"340282366920938463426481119284349108225");
    assert_eq!(big.to_u64(), None);
}

#[test]
fn division_rounds_toward_zero() {
    let (q, r) = big(7).div_rem(&big(2));
    assert!(q.equals(&big(3)) && r.equals(&big(1)));
    let (q, r) = big(-7).div_rem(&big(2));
    assert!(q.equals(&big(-3)) && r.equals(&big(-1)));
    let (q, r) = big(7).div_rem(&big(-2));
    assert!(q.equals(&big(-3)) && r.equals(&big(1)));
    let (q, r) = big(-7).div_rem(&big(-2));
    assert!(q.equals(&big(3)) && r.equals(&big(-1)));
    assert!(big(9).half().equals(&big(4)));
    assert!(big(10).is_even());
    assert!(!big(-3).is_even());
}

#[test]
fn order() {
    assert!(big(-1).less_than(&big(0)));
    assert!(!big(3).less_than(&big(3)));
    assert!(!big(4).less_than(&big(3)));
    assert!(big(3).equals(&big(3)));
    assert!(!big(3).equals(&big(-3)));
}

#[test]
fn text_in_a_radix() {
    assert_eq!(big(255).to_str_radix(16), b"ff");
    assert_eq!(big(-255).to_str_radix(2), b"-11111111");
    assert_eq!(big(0).to_str_radix(7), b"0");
    assert_eq!(big(35).to_str_radix(36), b"z");
    assert_eq!(big(-1234).num_digits(), 4);
    assert_eq!(big(0).num_digits(), 1);
}

#[test]
fn bytes_of_the_magnitude() {
    assert_eq!(big(4276803).to_bytes_be(), b"ABC");
    assert_eq!(big(-4276803).to_bytes_be(), b"ABC");
    assert_eq!(big(0).to_bytes_be(), vec![0u8]);
    assert_eq!(big(256).to_bytes_be(), vec![1u8, 0u8]);
}

#[test]
fn clone_keeps_the_value() {
    let a = big(-123456789);
    assert!(a.clone().equals(&a));
}
