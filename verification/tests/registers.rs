use dc4::big_real::BigReal;
use dc4::big_real::BigRealFrom;
use dc4::dcregisters::DcRegister;
use dc4::dcregisters::DcRegisterStack;
use dc4::dcregisters::DcRegisters;
use dc4::DcValue;

fn num(v: i64, shift: u32) -> BigReal {
    BigReal::new(v, shift)
}

fn is_num(value: &DcValue, expected: i64) -> bool {
    match value {
        DcValue::Num(n) => *n == num(expected, 0),
        DcValue::Str(_) => false,
    }
}

fn is_str(value: &DcValue, expected: &[u8]) -> bool {
    match value {
        DcValue::Str(s) => s == expected,
        DcValue::Num(_) => false,
    }
}

#[test]
fn a_new_register_is_empty() {
    let registers = DcRegisters::new();
    for c in 0..=255u8 {
        assert!(registers.get(c).value().is_none());
    }
    assert!(is_num(&registers.get(b'x').array_load(&num(3, 0)), 0));
}

#[test]
fn set_replaces_and_push_stacks() {
    let mut r = DcRegisterStack::new();
    r.set(DcValue::Num(num(1, 0)));
    r.set(DcValue::Num(num(2, 0)));
    assert!(is_num(r.value().unwrap(), 2));
    r.push(DcValue::Str(b"top".to_vec()));
    assert!(is_str(r.value().unwrap(), b"top"));
    assert!(is_str(&r.pop().unwrap(), b"top"));
    assert!(is_num(&r.pop().unwrap(), 2));
    assert!(r.pop().is_none());
    assert!(r.value().is_none());
}

#[test]
fn set_keeps_the_array_of_the_slot() {
    let mut r = DcRegisterStack::new();
    r.array_store(num(4, 0), DcValue::Num(num(44, 0)));
    r.set(DcValue::Num(num(1, 0)));
    assert!(is_num(&r.array_load(&num(4, 0)), 44));
    assert!(is_num(r.value().unwrap(), 1));
}

#[test]
fn keys_are_the_same_where_they_are_equal_as_numbers() {
    let mut r = DcRegister::new(None);
    r.map_insert(num(150, 2), DcValue::Num(num(1, 0)));
    assert!(is_num(r.map_lookup(&num(15, 1)).unwrap(), 1));
    r.map_insert(num(1500, 3), DcValue::Num(num(2, 0)));
    assert!(is_num(r.map_lookup(&num(15, 1)).unwrap(), 2));
    assert_eq!(r.map.len(), 1);
    assert!(r.map_lookup(&num(15, 0)).is_none());
    r.map_insert(num(0, 5), DcValue::Str(b"zero".to_vec()));
    assert!(is_str(r.map_lookup(&num(0, 0)).unwrap(), b"zero"));
}

#[test]
fn a_pushed_slot_hides_the_array_below() {
    let mut registers = DcRegisters::new();
    registers.get_mut(b'a').array_store(num(0, 0), DcValue::Num(num(1, 0)));
    registers.get_mut(b'a').push(DcValue::Num(num(0, 0)));
    assert!(is_num(&registers.get(b'a').array_load(&num(0, 0)), 0));
    registers.get_mut(b'a').array_store(num(0, 0), DcValue::Num(num(2, 0)));
    assert!(is_num(&registers.get(b'a').array_load(&num(0, 0)), 2));
    assert!(is_num(&registers.get_mut(b'a').pop().unwrap(), 0));
    assert!(is_num(&registers.get(b'a').array_load(&num(0, 0)), 1));
    assert!(is_num(&registers.get(b'b').array_load(&num(0, 0)), 0));
}

#[test]
fn the_slot_that_an_array_made_has_no_value() {
    let mut r = DcRegisterStack::new();
    r.array_store(num(1, 0), DcValue::Num(num(5, 0)));
    assert!(r.value().is_none());
    assert!(r.pop().is_none());
    assert!(is_num(&r.array_load(&num(1, 0)), 0));
}
