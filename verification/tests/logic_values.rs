use test_generator::logic_val::LogicVal;
use test_generator::logic_vec::{EnumLogicVec, LogicVec};

fn v(b: bool) -> LogicVal {
    LogicVal::Val(b)
}

#[test]
fn as_char_of_each_value() {
    assert_eq!(LogicVal::ForceUnknown.as_char(), 'X');
    assert_eq!(LogicVal::Val(true).as_char(), '1');
    assert_eq!(LogicVal::Val(false).as_char(), '0');
    assert_eq!(LogicVal::NotCare.as_char(), '-');
    assert_eq!(LogicVal::NotCare.to_string(), "-");
}

#[test]
fn try_from_char_round_trip() {
    for c in ['X', '1', '0', '-'] {
        let val = LogicVal::try_from_char(c).unwrap();
        assert_eq!(val.as_char(), c);
    }
    assert!(LogicVal::try_from_char('Z').is_none());
    assert!(matches!(LogicVal::try_from_char('1'), Some(LogicVal::Val(true))));
}

#[test]
fn as_hex_char_digits() {
    assert_eq!(LogicVal::as_hex_char(&[v(true), v(false), v(true), v(false)]), '5');
    assert_eq!(LogicVal::as_hex_char(&[v(false), v(true), v(false), v(true)]), 'A');
    assert_eq!(LogicVal::as_hex_char(&[v(true), v(true), v(true), v(true)]), 'F');
    assert_eq!(LogicVal::as_hex_char(&[v(false), v(false), v(false), v(false)]), '0');
}

#[test]
fn as_hex_char_not_driven_or_wrong_length() {
    assert_eq!(LogicVal::as_hex_char(&[v(true), LogicVal::NotCare, v(true), v(false)]), 'X');
    assert_eq!(LogicVal::as_hex_char(&[LogicVal::ForceUnknown; 4]), 'X');
    assert_eq!(LogicVal::as_hex_char(&[v(true), v(true), v(true)]), 'X');
}

#[test]
fn try_from_hex_char_values() {
    let a = LogicVal::try_from_hex_char('a').unwrap();
    assert!(matches!(a, [LogicVal::Val(false), LogicVal::Val(true), LogicVal::Val(false), LogicVal::Val(true)]));
    let big = LogicVal::try_from_hex_char('A').unwrap();
    assert_eq!(LogicVal::as_hex_char(&big), 'A');
    assert!(LogicVal::try_from_hex_char('X').unwrap().iter().all(|x| matches!(x, LogicVal::ForceUnknown)));
    assert!(LogicVal::try_from_hex_char('-').unwrap().iter().all(|x| matches!(x, LogicVal::NotCare)));
    assert!(LogicVal::try_from_hex_char('g').is_none());
}

#[test]
fn hex_digit_round_trip_all_digits() {
    for c in "0123456789ABCDEF".chars() {
        let vals = LogicVal::try_from_hex_char(c).unwrap();
        assert_eq!(LogicVal::as_hex_char(&vals), c);
    }
    for c in "abcdef".chars() {
        let vals = LogicVal::try_from_hex_char(c).unwrap();
        assert_eq!(LogicVal::as_hex_char(&vals), c.to_ascii_uppercase());
    }
}

#[test]
fn eq_treats_not_care_as_wildcard() {
    assert!(LogicVal::NotCare == v(true));
    assert!(v(false) == LogicVal::NotCare);
    assert!(LogicVal::ForceUnknown == LogicVal::ForceUnknown);
    assert!(v(true) != v(false));
    assert!(LogicVal::ForceUnknown != v(true));
}

#[test]
fn new_or_bits() {
    let lv = LogicVec::<8>::new_or(Some(5), LogicVal::NotCare);
    assert_eq!(lv.to_bits_string(), "00000101");
    assert_eq!(lv.to_hex_string(), "05");
    let neg = LogicVec::<8>::new_or(Some(-1), LogicVal::NotCare);
    assert_eq!(neg.to_bits_string(), "11111111");
    let none = LogicVec::<8>::new_or(None, LogicVal::ForceUnknown);
    assert_eq!(none.to_bits_string(), "XXXXXXXX");
    assert_eq!(none.to_hex_string(), "XX");
}

#[test]
fn new_default_and_from_bool_fn() {
    let d = LogicVec::<4>::new_default(LogicVal::NotCare);
    assert_eq!(d.to_bits_string(), "----");
    assert_eq!(d.to_hex_string(), "X");
    let f = LogicVec::<4>::from_bool_fn(|i| i % 2 == 0);
    assert_eq!(f.to_bits_string(), "0101");
    assert_eq!(f.to_hex_string(), "5");
}

#[test]
fn from_hex_chars_puts_first_char_lowest() {
    let lv = LogicVec::<8>::from_hex_chars(&['A', '1']);
    assert_eq!(lv.to_hex_string(), "1A");
    assert_eq!(lv.to_bits_string(), "00011010");
    let lower = LogicVec::<8>::from_hex_chars(&['f', 'c']);
    assert_eq!(lower.to_hex_string(), "CF");
    let marks = LogicVec::<8>::from_hex_chars(&['X', '-']);
    assert_eq!(marks.to_bits_string(), "----XXXX");
    assert_eq!(marks.to_hex_string(), "XX");
}

#[test]
fn hex_write_read_round_trip() {
    let lv = LogicVec::<12>::new_or(Some(0x3C5), LogicVal::NotCare);
    let text = lv.to_hex_string();
    assert_eq!(text, "3C5");
    let chars: Vec<char> = text.chars().rev().collect();
    let back = LogicVec::<12>::from_hex_chars(&chars);
    assert_eq!(back.to_bits_string(), lv.to_bits_string());
}

#[test]
fn logic_vec_eq_uses_matching() {
    let a = LogicVec::<4>::new_or(Some(6), LogicVal::NotCare);
    let b = LogicVec::<4>::new_default(LogicVal::NotCare);
    let c = LogicVec::<4>::new_or(Some(7), LogicVal::NotCare);
    assert!(a == b);
    assert!(a != c);
}

#[test]
fn as_logic_vec_for_bool_and_i128() {
    assert_eq!(bool::as_logic_vec(Some(true), LogicVal::ForceUnknown).to_bits_string(), "1");
    assert_eq!(bool::as_logic_vec(None, LogicVal::NotCare).to_bits_string(), "-");
    let t = i128::as_logic_vec(Some(-2), LogicVal::ForceUnknown).to_hex_string();
    assert_eq!(t, "FFFFFFFFFFFFFFFFFFFFFFFFFFFFFFFE");
    let u = i128::as_logic_vec(None, LogicVal::ForceUnknown).to_hex_string();
    assert_eq!(u, "X".repeat(32));
    assert_eq!(true.into_logic_vec().to_bits_string(), "1");
}
