use test_generator::bit_vec::BitVec;
use test_generator::logic_val::LogicVal;
use test_generator::logic_vec::EnumLogicVec;

type B8 = BitVec<8, 1>;
type B70 = BitVec<70, 2>;

#[test]
fn zero_and_ones() {
    assert_eq!(B8::zero().words, [0]);
    assert_eq!(B8::ones().words, [0xFF]);
    assert_eq!(B70::ones().words, [u64::MAX, 0x3F]);
    assert_eq!(BitVec::<64, 1>::ones().words, [u64::MAX]);
}

#[test]
fn single_bit_positions() {
    assert_eq!(B8::single_bit(3).words, [8]);
    assert_eq!(B70::single_bit(69).words, [0, 1 << 5]);
    assert_eq!(B70::single_bit(0).words, [1, 0]);
}

#[test]
fn from_u64_masks_to_width() {
    assert_eq!(B8::from_u64(0x1FF).words, [0xFF]);
    assert_eq!(B70::from_u64(u64::MAX).words, [u64::MAX, 0]);
}

#[test]
fn low_bits_set_counts() {
    assert_eq!(B8::low_bits_set(0).words, [0]);
    assert_eq!(B8::low_bits_set(5).words, [0x1F]);
    assert_eq!(B8::low_bits_set(8).words, [0xFF]);
    assert_eq!(B70::low_bits_set(64).words, [u64::MAX, 0]);
    assert_eq!(B70::low_bits_set(66).words, [u64::MAX, 3]);
    assert_eq!(B70::low_bits_set(70).words, [u64::MAX, 0x3F]);
}

#[test]
fn from_repeating_u64_masks_top() {
    assert_eq!(B8::from_repeating_u64(0xAAAA_AAAA_AAAA_AAAA).words, [0xAA]);
    assert_eq!(B70::from_repeating_u64(0x5555_5555_5555_5555).words, [0x5555_5555_5555_5555, 0x15]);
}

#[test]
fn shl_within_and_across_words() {
    assert_eq!(B8::from_u64(3).shl(7).words, [0x80]);
    assert_eq!(B8::from_u64(3).shl(8).words, [0]);
    assert_eq!(B8::ones().shl(0).words, [0xFF]);
    assert_eq!(B70::single_bit(63).shl(1).words, [0, 1]);
    assert_eq!(B70::from_u64(0xF000_0000_0000_0001).shl(4).words, [0x10, 0xF]);
    assert_eq!(B70::from_u64(1).shl(64).words, [0, 1]);
    assert_eq!(B70::ones().shl(69).words, [0, 0x20]);
}

#[test]
fn bitor_and_get_bit() {
    let x = B8::from_u64(0x0F).bitor(B8::from_u64(0x30));
    assert_eq!(x.words, [0x3F]);
    assert!(x.get_bit(0));
    assert!(x.get_bit(5));
    assert!(!x.get_bit(6));
    let y = B70::single_bit(65);
    assert!(y.get_bit(65));
    assert!(!y.get_bit(64));
}

#[test]
fn mask_top_clears_high_bits() {
    let mut x = B8 { words: [0xFFFF] };
    x.mask_top();
    assert_eq!(x.words, [0xFF]);
    let mut y = B70 { words: [7, u64::MAX] };
    y.mask_top();
    assert_eq!(y.words, [7, 0x3F]);
}

#[test]
fn add_with_carry_unsigned_carry() {
    let (s, cout, ovfl) = B8::from_u64(0xFF).add_with_carry(B8::from_u64(1), false);
    assert_eq!(s.words, [0]);
    assert!(cout);
    assert!(!ovfl);
    let (s, cout, ovfl) = B8::from_u64(0xFF).add_with_carry(B8::from_u64(0xFF), true);
    assert_eq!(s.words, [0xFF]);
    assert!(cout);
    assert!(!ovfl);
}

#[test]
fn add_with_carry_signed_overflow() {
    let (s, cout, ovfl) = B8::from_u64(0x7F).add_with_carry(B8::from_u64(1), false);
    assert_eq!(s.words, [0x80]);
    assert!(!cout);
    assert!(ovfl);
    let (s, cout, ovfl) = B8::from_u64(0x80).add_with_carry(B8::from_u64(0x80), false);
    assert_eq!(s.words, [0]);
    assert!(cout);
    assert!(ovfl);
    let (s, cout, ovfl) = B8::from_u64(0x7F).add_with_carry(B8::from_u64(0), true);
    assert_eq!(s.words, [0x80]);
    assert!(!cout);
    assert!(ovfl);
}

#[test]
fn add_with_carry_across_words() {
    let a = B70::from_u64(u64::MAX);
    let (s, cout, ovfl) = a.add_with_carry(B70::from_u64(1), false);
    assert_eq!(s.words, [0, 1]);
    assert!(!cout);
    assert!(!ovfl);
    let (s, cout, _) = B70::ones().add_with_carry(B70::zero(), true);
    assert_eq!(s.words, [0, 0]);
    assert!(cout);
}

#[test]
fn bit_vec_into_logic_vec() {
    let lv = B8::from_u64(0xA5).into_logic_vec();
    assert_eq!(lv.to_bits_string(), "10100101");
    assert_eq!(lv.to_hex_string(), "A5");
    assert_eq!(B8::as_logic_vec(None, LogicVal::NotCare).to_hex_string(), "XX");
}

#[test]
fn zero_width_vectors() {
    type B0 = BitVec<0, 0>;
    let (s, cout, ovfl) = B0::zero().add_with_carry(B0::zero(), true);
    assert_eq!(s.words, [0u64; 0]);
    assert!(cout);
    assert!(ovfl);
    assert_eq!(B0::low_bits_set(0).words, [0u64; 0]);
    assert_eq!(B0::zero().shl(3).words, [0u64; 0]);
}

#[test]
fn shl_value_wraps_modulo_width() {
    // 0b1011_0001 << 3 keeps the low 8 bits: 0b1000_1000
    assert_eq!(B8::from_u64(0xB1).shl(3).words, [0x88]);
    assert_eq!(B70::from_u64(0xABCD).shl(60).words, [0xD << 60, 0x3C]);
}
