use test_generator::adder128;
use test_generator::adder_wide::{self, generate_test_pairs, select_cases};
use test_generator::bit_vec::BitVec;

type B8 = BitVec<8, 1>;

#[test]
fn perform128_plain_sum() {
    let out = adder128::AdderIn::new(1, 2, true).perform();
    assert_eq!(out.s, Some(4));
    assert_eq!(out.cout, Some(false));
    assert_eq!(out.ovfl, Some(false));
}

#[test]
fn perform128_signed_overflow() {
    let out = adder128::AdderIn::new(i128::MAX, 0, true).perform();
    assert_eq!(out.s, Some(i128::MIN));
    assert_eq!(out.cout, Some(false));
    assert_eq!(out.ovfl, Some(true));
    let out = adder128::AdderIn::new(i128::MIN, -1, false).perform();
    assert_eq!(out.s, Some(i128::MAX));
    assert_eq!(out.cout, Some(true));
    assert_eq!(out.ovfl, Some(true));
}

#[test]
fn perform128_unsigned_carry_without_overflow() {
    let out = adder128::AdderIn::new(-1, 1, false).perform();
    assert_eq!(out.s, Some(0));
    assert_eq!(out.cout, Some(true));
    assert_eq!(out.ovfl, Some(false));
    let out = adder128::AdderIn::new(-1, i128::MIN, true).perform();
    assert_eq!(out.s, Some(i128::MIN));
    assert_eq!(out.cout, Some(true));
    assert_eq!(out.ovfl, Some(false));
}

#[test]
fn perform128_missing_input() {
    let input = adder128::AdderIn { a: Some(1), b: None, cin: Some(true) };
    let out = input.perform();
    assert_eq!(out, adder128::AdderOut::none());
    let st = adder128::AdderState::new(input);
    assert_eq!(st.output, adder128::AdderOut::none());
}

#[test]
fn state128_to_vhdl() {
    let st = adder128::AdderState::new(adder128::AdderIn::new(1, 2, true));
    let zeros = "0".repeat(31);
    let expected = format!(
        "(\n  a    => x\"{z}1\",\n  b    => x\"{z}2\",\n  cin  => '1',\n  s    => x\"{z}4\",\n  cout => '0',\n  ovfl => '0'\n)",
        z = zeros
    );
    assert_eq!(st.to_vhdl(), expected);
}

#[test]
fn test_i128_pairs() {
    let t = adder128::test_i128();
    assert_eq!(t.len(), 1668);
    assert_eq!(t[0], (0, 0));
    assert_eq!(t[1], (-1, 0));
    assert_eq!(t[3], (1, 0));
    assert_eq!(t[3 + 5 * 127], (i128::MIN, 0));
    // first triple-bit pair: 1 and 3
    assert_eq!(t[3 + 5 * 128], (1, 3));
    assert_eq!(t[3 + 5 * 128 + 3], (3, 3));
    // last contiguous pair: all ones and all but the lowest bit
    assert_eq!(t[1667], (-2, -1));
}

#[test]
fn all_cases128_sorted_unique() {
    let cases = adder128::all_cases();
    assert_eq!(cases.len(), 3078);
    assert_eq!(cases[0].input, adder128::AdderIn::new(i128::MIN, i128::MIN, false));
    assert_eq!(cases[1].input, adder128::AdderIn::new(i128::MIN, i128::MIN, true));
    for w in cases.windows(2) {
        assert!(w[0].input < w[1].input);
    }
    for c in &cases {
        assert_eq!(c.output, c.input.perform());
    }
}

#[test]
fn wide_perform_and_to_vhdl() {
    let st = adder_wide::AdderState::<8, 1>::new(adder_wide::AdderIn::new(B8::from_u64(1), B8::from_u64(2), true));
    assert_eq!(st.output.s.unwrap().words, [4]);
    assert_eq!(
        st.to_vhdl(),
        "(\n  a    => x\"01\",\n  b    => x\"02\",\n  cin  => '1',\n  s    => x\"04\",\n  cout => '0',\n  ovfl => '0'\n)"
    );
}

#[test]
fn wide_missing_inputs_render_unknown() {
    let input = adder_wide::AdderIn::<8, 1> { a: None, b: Some(B8::from_u64(0x3C)), cin: None };
    let st = adder_wide::AdderState::new(input);
    assert_eq!(st.output, adder_wide::AdderOut::none());
    assert_eq!(
        st.to_vhdl(),
        "(\n  a    => x\"XX\",\n  b    => x\"3C\",\n  cin  => 'X',\n  s    => x\"XX\",\n  cout => '-',\n  ovfl => '-'\n)"
    );
}

#[test]
fn wide_overflow_matches_128_bit_adder() {
    let a = BitVec::<128, 2>::from_u64(u64::MAX).bitor(BitVec::<128, 2>::from_u64(0x7FFF_FFFF_FFFF_FFFF).shl(64));
    let (s, cout, ovfl) = a.add_with_carry(BitVec::<128, 2>::zero(), true);
    let out = adder128::AdderIn::new(i128::MAX, 0, true).perform();
    assert_eq!(s.words, [0, 1 << 63]);
    assert_eq!(Some(cout), out.cout);
    assert_eq!(Some(ovfl), out.ovfl);
}

#[test]
fn generate_test_pairs_small_width() {
    let t = generate_test_pairs::<8, 1>();
    assert_eq!(t.len(), 101);
    assert_eq!(t[1].0.words, [0xFF]);
    assert_eq!(t[3].0.words, [1]);
    // triple bits start after the single-bit section
    assert_eq!(t[3 + 40].0.words, [1]);
    assert_eq!(t[3 + 40].1.words, [3]);
    // the top bit of `3 << 6` is bit 7
    assert_eq!(t[3 + 40 + 3 * 6].1.words, [0xC0]);
    // five bits
    assert_eq!(t[3 + 40 + 21].0.words, [5]);
    assert_eq!(t[3 + 40 + 21].1.words, [7]);
    // alternating patterns
    assert_eq!(t[3 + 40 + 21 + 12].0.words, [0xAA]);
    assert_eq!(t[3 + 40 + 21 + 12 + 4].1.words, [0x55]);
    // contiguous: a = 2^(n+1) - 1, b = 2^(n+1) - 2
    let c = 3 + 40 + 21 + 12 + 9;
    assert_eq!(t[c].0.words, [1]);
    assert_eq!(t[c].1.words, [0]);
    assert_eq!(t[c + 2 * 3].0.words, [0xF]);
    assert_eq!(t[c + 2 * 3].1.words, [0xE]);
    assert_eq!(t[c + 2 * 3 + 1].0.words, [0xE]);
}

#[test]
fn select_cases_small_width() {
    let (cases, total) = select_cases::<8, 1>(10, 0xDEAD_BEEF_CAFE_BABE);
    assert_eq!(total, 198);
    assert_eq!(cases.len(), 10);
    assert_eq!(cases[0].input, adder_wide::AdderIn::new(B8::from_u64(0xFF), B8::from_u64(0xFF), false));
    assert_eq!(cases[1].input, adder_wide::AdderIn::new(B8::from_u64(5), B8::from_u64(7), false));
    assert_eq!(cases[2].input, adder_wide::AdderIn::new(B8::from_u64(0x80), B8::zero(), false));
    for c in &cases {
        assert_eq!(c.output, c.input.perform());
    }
    let (all, total) = select_cases::<8, 1>(1000, 5);
    assert_eq!(total, 198);
    assert_eq!(all.len(), 198);
}

fn wide_of(v: i128) -> BitVec<128, 2> {
    let u = v as u128;
    BitVec { words: [u as u64, (u >> 64) as u64] }
}

#[test]
fn wide_adder_agrees_on_all_128_bit_tests() {
    let pairs = adder128::test_i128();
    for (k, &(a, b)) in pairs.iter().enumerate() {
        let cin = k % 2 == 0;
        let out = adder128::AdderIn::new(a, b, cin).perform();
        let (s, cout, ovfl) = wide_of(a).add_with_carry(wide_of(b), cin);
        assert_eq!(s.words, wide_of(out.s.unwrap()).words);
        assert_eq!(Some(cout), out.cout);
        assert_eq!(Some(ovfl), out.ovfl);
    }
}

#[test]
fn equal_values_give_equal_words() {
    assert_eq!(B8::low_bits_set(3).words, B8::from_u64(7).words);
    assert_eq!(B8::single_bit(7).words, B8::from_u64(1).shl(7).words);
    assert_eq!(B8::ones().words, B8::from_repeating_u64(u64::MAX).words);
}
