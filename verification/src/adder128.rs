use vstd::prelude::*;
use crate::logic_val::LogicVal;
use crate::logic_vec::{EnumLogicVec, hex_string, i128_bit, from_hex_spec, lemma_hex_write_read};
use crate::logic_val::all_driven;
use crate::bit_vec::{BitVec, bits_value};
use vstd::arithmetic::power2::pow2;
use crate::adder_wide::{
    bit_text, BitSet, bit_at, three_at, alternating, all_bits, basic_pairs, single_bit_pairs,
    five_bit_pairs, contiguous_pairs, lemma_group, pattern_value, lemma_shifted_pattern_values,
    test_pair_bits, alternating_pairs, triple_pairs,
};
use crate::vhdl::{
    case_text, case_string, output_char, ends_with_carry_fields, input_char, starts_with_operand_fields,
};
use crate::order::{SortKey, ints, sort_dedup, strictly_sorted, same_items};

verus! {

/// `2^128`.
pub open spec fn two_128() -> int {
    0x1_0000_0000_0000_0000_0000_0000_0000_0000int
}

/// `2^127`.
pub open spec fn two_127() -> int {
    0x8000_0000_0000_0000_0000_0000_0000_0000int
}

/// The unsigned number with the same 128 bits as `a`.
pub open spec fn unsigned_of(a: i128) -> int {
    if a >= 0 { a as int } else { a + two_128() }
}

/// The two's-complement number with the 128 bits of `m` (`0 <= m < 2^128`).
pub open spec fn signed_of(m: int) -> int {
    if m < two_127() { m } else { m - two_128() }
}

/// `x` wrapped into the range of `i128`.
pub open spec fn wrap_i128(x: int) -> int {
    signed_of(x % two_128())
}

/// The value of a carry bit.
pub open spec fn carry_value(c: bool) -> int {
    if c { 1 } else { 0 }
}

/// The bits of an `i128` read as unsigned.
proof fn lemma_as_unsigned(a: i128)
    ensures
        (a as u128) as int == unsigned_of(a),
{
    if a < 0 {
        assert((a as u128) as int == a as int + 0x1_0000_0000_0000_0000_0000_0000_0000_0000int) by (bit_vector)
            requires
                a < 0,
        ;
    }
}

/// The bits of a `u128` read as signed.
proof fn lemma_as_signed(x: u128)
    ensures
        (x as i128) as int == signed_of(x as int),
{
    if x > 0x7fff_ffff_ffff_ffff_ffff_ffff_ffff_ffffu128 {
        assert((x as i128) as int == x as int - 0x1_0000_0000_0000_0000_0000_0000_0000_0000int) by (bit_vector)
            requires
                x > 0x7fff_ffff_ffff_ffff_ffff_ffff_ffff_ffffu128,
        ;
    }
}

/// The inputs of a 128-bit adder; a missing input is driven as unknown.
#[derive(Debug, Clone, Copy, Hash, PartialEq, Eq, PartialOrd, Ord)]
pub struct AdderIn {
    pub a: Option<i128>,
    pub b: Option<i128>,
    pub cin: Option<bool>,
}

/// The outputs of a 128-bit adder; a missing output is "don't care".
#[derive(Debug, Clone, Copy, Hash, PartialEq, Eq, PartialOrd, Ord)]
pub struct AdderOut {
    pub s: Option<i128>,
    pub cout: Option<bool>,
    pub ovfl: Option<bool>,
}

/// One test case: adder inputs and the outputs expected for them.
#[derive(Debug, Clone, Copy, Hash, PartialEq, Eq, PartialOrd, Ord)]
pub struct AdderState {
    pub input: AdderIn,
    pub output: AdderOut,
}

/// `out` is what the adder gives for `input`: when all three inputs are
/// present, the sum wrapped to 128 bits, the carry out of the unsigned sum,
/// and whether the signed sum overflows; no outputs otherwise.
pub open spec fn performs(input: AdderIn, out: AdderOut) -> bool {
    match (input.a, input.b, input.cin) {
        (Some(a), Some(b), Some(cin)) => match (out.s, out.cout, out.ovfl) {
            (Some(s), Some(cout), Some(ovfl)) => {
                &&& s as int == wrap_i128(a + b + carry_value(cin))
                &&& cout == (unsigned_of(a) + unsigned_of(b) + carry_value(cin) >= two_128())
                &&& ovfl == !(i128::MIN <= a + b + carry_value(cin) <= i128::MAX)
            },
            _ => false,
        },
        _ => out.s is None && out.cout is None && out.ovfl is None,
    }
}

impl AdderOut {
    /// No outputs.
    pub fn none() -> (r: Self)
        ensures
            r.s is None && r.cout is None && r.ovfl is None,
    {
        AdderOut { s: None, cout: None, ovfl: None }
    }
}

impl AdderIn {
    /// All three inputs present.
    pub fn new(a: i128, b: i128, cin: bool) -> (r: Self)
        ensures
            r.a == Some(a) && r.b == Some(b) && r.cin == Some(cin),
    {
        AdderIn { a: Some(a), b: Some(b), cin: Some(cin) }
    }

    /// The outputs the adder gives for these inputs.
    pub fn perform(self) -> (r: AdderOut)
        ensures
            performs(self, r),
    {
        let (a, b, cin) = match (self.a, self.b, self.cin) {
            (Some(a), Some(b), Some(cin)) => (a, b, cin),
            _ => {
                return AdderOut::none();
            },
        };
        // add as unsigned numbers, with carry
        let ua = a as u128;
        let ub = b as u128;
        let cin_val: u128 = if cin { 1 } else { 0 };
        let (sum_low, carry1) = match ua.checked_add(ub) {
            Some(x) => (x, false),
            None => (ua.wrapping_add(ub), true),
        };
        let (sum_final, carry2) = match sum_low.checked_add(cin_val) {
            Some(x) => (x, false),
            None => (sum_low.wrapping_add(cin_val), true),
        };
        let cout = carry1 || carry2;
        // overflow when two operands of one sign give a sum of the other sign
        let s_signed = sum_final as i128;
        let ovfl = ((a >= 0) && (b >= 0) && (s_signed < 0)) || ((a < 0) && (b < 0) && (s_signed >= 0));
        proof {
            lemma_as_unsigned(a);
            lemma_as_unsigned(b);
            lemma_as_signed(sum_final);
            let p = two_128();
            let c = carry_value(cin);
            let t = unsigned_of(a) + unsigned_of(b) + c;
            let q = if cout { 1int } else { 0int };
            assert(sum_final as int == t - q * p);
            let x = a + b + c;
            let k = (if a < 0 { 1int } else { 0int }) + (if b < 0 { 1int } else { 0int });
            assert(x == (q - k) * p + sum_final as int) by (nonlinear_arith)
                requires
                    sum_final as int == t - q * p,
                    t == x + k * p,
            ;
            vstd::arithmetic::div_mod::lemma_fundamental_div_mod_converse(x, p, q - k, sum_final as int);
        }
        AdderOut { s: Some(s_signed), cout: Some(cout), ovfl: Some(ovfl) }
    }
}

/// The set bits of `v` are exactly those of `p` (looking at all 128 bits).
pub open spec fn has_bits128(v: i128, p: BitSet) -> bool {
    forall|i: int| 0 <= i < 128 ==> #[trigger] i128_bit(v, i) == p(i)
}

/// Bits of a shifted `i128`.
proof fn lemma_i128_shl(k: i128, s: u32, i: u32)
    requires
        s < 128,
        i < 128,
    ensures
        i128_bit(k << s, i as int) == (i >= s && i128_bit(k, (i - s) as int)),
{
    assert(((((k << s) as u128) >> (i as u128)) & 1u128 == 1u128)
        <==> (i >= s && ((k as u128) >> ((i - s) as u128)) & 1u128 == 1u128)) by (bit_vector)
        requires
            s < 128,
            i < 128,
    ;
}

/// Bits of the small constants and of all ones.
proof fn lemma_i128_consts(j: u32)
    requires
        j < 128,
    ensures
        i128_bit(1i128, j as int) == (j == 0),
        i128_bit(3i128, j as int) == (j < 2),
        i128_bit(5i128, j as int) == (j == 0 || j == 2),
        i128_bit(7i128, j as int) == (j < 3),
        i128_bit(-1i128, j as int),
        !i128_bit(0i128, j as int),
{
    assert((((1i128 as u128) >> (j as u128)) & 1u128 == 1u128) <==> j == 0) by (bit_vector)
        requires j < 128,
    ;
    assert((((3i128 as u128) >> (j as u128)) & 1u128 == 1u128) <==> j < 2) by (bit_vector)
        requires j < 128,
    ;
    assert((((5i128 as u128) >> (j as u128)) & 1u128 == 1u128) <==> (j == 0 || j == 2)) by (bit_vector)
        requires j < 128,
    ;
    assert((((7i128 as u128) >> (j as u128)) & 1u128 == 1u128) <==> j < 3) by (bit_vector)
        requires j < 128,
    ;
    assert((((-1i128) as u128) >> (j as u128)) & 1u128 == 1u128) by (bit_vector)
        requires j < 128,
    ;
    assert(!((((0i128 as u128) >> (j as u128)) & 1u128) == 1u128)) by (bit_vector);
}

/// Bits of 128-bit patterns written as unsigned numbers.
proof fn lemma_u128_patterns(n: u32, j: u32)
    requires
        n < 128,
        j < 128,
    ensures
        i128_bit(0xAAAA_AAAA_AAAA_AAAAu128 as i128, j as int) == (j < 64 && j % 2 == 1),
        i128_bit(0x5555_5555_5555_5555u128 as i128, j as int) == (j < 64 && j % 2 == 0),
        i128_bit(0xFFFF_FFFF_FFFF_FFFFu128 as i128, j as int) == (j < 64),
        (1u128 << n) >= 1,
        ((1u128 << n) - 1) + (1u128 << n) <= u128::MAX,
        i128_bit((((1u128 << n) - 1) + (1u128 << n)) as u128 as i128, j as int) == (j <= n),
        i128_bit((((1u128 << n) - 1) + ((1u128 << n) - 1)) as u128 as i128, j as int) == (1 <= j <= n),
{
    assert(((((0xAAAA_AAAA_AAAA_AAAAu128 as i128) as u128) >> (j as u128)) & 1u128 == 1u128) <==> (j < 64 && j % 2 == 1)) by (bit_vector)
        requires j < 128,
    ;
    assert(((((0x5555_5555_5555_5555u128 as i128) as u128) >> (j as u128)) & 1u128 == 1u128) <==> (j < 64 && j % 2 == 0)) by (bit_vector)
        requires j < 128,
    ;
    assert(((((0xFFFF_FFFF_FFFF_FFFFu128 as i128) as u128) >> (j as u128)) & 1u128 == 1u128) <==> j < 64) by (bit_vector)
        requires j < 128,
    ;
    assert((1u128 << n) >= 1 && ((1u128 << n) - 1) + (1u128 << n) <= 0xffff_ffff_ffff_ffff_ffff_ffff_ffff_ffffu128) by (bit_vector)
        requires n < 128,
    ;
    let a = (((1u128 << n) - 1) + (1u128 << n)) as u128;
    let b = (((1u128 << n) - 1) + ((1u128 << n) - 1)) as u128;
    assert((((a as i128) as u128) >> (j as u128)) & 1u128 == 1u128 <==> j <= n) by (bit_vector)
        requires
            n < 128,
            j < 128,
            a == (((1u128 << n) - 1) + (1u128 << n)) as u128,
    ;
    assert((((b as i128) as u128) >> (j as u128)) & 1u128 == 1u128 <==> (1 <= j && j <= n)) by (bit_vector)
        requires
            n < 128,
            j < 128,
            b == (((1u128 << n) - 1) + ((1u128 << n) - 1)) as u128,
    ;
}

/// For every bit below the top: `1 << b` with `3 << b` both ways round, and
/// `3 << b` with itself (listed twice).
pub open spec fn quad_pairs() -> Seq<(BitSet, BitSet)> {
    Seq::new(4 * 127, |t: int| {
        let x = bit_at(t / 4);
        let y = three_at(t / 4);
        let r = t % 4;
        if r == 0 {
            (x, y)
        } else if r == 1 {
            (y, x)
        } else {
            (y, y)
        }
    })
}

/// The 64-bit patterns: the odd bits, the even bits, all bits (below 64).
pub open spec fn low_repeating(k: int) -> BitSet {
    |i: int| i < 64 && (if k == 0 { alternating(true)(i) } else if k == 1 { alternating(false)(i) } else { all_bits()(i) })
}

/// Every pair of 64-bit patterns.
pub open spec fn low_alternating_pairs() -> Seq<(BitSet, BitSet)> {
    Seq::new(9, |t: int| (low_repeating(t / 3), low_repeating(t % 3)))
}

/// All operand pairs of the 128-bit tests, in order.
pub open spec fn test_pairs128() -> Seq<(BitSet, BitSet)> {
    basic_pairs() + single_bit_pairs(128) + quad_pairs() + five_bit_pairs(128) + low_alternating_pairs()
        + contiguous_pairs(128)
}

/// The pair of operands has the pair of bit sets.
pub open spec fn pair_has_bits128(v: (i128, i128), p: (BitSet, BitSet)) -> bool {
    has_bits128(v.0, p.0) && has_bits128(v.1, p.1)
}

/// All ones has every bit set, zero none.
proof fn lemma_ones_zero_bits()
    ensures
        has_bits128(-1i128, all_bits()),
        has_bits128(0i128, crate::adder_wide::no_bits()),
{
    assert forall|i: int| 0 <= i < 128 implies #[trigger] i128_bit(-1i128, i) == all_bits()(i) by {
        lemma_i128_consts(i as u32);
    }
    assert forall|i: int| 0 <= i < 128 implies #[trigger] i128_bit(0i128, i) == crate::adder_wide::no_bits()(i) by {
        lemma_i128_consts(i as u32);
    }
}

/// The operand pairs for the 128-bit adder tests.
pub fn test_i128() -> (tests: Vec<(i128, i128)>)
    ensures
        tests@.len() == test_pairs128().len(),
        forall|m: int| 0 <= m < tests@.len() ==> #[trigger] pair_has_bits128(tests@[m], test_pairs128()[m]),
{
    let ghost pats = test_pairs128();
    let ones: i128 = -1; // all bits set
    let zero: i128 = 0;
    proof {
        lemma_ones_zero_bits();
    }
    let mut cases: Vec<(i128, i128)> = Vec::new();
    cases.push((zero, zero));
    cases.push((ones, zero));
    cases.push((zero, ones));
    assert forall|m: int| 0 <= m < cases@.len() implies #[trigger] pair_has_bits128(cases@[m], pats[m]) by {
        let rest = single_bit_pairs(128) + quad_pairs() + five_bit_pairs(128) + low_alternating_pairs()
            + contiguous_pairs(128);
        assert(pats =~= basic_pairs() + rest);
        assert(pats[m] == basic_pairs()[m]);
    }

    let mut bit: u32 = 0;
    while bit < 128
        invariant
            pats == test_pairs128(),
            has_bits128(ones, all_bits()),
            has_bits128(ones, all_bits()),
            has_bits128(zero, crate::adder_wide::no_bits()),
            0 <= bit <= 128,
            cases@.len() == 3 + 5 * bit,
            forall|m: int| 0 <= m < cases@.len() ==> #[trigger] pair_has_bits128(cases@[m], pats[m]),
        decreases 128 - bit,
    {
        // Single bits, pair bits and carry chains
        let v = 1i128 << bit;
        assert(has_bits128(v, bit_at(bit as int))) by {
            assert forall|i: int| 0 <= i < 128 implies #[trigger] i128_bit(v, i) == bit_at(bit as int)(i) by {
                lemma_i128_shl(1i128, bit, i as u32);
                if i >= bit {
                    lemma_i128_consts((i - bit) as u32);
                }
            }
        }
        let ghost base = cases@.len() as int;
        cases.push((v, zero));
        cases.push((zero, v));
        cases.push((v, v));
        cases.push((v, ones));
        cases.push((ones, v));
        proof {
            assert forall|m: int| base <= m < base + 5 implies #[trigger] pair_has_bits128(cases@[m], pats[m]) by {
                lemma_group(m - 3, 5, bit as int, m - base);
                assert(pats[m] == single_bit_pairs(128)[m - 3]);
            }
        }
        bit = bit + 1;
    }

    let mut bit: u32 = 0;
    while bit < 127
        invariant
            pats == test_pairs128(),
            0 <= bit <= 127,
            cases@.len() == 3 + 5 * 128 + 4 * bit,
            forall|m: int| 0 <= m < cases@.len() ==> #[trigger] pair_has_bits128(cases@[m], pats[m]),
        decreases 127 - bit,
    {
        // Triple and four bits
        let x = 1i128 << bit;
        let y = 3i128 << bit;
        assert(has_bits128(x, bit_at(bit as int))) by {
            assert forall|i: int| 0 <= i < 128 implies #[trigger] i128_bit(x, i) == bit_at(bit as int)(i) by {
                lemma_i128_shl(1i128, bit, i as u32);
                if i >= bit {
                    lemma_i128_consts((i - bit) as u32);
                }
            }
        }
        assert(has_bits128(y, three_at(bit as int))) by {
            assert forall|i: int| 0 <= i < 128 implies #[trigger] i128_bit(y, i) == three_at(bit as int)(i) by {
                lemma_i128_shl(3i128, bit, i as u32);
                if i >= bit {
                    lemma_i128_consts((i - bit) as u32);
                }
            }
        }
        let ghost base = cases@.len() as int;
        cases.push((x, y));
        cases.push((y, x));
        cases.push((y, y));
        cases.push((y, y));
        proof {
            assert forall|m: int| base <= m < base + 4 implies #[trigger] pair_has_bits128(cases@[m], pats[m]) by {
                lemma_group(m - 3 - 5 * 128, 4, bit as int, m - base);
                assert(pats[m] == quad_pairs()[m - 3 - 5 * 128]);
            }
        }
        bit = bit + 1;
    }

    let mut bit: u32 = 0;
    while bit < 126
        invariant
            pats == test_pairs128(),
            0 <= bit <= 126,
            cases@.len() == 3 + 5 * 128 + 4 * 127 + 2 * bit,
            forall|m: int| 0 <= m < cases@.len() ==> #[trigger] pair_has_bits128(cases@[m], pats[m]),
        decreases 126 - bit,
    {
        // Five bits
        let x = 5i128 << bit;
        let y = 7i128 << bit;
        assert(has_bits128(x, crate::adder_wide::five_at(bit as int))) by {
            assert forall|i: int| 0 <= i < 128 implies #[trigger] i128_bit(x, i) == crate::adder_wide::five_at(bit as int)(i) by {
                lemma_i128_shl(5i128, bit, i as u32);
                if i >= bit {
                    lemma_i128_consts((i - bit) as u32);
                }
            }
        }
        assert(has_bits128(y, crate::adder_wide::seven_at(bit as int))) by {
            assert forall|i: int| 0 <= i < 128 implies #[trigger] i128_bit(y, i) == crate::adder_wide::seven_at(bit as int)(i) by {
                lemma_i128_shl(7i128, bit, i as u32);
                if i >= bit {
                    lemma_i128_consts((i - bit) as u32);
                }
            }
        }
        let ghost base = cases@.len() as int;
        cases.push((x, y));
        cases.push((y, x));
        proof {
            assert forall|m: int| base <= m < base + 2 implies #[trigger] pair_has_bits128(cases@[m], pats[m]) by {
                lemma_group(m - 3 - 5 * 128 - 4 * 127, 2, bit as int, m - base);
                assert(pats[m] == five_bit_pairs(128)[m - 3 - 5 * 128 - 4 * 127]);
            }
        }
        bit = bit + 1;
    }

    // Alternating bits
    let repeating: [u128; 3] = [0xAAAA_AAAA_AAAA_AAAA, 0x5555_5555_5555_5555, 0xFFFF_FFFF_FFFF_FFFF];
    proof {
        assert forall|k: int| 0 <= k < 3 implies has_bits128(#[trigger] repeating@[k] as i128, low_repeating(k)) by {
            assert forall|i: int| 0 <= i < 128 implies #[trigger] i128_bit(repeating@[k] as i128, i) == low_repeating(k)(i) by {
                lemma_u128_patterns(0, i as u32);
            }
        }
    }
    let ghost base = cases@.len() as int;
    let mut ia: usize = 0;
    while ia < 3
        invariant
            pats == test_pairs128(),
            base == 3 + 5 * 128 + 4 * 127 + 2 * 126,
            forall|k: int| 0 <= k < 3 ==> has_bits128(#[trigger] repeating@[k] as i128, low_repeating(k)),
            0 <= ia <= 3,
            cases@.len() == base + 3 * ia,
            forall|m: int| 0 <= m < cases@.len() ==> #[trigger] pair_has_bits128(cases@[m], pats[m]),
        decreases 3 - ia,
    {
        let mut ib: usize = 0;
        while ib < 3
            invariant
                pats == test_pairs128(),
                base == 3 + 5 * 128 + 4 * 127 + 2 * 126,
                forall|k: int| 0 <= k < 3 ==> has_bits128(#[trigger] repeating@[k] as i128, low_repeating(k)),
                0 <= ia < 3,
                0 <= ib <= 3,
                cases@.len() == base + 3 * ia + ib,
                forall|m: int| 0 <= m < cases@.len() ==> #[trigger] pair_has_bits128(cases@[m], pats[m]),
            decreases 3 - ib,
        {
            let ghost m = cases@.len() as int;
            cases.push((repeating[ia] as i128, repeating[ib] as i128));
            proof {
                lemma_group(m - base, 3, ia as int, ib as int);
                let pre = basic_pairs() + single_bit_pairs(128) + quad_pairs() + five_bit_pairs(128);
                assert(pre.len() == base);
                assert((pre + low_alternating_pairs())[m] == low_alternating_pairs()[m - base]);
                assert(pats == (pre + low_alternating_pairs()) + contiguous_pairs(128));
                assert(has_bits128(repeating@[ia as int] as i128, low_repeating(ia as int)));
                assert(has_bits128(repeating@[ib as int] as i128, low_repeating(ib as int)));
            }
            ib = ib + 1;
        }
        ia = ia + 1;
    }

    // Contiguous
    let ghost base5 = cases@.len() as int;
    let mut n: u32 = 0;
    while n < 128
        invariant
            pats == test_pairs128(),
            base5 == 3 + 5 * 128 + 4 * 127 + 2 * 126 + 9,
            0 <= n <= 128,
            cases@.len() == base5 + 2 * n,
            forall|m: int| 0 <= m < cases@.len() ==> #[trigger] pair_has_bits128(cases@[m], pats[m]),
        decreases 128 - n,
    {
        proof {
            lemma_u128_patterns(n, 0);
        }
        let a: u128 = ((1u128 << n) - 1) + (1u128 << n);
        let b: u128 = ((1u128 << n) - 1) + ((1u128 << n) - 1);
        let sa = a as i128;
        let sb = b as i128;
        assert(has_bits128(sa, crate::adder_wide::low_run(n + 1))) by {
            assert forall|i: int| 0 <= i < 128 implies #[trigger] i128_bit(sa, i) == crate::adder_wide::low_run(n + 1)(i) by {
                lemma_u128_patterns(n, i as u32);
            }
        }
        assert(has_bits128(sb, crate::adder_wide::run_from_one(n as int))) by {
            assert forall|i: int| 0 <= i < 128 implies #[trigger] i128_bit(sb, i) == crate::adder_wide::run_from_one(n as int)(i) by {
                lemma_u128_patterns(n, i as u32);
            }
        }
        let ghost k0 = cases@.len() as int;
        cases.push((sa, sb));
        cases.push((sb, sa));
        proof {
            assert forall|k: int| k0 <= k < k0 + 2 implies #[trigger] pair_has_bits128(cases@[k], pats[k]) by {
                lemma_group(k - base5, 2, n as int, k - k0);
                assert(pats[k] == contiguous_pairs(128)[k - base5]);
            }
        }
        n = n + 1;
    }
    cases
}

/// The hexadecimal text of an operand, or of 128 copies of `d` when it is missing.
pub open spec fn operand_hex(v: Option<i128>, d: LogicVal) -> Seq<char> {
    hex_string(
        match v {
            Some(x) => x.logic_view(),
            None => Seq::new(128, |_i: int| d),
        },
    )
}

/// The text of a test case: missing inputs are unknown (`X`), missing
/// outputs are "don't care" (`-`).
pub open spec fn state_text(st: AdderState) -> Seq<char> {
    case_text(
        operand_hex(st.input.a, LogicVal::ForceUnknown),
        operand_hex(st.input.b, LogicVal::ForceUnknown),
        bit_text(st.input.cin, LogicVal::ForceUnknown),
        operand_hex(st.output.s, LogicVal::NotCare),
        bit_text(st.output.cout, LogicVal::NotCare),
        bit_text(st.output.ovfl, LogicVal::NotCare),
    )
}

impl AdderState {
    /// The test case for `input`, with the outputs the adder gives.
    pub fn new(input: AdderIn) -> (r: Self)
        ensures
            r.input == input,
            performs(input, r.output),
    {
        let output = input.perform();
        AdderState { input, output }
    }

    /// The test case as a VHDL record aggregate.
    pub fn to_vhdl(self) -> (r: String)
        ensures
            r@ == state_text(self),
            ends_with_carry_fields(r@, self.output.cout, self.output.ovfl),
            starts_with_operand_fields(
                r@,
                operand_hex(self.input.a, LogicVal::ForceUnknown),
                operand_hex(self.input.b, LogicVal::ForceUnknown),
                self.input.cin,
                operand_hex(self.output.s, LogicVal::NotCare),
            ),
    {
        proof {
            lemma_record_carry_fields(self);
            lemma_record_operand_fields(self);
        }
        let i_d = LogicVal::ForceUnknown;
        let o_d = LogicVal::NotCare;
        let a = i128::as_logic_vec(self.input.a, i_d).to_hex_string();
        let b = i128::as_logic_vec(self.input.b, i_d).to_hex_string();
        let cin = bool::as_logic_vec(self.input.cin, i_d).to_bits_string();
        let s = i128::as_logic_vec(self.output.s, o_d).to_hex_string();
        let cout = bool::as_logic_vec(self.output.cout, o_d).to_bits_string();
        let ovfl = bool::as_logic_vec(self.output.ovfl, o_d).to_bits_string();
        proof {
            assert(Seq::new(1, |_i: int| i_d) =~= seq![i_d]);
            assert(Seq::new(1, |_i: int| o_d) =~= seq![o_d]);
        }
        case_string(a.as_str(), b.as_str(), cin.as_str(), s.as_str(), cout.as_str(), ovfl.as_str())
    }
}

/// The key of an optional operand: missing first, then by signed value.
pub open spec fn operand_key(v: Option<i128>) -> Seq<int> {
    match v {
        Some(x) => seq![1int, x as int],
        None => seq![0int, 0int],
    }
}

/// The key of an optional carry: missing, then `false`, then `true`.
pub open spec fn carry_key(c: Option<bool>) -> Seq<int> {
    match c {
        Some(b) => seq![1int, if b { 1int } else { 0int }],
        None => seq![0int, 0int],
    }
}

impl SortKey for AdderIn {
    /// Ordered by `a`, then `b`, then `cin`, each with a missing value first.
    open spec fn key(&self) -> Seq<int> {
        operand_key(self.a) + operand_key(self.b) + carry_key(self.cin)
    }

    open spec fn key_len() -> nat {
        6
    }

    proof fn lemma_key(x: Self, y: Self) {
        if x.key() == y.key() {
            assert(x.key()[0] == y.key()[0]);
            assert(x.key()[1] == y.key()[1]);
            assert(x.key()[2] == y.key()[2]);
            assert(x.key()[3] == y.key()[3]);
            assert(x.key()[4] == y.key()[4]);
            assert(x.key()[5] == y.key()[5]);
        }
    }

    fn key_vec(&self) -> (r: Vec<i128>) {
        let mut key: Vec<i128> = Vec::new();
        match self.a {
            Some(x) => {
                key.push(1);
                key.push(x);
            },
            None => {
                key.push(0);
                key.push(0);
            },
        }
        match self.b {
            Some(x) => {
                key.push(1);
                key.push(x);
            },
            None => {
                key.push(0);
                key.push(0);
            },
        }
        match self.cin {
            Some(c) => {
                key.push(1);
                key.push(if c { 1 } else { 0 });
            },
            None => {
                key.push(0);
                key.push(0);
            },
        }
        proof {
            assert(ints(key@) =~= self.key());
        }
        key
    }
}

/// Every operand pair with each carry in, `true` first.
pub fn cross_with_carries(pairs: &Vec<(i128, i128)>) -> (r: Vec<AdderIn>)
    ensures
        r@.len() == 2 * pairs@.len(),
        forall|k: int| 0 <= k < r@.len() ==> #[trigger] r@[k] == (AdderIn {
            a: Some(pairs@[k / 2].0),
            b: Some(pairs@[k / 2].1),
            cin: Some(k % 2 == 0),
        }),
{
    let mut r: Vec<AdderIn> = Vec::new();
    let mut k: usize = 0;
    while k < pairs.len()
        invariant
            0 <= k <= pairs@.len(),
            r@.len() == 2 * k,
            forall|j: int| 0 <= j < r@.len() ==> #[trigger] r@[j] == (AdderIn {
                a: Some(pairs@[j / 2].0),
                b: Some(pairs@[j / 2].1),
                cin: Some(j % 2 == 0),
            }),
        decreases pairs@.len() - k,
    {
        let (a, b) = pairs[k];
        r.push(AdderIn::new(a, b, true));
        r.push(AdderIn::new(a, b, false));
        proof {
            lemma_group(2 * k, 2, k as int, 0);
            lemma_group(2 * k + 1, 2, k as int, 1);
        }
        k = k + 1;
    }
    r
}

/// `inputs` are all the 128-bit test inputs: every operand pair, with carry
/// in `true` and then `false`.
pub open spec fn is_test_inputs(inputs: Seq<AdderIn>) -> bool {
    let pats = test_pairs128();
    &&& inputs.len() == 2 * pats.len()
    &&& forall|k: int| 0 <= k < inputs.len() ==> {
        let input = #[trigger] inputs[k];
        &&& input.a matches Some(x) && has_bits128(x, pats[k / 2].0)
        &&& input.b matches Some(y) && has_bits128(y, pats[k / 2].1)
        &&& input.cin == Some(k % 2 == 0)
    }
}

/// All 128-bit test cases: every test input once, in sorted order, with the
/// outputs the adder gives.
pub fn all_cases() -> (r: Vec<AdderState>)
    ensures
        exists|all: Seq<AdderIn>, uniq: Seq<AdderIn>| {
            &&& is_test_inputs(all)
            &&& strictly_sorted(uniq)
            &&& same_items(uniq, all)
            &&& r@.len() == uniq.len()
            &&& forall|k: int| 0 <= k < r@.len() ==> {
                &&& (#[trigger] r@[k]).input == uniq[k]
                &&& performs(r@[k].input, r@[k].output)
            }
        },
{
    let pairs = test_i128();
    let all = cross_with_carries(&pairs);
    let ghost all_view = all@;
    proof {
        assert forall|k: int| 0 <= k < all_view.len() implies {
            let input = #[trigger] all_view[k];
            &&& input.a matches Some(x) && has_bits128(x, test_pairs128()[k / 2].0)
            &&& input.b matches Some(y) && has_bits128(y, test_pairs128()[k / 2].1)
            &&& input.cin == Some(k % 2 == 0)
        } by {
            assert(pair_has_bits128(pairs@[k / 2], test_pairs128()[k / 2]));
        }
    }
    let inputs = sort_dedup(all);
    let mut cases: Vec<AdderState> = Vec::new();
    let mut k: usize = 0;
    while k < inputs.len()
        invariant
            0 <= k <= inputs@.len(),
            cases@.len() == k,
            forall|j: int| 0 <= j < k ==> {
                &&& (#[trigger] cases@[j]).input == inputs@[j]
                &&& performs(cases@[j].input, cases@[j].output)
            },
        decreases inputs@.len() - k,
    {
        cases.push(AdderState::new(inputs[k]));
        k = k + 1;
    }
    proof {
        assert(is_test_inputs(all_view));
    }
    cases
}

/// Overflow happens exactly when two operands of one sign give a wrapped sum
/// of the other sign.
pub proof fn lemma_overflow_sign_rule(a: i128, b: i128, cin: bool)
    ensures
        !(i128::MIN <= a + b + carry_value(cin) <= i128::MAX) <==> {
            let s = wrap_i128(a + b + carry_value(cin));
            (a >= 0 && b >= 0 && s < 0) || (a < 0 && b < 0 && s >= 0)
        },
{
    let x = a + b + carry_value(cin);
    let p = two_128();
    if x >= 0 {
        vstd::arithmetic::div_mod::lemma_fundamental_div_mod_converse(x, p, 0, x);
    } else {
        vstd::arithmetic::div_mod::lemma_fundamental_div_mod_converse(x, p, -1, x + p);
    }
}

/// `2^127` and `2^128` as powers of two.
proof fn lemma_pow2_127_128()
    ensures
        pow2(127) == two_127(),
        pow2(128) == two_128(),
{
    vstd::arithmetic::power2::lemma2_to64_rest();
    vstd::arithmetic::power2::lemma_pow2_adds(64, 63);
    vstd::arithmetic::power2::lemma_pow2_adds(64, 64);
}

/// The value of the lowest `j` bits of `v` is `v` modulo `2^j`.
proof fn lemma_u128_value(v: u128, j: nat)
    requires
        j <= 128,
    ensures
        bits_value(Seq::new(j, |i: int| (v >> (i as u128)) & 1u128 == 1u128)) as int == (v as int) % (pow2(j) as int),
    decreases j,
{
    vstd::arithmetic::power2::lemma_pow2_pos(j);
    if j == 0 {
        vstd::arithmetic::power2::lemma2_to64();
        assert((v as int) % 1 == 0);
    } else {
        let k = (j - 1) as nat;
        lemma_u128_value(v, k);
        let s = Seq::new(j, |i: int| (v >> (i as u128)) & 1u128 == 1u128);
        assert(s.drop_last() =~= Seq::new(k, |i: int| (v >> (i as u128)) & 1u128 == 1u128));
        vstd::bits::lemma_u128_shr_is_div(v, k as u128);
        let w = v >> (k as u128);
        assert((w & 1u128 == 1u128) == (w % 2 == 1)) by (bit_vector);
        vstd::arithmetic::power2::lemma_pow2_pos(k);
        vstd::arithmetic::div_mod::lemma_mod_breakdown(v as int, pow2(k) as int, 2);
        vstd::arithmetic::power2::lemma_pow2_unfold(j);
        vstd::arithmetic::mul::lemma_mul_is_commutative(pow2(k) as int, 2);
        let q = (v as int / pow2(k) as int) % 2;
        assert(w as int == v as int / pow2(k) as int);
        assert(s.last() == (q == 1));
        assert(q == 0 || q == 1);
        if q == 1 {
            assert(pow2(k) * q == pow2(k)) by (nonlinear_arith)
                requires
                    q == 1,
            ;
        } else {
            assert(pow2(k) * q == 0) by (nonlinear_arith)
                requires
                    q == 0,
            ;
        }
    }
}

/// The 128 bits of an `i128` stand for its unsigned reading, and the top bit
/// is its sign.
proof fn lemma_i128_bits_value(a: i128)
    ensures
        bits_value(Seq::new(128, |i: int| i128_bit(a, i))) == unsigned_of(a),
        i128_bit(a, 127) == (a < 0),
{
    lemma_u128_value(a as u128, 128);
    lemma_as_unsigned(a);
    lemma_pow2_127_128();
    assert(Seq::new(128, |i: int| i128_bit(a, i)) =~= Seq::new(128, |i: int| ((a as u128) >> (i as u128)) & 1u128 == 1u128));
    vstd::arithmetic::div_mod::lemma_small_mod((a as u128) as nat, pow2(128));
    assert((((a as u128) >> 127u128) & 1u128 == 1u128) == (a < 0)) by (bit_vector);
}

/// On 128 bits the wide adder computes what the 128-bit adder computes:
/// operands that carry the bits of `a` and `b` give a sum that carries the bits
/// of the 128-bit sum `t`, and the same carry out and overflow.
pub proof fn lemma_wide_adder_agrees(
    x: BitVec<128, 2>,
    y: BitVec<128, 2>,
    cin: bool,
    sum: BitVec<128, 2>,
    cout: bool,
    ovfl: bool,
    a: i128,
    b: i128,
    t: i128,
)
    requires
        forall|i: int| 0 <= i < 128 ==> #[trigger] x.raw_bit(i) == i128_bit(a, i),
        forall|i: int| 0 <= i < 128 ==> #[trigger] y.raw_bit(i) == i128_bit(b, i),
        forall|i: int| 0 <= i < 128 ==> #[trigger] sum.raw_bit(i) == i128_bit(t, i),
        x.adds_to(y, cin, sum, cout, ovfl),
    ensures
        performs(
            AdderIn { a: Some(a), b: Some(b), cin: Some(cin) },
            AdderOut { s: Some(t), cout: Some(cout), ovfl: Some(ovfl) },
        ),
{
    lemma_i128_bits_value(a);
    lemma_i128_bits_value(b);
    lemma_i128_bits_value(t);
    lemma_pow2_127_128();
    assert(x@ =~= Seq::new(128, |i: int| i128_bit(a, i)));
    assert(y@ =~= Seq::new(128, |i: int| i128_bit(b, i)));
    assert(sum@ =~= Seq::new(128, |i: int| i128_bit(t, i)));
    let p = two_128();
    let c = carry_value(cin);
    let total = unsigned_of(a) + unsigned_of(b) + c;
    let q = if cout { 1int } else { 0int };
    // the unsigned sum, its wrapped form and the signed sum agree modulo 2^128
    vstd::arithmetic::div_mod::lemma_fundamental_div_mod(total, p);
    assert(0 <= total < 2 * p);
    assert(total / p == q) by {
        if cout {
            vstd::arithmetic::div_mod::lemma_fundamental_div_mod_converse(total, p, 1, total - p);
        } else {
            vstd::arithmetic::div_mod::lemma_fundamental_div_mod_converse(total, p, 0, total);
        }
    }
    let r = total % p;
    let xs = a + b + c;
    let k = (if a < 0 { 1int } else { 0int }) + (if b < 0 { 1int } else { 0int });
    assert(xs == (q - k) * p + r) by (nonlinear_arith)
        requires
            total == q * p + r,
            total == xs + k * p,
    ;
    vstd::arithmetic::div_mod::lemma_fundamental_div_mod_converse(xs, p, q - k, r);
}

/// The record of every 128-bit test case writes its carry out in the `cout`
/// field and its overflow in the `ovfl` field (so `-1 + 1 + 0` reads
/// `cout => '1'`, `ovfl => '0'`).
pub proof fn lemma_record_carry_fields(st: AdderState)
    ensures
        ends_with_carry_fields(state_text(st), st.output.cout, st.output.ovfl),
{
    let tail = "\",\n  cout => '"@ + seq![output_char(st.output.cout)] + "',\n  ovfl => '"@
        + seq![output_char(st.output.ovfl)] + "'\n)"@;
    let head = "(\n  a    => x\""@ + operand_hex(st.input.a, LogicVal::ForceUnknown) + "\",\n  b    => x\""@
        + operand_hex(st.input.b, LogicVal::ForceUnknown) + "\",\n  cin  => '"@
        + bit_text(st.input.cin, LogicVal::ForceUnknown) + "',\n  s    => x\""@
        + operand_hex(st.output.s, LogicVal::NotCare);
    assert(bit_text(st.output.cout, LogicVal::NotCare) =~= seq![output_char(st.output.cout)]);
    assert(bit_text(st.output.ovfl, LogicVal::NotCare) =~= seq![output_char(st.output.ovfl)]);
    let text = state_text(st);
    assert(text =~= head + tail);
    assert(text.subrange(head.len() as int, text.len() as int) =~= tail);
}

/// The 128 logic values of an `i128`, read as a number, are its unsigned
/// reading.
pub proof fn lemma_i128_logic_value(a: i128)
    ensures
        a.logic_view().len() == 128,
        forall|i: int| 0 <= i < 128 ==> (#[trigger] a.logic_view()[i]) is Val,
        bits_value(Seq::new(128, |i: int| a.logic_view()[i] == LogicVal::Val(true))) == unsigned_of(a),
{
    lemma_i128_bits_value(a);
    assert(Seq::new(128, |i: int| a.logic_view()[i] == LogicVal::Val(true)) =~= Seq::new(128, |i: int| i128_bit(a, i)));
}

/// An `i128` with the bits of a pattern is the number that pattern stands for
/// (read as unsigned).
pub proof fn lemma_pattern_number(v: i128, p: BitSet)
    requires
        has_bits128(v, p),
    ensures
        unsigned_of(v) == pattern_value(128, p),
{
    lemma_i128_bits_value(v);
    assert(Seq::new(128, |i: int| i128_bit(v, i)) =~= Seq::new(128 as nat, p));
}

/// The triple- and four-bit pairs of the 128-bit tests: for each bit `b`
/// below the top, `(2^b, 3 * 2^b)`, `(3 * 2^b, 2^b)` and twice
/// `(3 * 2^b, 3 * 2^b)`; and the alternating pairs use the 64-bit patterns
/// `0xAAAA...`, `0x5555...` and all ones, at the low 64 bits only.
pub proof fn lemma_quad_and_alternating_pairs(b: int, k: int, i: int)
    requires
        0 <= b < 127,
        0 <= k < 9,
        0 <= i,
    ensures
        ({
            let pats = test_pairs128();
            let one = pow2(b as nat) as int;
            let q = 3 + 5 * 128 + 4 * b;
            let alt = 3 + 5 * 128 + 4 * 127 + 2 * 126 + k;
            &&& pattern_value(128, pats[q].0) == one && pattern_value(128, pats[q].1) == 3 * one
            &&& pattern_value(128, pats[q + 1].0) == 3 * one && pattern_value(128, pats[q + 1].1) == one
            &&& pattern_value(128, pats[q + 2].0) == 3 * one && pattern_value(128, pats[q + 2].1) == 3 * one
            &&& pattern_value(128, pats[q + 3].0) == 3 * one && pattern_value(128, pats[q + 3].1) == 3 * one
            &&& pats[alt].0(i) == (i < 64 && (if k / 3 == 0 { i % 2 == 1 } else if k / 3 == 1 { i % 2 == 0 } else { true }))
            &&& pats[alt].1(i) == (i < 64 && (if k % 3 == 0 { i % 2 == 1 } else if k % 3 == 1 { i % 2 == 0 } else { true }))
        }),
{
    let pats = test_pairs128();
    lemma_shifted_pattern_values(128, b);
    let p1 = basic_pairs() + single_bit_pairs(128);
    let p2 = p1 + quad_pairs();
    let p3 = p2 + five_bit_pairs(128);
    assert(pats == ((p3 + low_alternating_pairs()) + contiguous_pairs(128)));
    let q0 = 3 + 5 * 128;
    assert forall|r: int| 0 <= r < 4 implies #[trigger] pats[q0 + 4 * b + r] == quad_pairs()[4 * b + r] by {
        lemma_group(4 * b + r, 4, b, r);
    }
    assert forall|r: int| 0 <= r < 4 implies #[trigger] quad_pairs()[4 * b + r] == (if r == 0 { (bit_at(b), three_at(b)) } else if r == 1 { (three_at(b), bit_at(b)) } else { (three_at(b), three_at(b)) }) by {
        lemma_group(4 * b + r, 4, b, r);
    }
    assert(pats[q0 + 4 * b + 0] == quad_pairs()[4 * b + 0]);
    assert(pats[q0 + 4 * b + 1] == quad_pairs()[4 * b + 1]);
    assert(pats[q0 + 4 * b + 2] == quad_pairs()[4 * b + 2]);
    assert(pats[q0 + 4 * b + 3] == quad_pairs()[4 * b + 3]);
    assert(quad_pairs()[4 * b + 0] == (bit_at(b), three_at(b)));
    assert(quad_pairs()[4 * b + 1] == (three_at(b), bit_at(b)));
    assert(quad_pairs()[4 * b + 2] == (three_at(b), three_at(b)));
    assert(quad_pairs()[4 * b + 3] == (three_at(b), three_at(b)));
    let base = 3 + 5 * 128 + 4 * 127 + 2 * 126;
    assert(p3.len() == base);
    assert((p3 + low_alternating_pairs())[base + k] == low_alternating_pairs()[k]);
}

/// What the outputs of a 128-bit addition mean: without carry out, the
/// unsigned reading of the sum is the unsigned sum of the inputs (with it,
/// that sum less `2^128`); without overflow, the sum is the signed sum of the
/// inputs, and with overflow it is not.
pub proof fn lemma_adder_outputs(a: i128, b: i128, cin: bool, s: i128, cout: bool, ovfl: bool)
    requires
        performs(
            AdderIn { a: Some(a), b: Some(b), cin: Some(cin) },
            AdderOut { s: Some(s), cout: Some(cout), ovfl: Some(ovfl) },
        ),
    ensures
        unsigned_of(s) + (if cout { two_128() } else { 0 }) == unsigned_of(a) + unsigned_of(b) + carry_value(cin),
        !ovfl <==> s as int == a + b + carry_value(cin),
{
    let p = two_128();
    let x = a + b + carry_value(cin);
    let t = unsigned_of(a) + unsigned_of(b) + carry_value(cin);
    let k = (if a < 0 { 1int } else { 0int }) + (if b < 0 { 1int } else { 0int });
    assert(t == x + k * p);
    // the remainder of the signed sum, found by its range
    let r = if x >= 0 { x } else { x + p };
    if x >= 0 {
        vstd::arithmetic::div_mod::lemma_fundamental_div_mod_converse(x, p, 0, x);
    } else {
        vstd::arithmetic::div_mod::lemma_fundamental_div_mod_converse(x, p, -1, x + p);
    }
    assert(s as int == signed_of(r));
    assert(unsigned_of(s) == r);
}

/// The 128-bit tests share their basic, single-bit, five-bit and contiguous
/// pairs with the tests of any width taken at 128 bits (they differ only in
/// the triple-bit pairs, listed with a repeat, and in the 64-bit alternating
/// patterns).
pub proof fn lemma_pairs128_shared_sections(t: int)
    requires
        0 <= t,
    ensures
        t < 3 + 5 * 128 ==> test_pairs128()[t] == test_pair_bits(128)[t],
        t < 2 * 126 ==> test_pairs128()[3 + 5 * 128 + 4 * 127 + t] == test_pair_bits(128)[3 + 5 * 128 + 3 * 127 + t],
        t < 2 * 128 ==> test_pairs128()[3 + 5 * 128 + 4 * 127 + 2 * 126 + 9 + t]
            == test_pair_bits(128)[3 + 5 * 128 + 3 * 127 + 2 * 126 + 9 + t],
{
    let w = test_pair_bits(128);
    let l = test_pairs128();
    let w1 = basic_pairs() + single_bit_pairs(128);
    let l1 = w1;
    let w3 = w1 + triple_pairs(128) + five_bit_pairs(128);
    let l3 = l1 + quad_pairs() + five_bit_pairs(128);
    assert(w == (w3 + alternating_pairs()) + contiguous_pairs(128));
    assert(l == (l3 + low_alternating_pairs()) + contiguous_pairs(128));
    assert(w1.len() == 643);
    assert(w3.len() == 643 + 381 + 252);
    assert(l3.len() == 643 + 508 + 252);
}

/// The record of every test case writes operand `a`, operand `b`, the carry
/// in and the sum in their own fields, in that order.
pub proof fn lemma_record_operand_fields(st: AdderState)
    ensures
        starts_with_operand_fields(
            state_text(st),
            operand_hex(st.input.a, LogicVal::ForceUnknown),
            operand_hex(st.input.b, LogicVal::ForceUnknown),
            st.input.cin,
            operand_hex(st.output.s, LogicVal::NotCare),
        ),
{
    let head = "(\n  a    => x\""@ + operand_hex(st.input.a, LogicVal::ForceUnknown) + "\",\n  b    => x\""@
        + operand_hex(st.input.b, LogicVal::ForceUnknown) + "\",\n  cin  => '"@ + seq![input_char(st.input.cin)]
        + "',\n  s    => x\""@ + operand_hex(st.output.s, LogicVal::NotCare);
    let tail = "\",\n  cout => '"@ + bit_text(st.output.cout, LogicVal::NotCare) + "',\n  ovfl => '"@
        + bit_text(st.output.ovfl, LogicVal::NotCare) + "'\n)"@;
    assert(bit_text(st.input.cin, LogicVal::ForceUnknown) =~= seq![input_char(st.input.cin)]);
    let text = state_text(st);
    assert(text =~= head + tail);
    assert(text.subrange(0, head.len() as int) =~= head);
}

/// The hexadecimal text of a present 128-bit operand reads back, least
/// significant digit first, as logic values that stand for the operand's
/// unsigned reading.
pub proof fn lemma_operand_text_reads_back(a: i128, d: LogicVal)
    ensures
        from_hex_spec(operand_hex(Some(a), d).reverse(), 128) == a.logic_view(),
        bits_value(Seq::new(128, |i: int| from_hex_spec(operand_hex(Some(a), d).reverse(), 128)[i] == LogicVal::Val(true)))
            == unsigned_of(a),
{
    lemma_i128_logic_value(a);
    assert(all_driven(a.logic_view()));
    lemma_hex_write_read(a.logic_view());
}

} // verus!
