use vstd::prelude::*;
use crate::bit_vec::{BitVec, bits_value, lemma_run_value};
use vstd::arithmetic::power2::pow2;
use crate::logic_val::LogicVal;
use crate::logic_vec::{
    EnumLogicVec, hex_string, bits_string, from_hex_spec, lemma_hex_write_read, lemma_bit_vec_logic_values,
};
use crate::logic_val::all_driven;
use crate::order::{SortKey, ints, sort_dedup, strictly_sorted, same_items};
use crate::rng::{SimpleRng, shuffled};
use crate::word::{word_bit, lemma_word_patterns};
use crate::vhdl::{
    case_text, case_string, output_char, ends_with_carry_fields, input_char, starts_with_operand_fields,
};

verus! {

/// The inputs of an `N`-bit adder; a missing input is driven as unknown.
#[derive(Debug, Clone, Copy, Hash, PartialEq, Eq, PartialOrd, Ord)]
pub struct AdderIn<const N: usize, const WORDS: usize> {
    pub a: Option<BitVec<N, WORDS>>,
    pub b: Option<BitVec<N, WORDS>>,
    pub cin: Option<bool>,
}

/// The outputs of an `N`-bit adder; a missing output is "don't care".
#[derive(Debug, Clone, Copy, Hash, PartialEq, Eq, PartialOrd, Ord)]
pub struct AdderOut<const N: usize, const WORDS: usize> {
    pub s: Option<BitVec<N, WORDS>>,
    pub cout: Option<bool>,
    pub ovfl: Option<bool>,
}

/// One test case: adder inputs and the outputs expected for them.
#[derive(Debug, Clone, Copy, Hash, PartialEq, Eq, PartialOrd, Ord)]
pub struct AdderState<const N: usize, const WORDS: usize> {
    pub input: AdderIn<N, WORDS>,
    pub output: AdderOut<N, WORDS>,
}

/// `out` is what the adder gives for `input`: the sum, carry and overflow
/// of the inputs when all three are present, no outputs otherwise.
pub open spec fn performs<const N: usize, const WORDS: usize>(input: AdderIn<N, WORDS>, out: AdderOut<N, WORDS>) -> bool {
    match (input.a, input.b, input.cin) {
        (Some(a), Some(b), Some(cin)) => match (out.s, out.cout, out.ovfl) {
            (Some(s), Some(cout), Some(ovfl)) => a.adds_to(b, cin, s, cout, ovfl),
            _ => false,
        },
        _ => out.s is None && out.cout is None && out.ovfl is None,
    }
}

impl<const N: usize, const WORDS: usize> AdderOut<N, WORDS> {
    /// No outputs.
    pub fn none() -> (r: Self)
        ensures
            r.s is None && r.cout is None && r.ovfl is None,
    {
        AdderOut { s: None, cout: None, ovfl: None }
    }
}

impl<const N: usize, const WORDS: usize> AdderIn<N, WORDS> {
    /// All three inputs present.
    pub fn new(a: BitVec<N, WORDS>, b: BitVec<N, WORDS>, cin: bool) -> (r: Self)
        ensures
            r.a == Some(a) && r.b == Some(b) && r.cin == Some(cin),
    {
        AdderIn { a: Some(a), b: Some(b), cin: Some(cin) }
    }

    /// The outputs the adder gives for these inputs.
    pub fn perform(self) -> (r: AdderOut<N, WORDS>)
        requires
            BitVec::<N, WORDS>::fits(),
        ensures
            performs(self, r),
    {
        match (self.a, self.b, self.cin) {
            (Some(a), Some(b), Some(cin)) => {
                let (s, cout, ovfl) = a.add_with_carry(b, cin);
                AdderOut { s: Some(s), cout: Some(cout), ovfl: Some(ovfl) }
            },
            _ => AdderOut::none(),
        }
    }
}

/// The hexadecimal text of an operand, or of `N` copies of `d` when it is missing.
pub open spec fn operand_hex<const N: usize, const WORDS: usize>(v: Option<BitVec<N, WORDS>>, d: LogicVal) -> Seq<char> {
    hex_string(
        match v {
            Some(x) => x.logic_view(),
            None => Seq::new(N as nat, |_i: int| d),
        },
    )
}

/// The text of a one-bit signal, or of `d` when it is missing.
pub open spec fn bit_text(v: Option<bool>, d: LogicVal) -> Seq<char> {
    bits_string(
        match v {
            Some(b) => seq![LogicVal::Val(b)],
            None => seq![d],
        },
    )
}

/// The text of a test case: missing inputs are unknown (`X`), missing
/// outputs are "don't care" (`-`).
pub open spec fn state_text<const N: usize, const WORDS: usize>(st: AdderState<N, WORDS>) -> Seq<char> {
    case_text(
        operand_hex(st.input.a, LogicVal::ForceUnknown),
        operand_hex(st.input.b, LogicVal::ForceUnknown),
        bit_text(st.input.cin, LogicVal::ForceUnknown),
        operand_hex(st.output.s, LogicVal::NotCare),
        bit_text(st.output.cout, LogicVal::NotCare),
        bit_text(st.output.ovfl, LogicVal::NotCare),
    )
}

impl<const N: usize, const WORDS: usize> AdderState<N, WORDS> {
    /// The test case for `input`, with the outputs the adder gives.
    pub fn new(input: AdderIn<N, WORDS>) -> (r: Self)
        requires
            BitVec::<N, WORDS>::fits(),
        ensures
            r.input == input,
            performs(input, r.output),
    {
        let output = input.perform();
        AdderState { input, output }
    }

    /// The test case as a VHDL record aggregate.
    pub fn to_vhdl(self) -> (r: String)
        requires
            BitVec::<N, WORDS>::fits(),
            N % 4 == 0,
        ensures
            r@ == state_text(self),
            ends_with_carry_fields(r@, self.output.cout, self.output.ovfl),
            starts_with_operand_fields(
                r@,
                operand_hex(self.input.a, LogicVal::ForceUnknown),
                operand_hex(self.input.b, LogicVal::ForceUnknown),
                self.input.cin,
                operand_hex(self.output.s, LogicVal::NotCare),
            ),
    {
        proof {
            lemma_record_carry_fields(self);
            lemma_record_operand_fields(self);
        }
        let i_d = LogicVal::ForceUnknown;
        let o_d = LogicVal::NotCare;
        let a = BitVec::<N, WORDS>::as_logic_vec(self.input.a, i_d).to_hex_string();
        let b = BitVec::<N, WORDS>::as_logic_vec(self.input.b, i_d).to_hex_string();
        let cin = bool::as_logic_vec(self.input.cin, i_d).to_bits_string();
        let s = BitVec::<N, WORDS>::as_logic_vec(self.output.s, o_d).to_hex_string();
        let cout = bool::as_logic_vec(self.output.cout, o_d).to_bits_string();
        let ovfl = bool::as_logic_vec(self.output.ovfl, o_d).to_bits_string();
        proof {
            assert(Seq::new(1, |_i: int| i_d) =~= seq![i_d]);
            assert(Seq::new(1, |_i: int| o_d) =~= seq![o_d]);
        }
        case_string(a.as_str(), b.as_str(), cin.as_str(), s.as_str(), cout.as_str(), ovfl.as_str())
    }
}

/// The key of an optional operand: a tag (missing first) and then its words.
pub open spec fn operand_key<const N: usize, const WORDS: usize>(v: Option<BitVec<N, WORDS>>) -> Seq<int> {
    match v {
        Some(x) => seq![1int] + Seq::new(WORDS as nat, |k: int| x.words@[k] as int),
        None => seq![0int] + Seq::new(WORDS as nat, |k: int| 0int),
    }
}

/// The key of an optional carry: missing, then `false`, then `true`.
pub open spec fn carry_key(c: Option<bool>) -> Seq<int> {
    match c {
        Some(b) => seq![1int, if b { 1int } else { 0int }],
        None => seq![0int, 0int],
    }
}

fn push_operand_key<const N: usize, const WORDS: usize>(key: &mut Vec<i128>, v: Option<BitVec<N, WORDS>>)
    ensures
        ints(final(key)@) == ints(old(key)@) + operand_key(v),
{
    let ghost start = ints(key@);
    match v {
        Some(x) => {
            key.push(1);
            let mut k: usize = 0;
            while k < WORDS
                invariant
                    0 <= k <= WORDS,
                    ints(key@) == start + seq![1int] + Seq::new(k as nat, |j: int| x.words@[j] as int),
                decreases WORDS - k,
            {
                let ghost before = ints(key@);
                key.push(x.words[k] as i128);
                proof {
                    assert(ints(key@) =~= before.push(x.words@[k as int] as int));
                    assert(Seq::new((k + 1) as nat, |j: int| x.words@[j] as int)
                        =~= Seq::new(k as nat, |j: int| x.words@[j] as int).push(x.words@[k as int] as int));
                }
                k = k + 1;
            }
            proof {
                assert(ints(key@) =~= start + operand_key(v));
            }
        },
        None => {
            key.push(0);
            let mut k: usize = 0;
            while k < WORDS
                invariant
                    0 <= k <= WORDS,
                    ints(key@) == start + seq![0int] + Seq::new(k as nat, |j: int| 0int),
                decreases WORDS - k,
            {
                let ghost before = ints(key@);
                key.push(0);
                proof {
                    assert(ints(key@) =~= before.push(0int));
                    assert(Seq::new((k + 1) as nat, |j: int| 0int) =~= Seq::new(k as nat, |j: int| 0int).push(0int));
                }
                k = k + 1;
            }
            proof {
                assert(ints(key@) =~= start + operand_key(v));
            }
        },
    }
}

/// Equal operand keys belong to equal operands.
proof fn lemma_operand_key<const N: usize, const WORDS: usize>(x: Option<BitVec<N, WORDS>>, y: Option<BitVec<N, WORDS>>)
    ensures
        operand_key(x).len() == WORDS + 1,
        operand_key(x) == operand_key(y) ==> x == y,
{
    if operand_key(x) == operand_key(y) {
        assert(operand_key(x)[0] == operand_key(y)[0]);
        if let (Some(p), Some(q)) = (x, y) {
            assert forall|k: int| 0 <= k < WORDS implies p.words@[k] == q.words@[k] by {
                assert(operand_key(x)[k + 1] == operand_key(y)[k + 1]);
            }
            assert(p.words =~= q.words);
        }
    }
}

impl<const N: usize, const WORDS: usize> SortKey for AdderIn<N, WORDS> {
    /// Ordered by `a`, then `b`, then `cin`, each with a missing value first;
    /// operands are ordered word by word from the least significant word.
    open spec fn key(&self) -> Seq<int> {
        operand_key(self.a) + operand_key(self.b) + carry_key(self.cin)
    }

    open spec fn key_len() -> nat {
        (2 * WORDS + 4) as nat
    }

    proof fn lemma_key(x: Self, y: Self) {
        lemma_operand_key(x.a, y.a);
        lemma_operand_key(x.b, y.b);
        lemma_operand_key(y.a, x.a);
        lemma_operand_key(y.b, x.b);
        if x.key() == y.key() {
            let w = WORDS as int;
            assert(x.key().subrange(0, w + 1) =~= operand_key(x.a));
            assert(y.key().subrange(0, w + 1) =~= operand_key(y.a));
            assert(x.key().subrange(w + 1, 2 * w + 2) =~= operand_key(x.b));
            assert(y.key().subrange(w + 1, 2 * w + 2) =~= operand_key(y.b));
            assert(x.key().subrange(2 * w + 2, 2 * w + 4) =~= carry_key(x.cin));
            assert(y.key().subrange(2 * w + 2, 2 * w + 4) =~= carry_key(y.cin));
            assert(carry_key(x.cin)[0] == carry_key(y.cin)[0]);
            assert(carry_key(x.cin)[1] == carry_key(y.cin)[1]);
        }
    }

    fn key_vec(&self) -> (r: Vec<i128>) {
        let mut key: Vec<i128> = Vec::new();
        proof {
            assert(ints(key@) =~= Seq::<int>::empty());
        }
        push_operand_key(&mut key, self.a);
        push_operand_key(&mut key, self.b);
        let ghost before = ints(key@);
        match self.cin {
            Some(b) => {
                key.push(1);
                key.push(if b { 1 } else { 0 });
            },
            None => {
                key.push(0);
                key.push(0);
            },
        }
        proof {
            assert(ints(key@) =~= before + carry_key(self.cin));
            assert(ints(key@) =~= self.key());
        }
        key
    }
}

/// A set of bit positions, given by its membership test.
pub type BitSet = spec_fn(int) -> bool;

/// No bit.
pub open spec fn no_bits() -> BitSet {
    |i: int| false
}

/// Every bit.
pub open spec fn all_bits() -> BitSet {
    |i: int| true
}

/// Bit `b` alone (the number `1 << b`).
pub open spec fn bit_at(b: int) -> BitSet {
    |i: int| i == b
}

/// Bits `b` and `b + 1` (the number `3 << b`).
pub open spec fn three_at(b: int) -> BitSet {
    |i: int| i == b || i == b + 1
}

/// Bits `b` and `b + 2` (the number `5 << b`).
pub open spec fn five_at(b: int) -> BitSet {
    |i: int| i == b || i == b + 2
}

/// Bits `b` to `b + 2` (the number `7 << b`).
pub open spec fn seven_at(b: int) -> BitSet {
    |i: int| b <= i <= b + 2
}

/// Every other bit: the odd positions (pattern `0xAAAA...`) or the even
/// ones (pattern `0x5555...`).
pub open spec fn alternating(odd: bool) -> BitSet {
    |i: int| (i % 2 == 1) == odd
}

/// The bits below `c` (the number `2^c - 1`).
pub open spec fn low_run(c: int) -> BitSet {
    |i: int| 0 <= i < c
}

/// Bits `1` to `c` (the number `2^(c + 1) - 2`).
pub open spec fn run_from_one(c: int) -> BitSet {
    |i: int| 1 <= i <= c
}

/// The basic pairs: zero plus zero, all ones plus zero, zero plus all ones.
pub open spec fn basic_pairs() -> Seq<(BitSet, BitSet)> {
    seq![(no_bits(), no_bits()), (all_bits(), no_bits()), (no_bits(), all_bits())]
}

/// For every bit `v`: `(v, 0)`, `(0, v)`, `(v, v)` and the carry chains
/// `(v, ones)`, `(ones, v)`.
pub open spec fn single_bit_pairs(n: int) -> Seq<(BitSet, BitSet)> {
    Seq::new((5 * n) as nat, |t: int| {
        let v = bit_at(t / 5);
        let r = t % 5;
        if r == 0 {
            (v, no_bits())
        } else if r == 1 {
            (no_bits(), v)
        } else if r == 2 {
            (v, v)
        } else if r == 3 {
            (v, all_bits())
        } else {
            (all_bits(), v)
        }
    })
}

/// For every bit below the top: three and four bits set, `1 << b` with
/// `3 << b` both ways round and `3 << b` with itself.
pub open spec fn triple_pairs(n: int) -> Seq<(BitSet, BitSet)> {
    Seq::new((3 * (n - 1)) as nat, |t: int| {
        let x = bit_at(t / 3);
        let y = three_at(t / 3);
        let r = t % 3;
        if r == 0 {
            (x, y)
        } else if r == 1 {
            (y, x)
        } else {
            (y, y)
        }
    })
}

/// For every bit below the top two: five bits set, `5 << b` with `7 << b`
/// both ways round.
pub open spec fn five_bit_pairs(n: int) -> Seq<(BitSet, BitSet)> {
    let m = if n >= 2 { n - 2 } else { 0 };
    Seq::new((2 * m) as nat, |t: int| {
        let x = five_at(t / 2);
        let y = seven_at(t / 2);
        if t % 2 == 0 {
            (x, y)
        } else {
            (y, x)
        }
    })
}

/// The full-width patterns: the odd bits, the even bits, all bits.
pub open spec fn repeating(k: int) -> BitSet {
    if k == 0 {
        alternating(true)
    } else if k == 1 {
        alternating(false)
    } else {
        all_bits()
    }
}

/// Every pair of full-width patterns.
pub open spec fn alternating_pairs() -> Seq<(BitSet, BitSet)> {
    Seq::new(9, |t: int| (repeating(t / 3), repeating(t % 3)))
}

/// For every `m` below `n`: `2^(m + 1) - 1` with `2^(m + 1) - 2` both ways
/// round (contiguous runs of set bits).
pub open spec fn contiguous_pairs(n: int) -> Seq<(BitSet, BitSet)> {
    Seq::new((2 * n) as nat, |t: int| {
        let a = low_run(t / 2 + 1);
        let b = run_from_one(t / 2);
        if t % 2 == 0 {
            (a, b)
        } else {
            (b, a)
        }
    })
}

/// All operand pairs the test generator produces for width `n`, in order.
pub open spec fn test_pair_bits(n: int) -> Seq<(BitSet, BitSet)> {
    basic_pairs() + single_bit_pairs(n) + triple_pairs(n) + five_bit_pairs(n) + alternating_pairs()
        + contiguous_pairs(n)
}

/// The set bits of `v` are the positions below `N` in `p`.
pub open spec fn has_bits<const N: usize, const WORDS: usize>(v: BitVec<N, WORDS>, p: BitSet) -> bool {
    forall|i: int| 0 <= i < 64 * WORDS ==> #[trigger] v.raw_bit(i) == (i < N && p(i))
}

/// The pair of operands has the pair of bit sets.
pub open spec fn pair_has_bits<const N: usize, const WORDS: usize>(
    v: (BitVec<N, WORDS>, BitVec<N, WORDS>),
    p: (BitSet, BitSet),
) -> bool {
    has_bits(v.0, p.0) && has_bits(v.1, p.1)
}

/// `t` splits into `q` groups of `d` and a rest `r`.
pub proof fn lemma_group(t: int, d: int, q: int, r: int)
    requires
        d > 0,
        q >= 0,
        0 <= r < d,
        t == d * q + r,
    ensures
        t / d == q,
        t % d == r,
{
    assert(t == q * d + r) by (nonlinear_arith)
        requires
            t == d * q + r,
    ;
    vstd::arithmetic::div_mod::lemma_fundamental_div_mod_converse(t, d, q, r);
}

/// The operand pairs for adder tests of width `N`.
pub fn generate_test_pairs<const N: usize, const WORDS: usize>() -> (tests: Vec<(BitVec<N, WORDS>, BitVec<N, WORDS>)>)
    requires
        BitVec::<N, WORDS>::shape_ok(),
    ensures
        tests@.len() == test_pair_bits(N as int).len(),
        forall|m: int| 0 <= m < tests@.len() ==> #[trigger] pair_has_bits(tests@[m], test_pair_bits(N as int)[m]),
{
    let ghost pats = test_pair_bits(N as int);
    let ghost n = N as int;
    let zero = BitVec::<N, WORDS>::zero();
    let ones = BitVec::<N, WORDS>::ones();
    assert(has_bits(zero, no_bits()));
    assert(has_bits(ones, all_bits()));
    let mut tests: Vec<(BitVec<N, WORDS>, BitVec<N, WORDS>)> = Vec::new();

    // Basic cases
    tests.push((zero, zero));
    tests.push((ones, zero));
    tests.push((zero, ones));
    assert forall|m: int| 0 <= m < tests@.len() implies #[trigger] pair_has_bits(tests@[m], pats[m]) by {
        assert(pats[m] == basic_pairs()[m]);
    }

    // Single bits, pair bits and carry chains
    let mut bit: usize = 0;
    while bit < N
        invariant
            BitVec::<N, WORDS>::shape_ok(),
            pats == test_pair_bits(n),
            n == N,
            has_bits(zero, no_bits()),
            has_bits(ones, all_bits()),
            0 <= bit <= N,
            tests@.len() == 3 + 5 * bit,
            forall|m: int| 0 <= m < tests@.len() ==> #[trigger] pair_has_bits(tests@[m], pats[m]),
        decreases N - bit,
    {
        let v = BitVec::<N, WORDS>::single_bit(bit);
        assert(has_bits(v, bit_at(bit as int)));
        let ghost base = tests@.len() as int;
        tests.push((v, zero));
        tests.push((zero, v));
        tests.push((v, v));
        tests.push((v, ones));
        tests.push((ones, v));
        proof {
            assert forall|m: int| base <= m < base + 5 implies #[trigger] pair_has_bits(tests@[m], pats[m]) by {
                lemma_group(m - 3, 5, bit as int, m - base);
                assert(pats[m] == single_bit_pairs(n)[m - 3]);
            }
        }
        bit = bit + 1;
    }

    // Triple and four bits: patterns 1 and 3 shifted
    let top = N - 1;
    let three = BitVec::<N, WORDS>::from_u64(3);
    let mut bit: usize = 0;
    while bit < top
        invariant
            BitVec::<N, WORDS>::shape_ok(),
            pats == test_pair_bits(n),
            n == N,
            top == N - 1,
            forall|i: int| 0 <= i < 64 * WORDS ==> #[trigger] three.raw_bit(i) == (i < N && i < 64 && word_bit(3u64, i as u64)),
            0 <= bit <= top,
            tests@.len() == 3 + 5 * n + 3 * bit,
            forall|m: int| 0 <= m < tests@.len() ==> #[trigger] pair_has_bits(tests@[m], pats[m]),
        decreases top - bit,
    {
        let x = BitVec::<N, WORDS>::single_bit(bit);
        let y = three.shl(bit);
        assert(has_bits(x, bit_at(bit as int)));
        assert(has_bits(y, three_at(bit as int))) by {
            assert forall|i: int| 0 <= i < 64 * WORDS implies #[trigger] y.raw_bit(i) == (i < N && three_at(bit as int)(i)) by {
                if i >= bit && i - bit < 64 {
                    lemma_word_patterns((i - bit) as u64);
                }
            }
        }
        let ghost base = tests@.len() as int;
        tests.push((x, y));
        tests.push((y, x));
        tests.push((y, y));
        proof {
            assert forall|m: int| base <= m < base + 3 implies #[trigger] pair_has_bits(tests@[m], pats[m]) by {
                lemma_group(m - 3 - 5 * n, 3, bit as int, m - base);
                assert(pats[m] == triple_pairs(n)[m - 3 - 5 * n]);
            }
        }
        bit = bit + 1;
    }

    // Five bits: patterns 5 and 7 shifted
    let top2 = if N >= 2 { N - 2 } else { 0 };
    let five = BitVec::<N, WORDS>::from_u64(5);
    let seven = BitVec::<N, WORDS>::from_u64(7);
    let mut bit: usize = 0;
    while bit < top2
        invariant
            BitVec::<N, WORDS>::shape_ok(),
            pats == test_pair_bits(n),
            n == N,
            top2 == if N >= 2 { N - 2 } else { 0 },
            forall|i: int| 0 <= i < 64 * WORDS ==> #[trigger] five.raw_bit(i) == (i < N && i < 64 && word_bit(5u64, i as u64)),
            forall|i: int| 0 <= i < 64 * WORDS ==> #[trigger] seven.raw_bit(i) == (i < N && i < 64 && word_bit(7u64, i as u64)),
            0 <= bit <= top2,
            tests@.len() == 3 + 5 * n + 3 * (n - 1) + 2 * bit,
            forall|m: int| 0 <= m < tests@.len() ==> #[trigger] pair_has_bits(tests@[m], pats[m]),
        decreases top2 - bit,
    {
        let x = five.shl(bit);
        let y = seven.shl(bit);
        assert(has_bits(x, five_at(bit as int))) by {
            assert forall|i: int| 0 <= i < 64 * WORDS implies #[trigger] x.raw_bit(i) == (i < N && five_at(bit as int)(i)) by {
                if i >= bit && i - bit < 64 {
                    lemma_word_patterns((i - bit) as u64);
                }
            }
        }
        assert(has_bits(y, seven_at(bit as int))) by {
            assert forall|i: int| 0 <= i < 64 * WORDS implies #[trigger] y.raw_bit(i) == (i < N && seven_at(bit as int)(i)) by {
                if i >= bit && i - bit < 64 {
                    lemma_word_patterns((i - bit) as u64);
                }
            }
        }
        let ghost base = tests@.len() as int;
        tests.push((x, y));
        tests.push((y, x));
        proof {
            assert forall|m: int| base <= m < base + 2 implies #[trigger] pair_has_bits(tests@[m], pats[m]) by {
                lemma_group(m - 3 - 5 * n - 3 * (n - 1), 2, bit as int, m - base);
                assert(pats[m] == five_bit_pairs(n)[m - 3 - 5 * n - 3 * (n - 1)]);
            }
        }
        bit = bit + 1;
    }

    // Alternating bit patterns (full width)
    let rep_a = BitVec::<N, WORDS>::from_repeating_u64(0xAAAA_AAAA_AAAA_AAAA);
    let rep_5 = BitVec::<N, WORDS>::from_repeating_u64(0x5555_5555_5555_5555);
    let rep_1 = BitVec::<N, WORDS>::ones();
    assert(has_bits(rep_a, repeating(0))) by {
        assert forall|i: int| 0 <= i < 64 * WORDS implies #[trigger] rep_a.raw_bit(i) == (i < N && repeating(0)(i)) by {
            lemma_word_patterns((i % 64) as u64);
        }
    }
    assert(has_bits(rep_5, repeating(1))) by {
        assert forall|i: int| 0 <= i < 64 * WORDS implies #[trigger] rep_5.raw_bit(i) == (i < N && repeating(1)(i)) by {
            lemma_word_patterns((i % 64) as u64);
        }
    }
    assert(has_bits(rep_1, repeating(2)));
    let repeating_vals = [rep_a, rep_5, rep_1];
    let ghost base = tests@.len() as int;
    let mut ia: usize = 0;
    while ia < 3
        invariant
            pats == test_pair_bits(n),
            n == N,
            n >= 1,
            base == 3 + 5 * n + 3 * (n - 1) + 2 * (if n >= 2 { n - 2 } else { 0 }),
            forall|k: int| 0 <= k < 3 ==> has_bits(#[trigger] repeating_vals@[k], repeating(k)),
            0 <= ia <= 3,
            tests@.len() == base + 3 * ia,
            forall|m: int| 0 <= m < tests@.len() ==> #[trigger] pair_has_bits(tests@[m], pats[m]),
        decreases 3 - ia,
    {
        let mut ib: usize = 0;
        while ib < 3
            invariant
                pats == test_pair_bits(n),
                n == N,
                n >= 1,
                base == 3 + 5 * n + 3 * (n - 1) + 2 * (if n >= 2 { n - 2 } else { 0 }),
                forall|k: int| 0 <= k < 3 ==> has_bits(#[trigger] repeating_vals@[k], repeating(k)),
                0 <= ia < 3,
                0 <= ib <= 3,
                tests@.len() == base + 3 * ia + ib,
                forall|m: int| 0 <= m < tests@.len() ==> #[trigger] pair_has_bits(tests@[m], pats[m]),
            decreases 3 - ib,
        {
            let ghost m = tests@.len() as int;
            tests.push((repeating_vals[ia], repeating_vals[ib]));
            proof {
                lemma_group(m - base, 3, ia as int, ib as int);
                assert(five_bit_pairs(n).len() == 2 * (if n >= 2 { n - 2 } else { 0 }));
                let pre = basic_pairs() + single_bit_pairs(n) + triple_pairs(n) + five_bit_pairs(n);
                assert(pre.len() == base);
                assert((pre + alternating_pairs())[m] == alternating_pairs()[m - base]);
                assert(pats == (pre + alternating_pairs()) + contiguous_pairs(n));
                assert(pats[m] == alternating_pairs()[m - base]);
                assert(has_bits(repeating_vals@[ia as int], repeating(ia as int)));
                assert(has_bits(repeating_vals@[ib as int], repeating(ib as int)));
                assert(pair_has_bits(tests@[m], pats[m]));
            }
            ib = ib + 1;
        }
        ia = ia + 1;
    }

    // Contiguous bit regions
    let ghost base5 = tests@.len() as int;
    let mut m: usize = 0;
    while m < N
        invariant
            BitVec::<N, WORDS>::shape_ok(),
            pats == test_pair_bits(n),
            n == N,
            has_bits(zero, no_bits()),
            base5 == 3 + 5 * n + 3 * (n - 1) + 2 * (if n >= 2 { n - 2 } else { 0 }) + 9,
            0 <= m <= N,
            tests@.len() == base5 + 2 * m,
            forall|k: int| 0 <= k < tests@.len() ==> #[trigger] pair_has_bits(tests@[k], pats[k]),
        decreases N - m,
    {
        // a = 2^(m+1) - 1, b = 2^(m+1) - 2
        let a = BitVec::<N, WORDS>::low_bits_set(m + 1);
        let b = if m == 0 {
            zero
        } else {
            BitVec::<N, WORDS>::low_bits_set(m).shl(1)
        };
        assert(has_bits(a, low_run(m + 1int)));
        assert(has_bits(b, run_from_one(m as int)));
        let ghost k0 = tests@.len() as int;
        tests.push((a, b));
        tests.push((b, a));
        proof {
            assert forall|k: int| k0 <= k < k0 + 2 implies #[trigger] pair_has_bits(tests@[k], pats[k]) by {
                lemma_group(k - base5, 2, m as int, k - k0);
                assert(pats[k] == contiguous_pairs(n)[k - base5]);
            }
        }
        m = m + 1;
    }
    tests
}

/// Every operand pair with each carry in, `true` first.
pub fn cross_with_carries<const N: usize, const WORDS: usize>(pairs: &Vec<(BitVec<N, WORDS>, BitVec<N, WORDS>)>) -> (r: Vec<AdderIn<N, WORDS>>)
    ensures
        r@.len() == 2 * pairs@.len(),
        forall|k: int| 0 <= k < r@.len() ==> #[trigger] r@[k] == (AdderIn {
            a: Some(pairs@[k / 2].0),
            b: Some(pairs@[k / 2].1),
            cin: Some(k % 2 == 0),
        }),
{
    let mut r: Vec<AdderIn<N, WORDS>> = Vec::new();
    let mut k: usize = 0;
    while k < pairs.len()
        invariant
            0 <= k <= pairs@.len(),
            r@.len() == 2 * k,
            forall|j: int| 0 <= j < r@.len() ==> #[trigger] r@[j] == (AdderIn {
                a: Some(pairs@[j / 2].0),
                b: Some(pairs@[j / 2].1),
                cin: Some(j % 2 == 0),
            }),
        decreases pairs@.len() - k,
    {
        let (a, b) = pairs[k];
        r.push(AdderIn::new(a, b, true));
        r.push(AdderIn::new(a, b, false));
        proof {
            lemma_group(2 * k, 2, k as int, 0);
            lemma_group(2 * k + 1, 2, k as int, 1);
        }
        k = k + 1;
    }
    r
}

/// `inputs` are all the test inputs for width `N`: every generated operand
/// pair, with carry in `true` and then `false`.
pub open spec fn is_test_inputs<const N: usize, const WORDS: usize>(inputs: Seq<AdderIn<N, WORDS>>) -> bool {
    let pats = test_pair_bits(N as int);
    &&& inputs.len() == 2 * pats.len()
    &&& forall|k: int| 0 <= k < inputs.len() ==> {
        let input = #[trigger] inputs[k];
        &&& input.a matches Some(x) && has_bits(x, pats[k / 2].0)
        &&& input.b matches Some(y) && has_bits(y, pats[k / 2].1)
        &&& input.cin == Some(k % 2 == 0)
    }
}

/// The state of a generator made from `seed`.
pub open spec fn seed_state(seed: u64) -> u64 {
    if seed == 0 { 1 } else { seed }
}

/// The test cases for width `N`: all test inputs, each once, in sorted order,
/// shuffled by a generator seeded with `seed`; the first `count` of them with
/// the outputs the adder gives. Also returns how many distinct inputs there are.
pub fn select_cases<const N: usize, const WORDS: usize>(count: usize, seed: u64) -> (r: (Vec<AdderState<N, WORDS>>, usize))
    requires
        BitVec::<N, WORDS>::shape_ok(),
    ensures
        exists|all: Seq<AdderIn<N, WORDS>>, uniq: Seq<AdderIn<N, WORDS>>| {
            &&& is_test_inputs(all)
            &&& strictly_sorted(uniq)
            &&& same_items(uniq, all)
            &&& r.1 == uniq.len()
            &&& r.0@.len() == if count < uniq.len() { count as int } else { uniq.len() as int }
            &&& forall|k: int| 0 <= k < r.0@.len() ==> {
                &&& (#[trigger] r.0@[k]).input == shuffled(uniq, seed_state(seed)).0[k]
                &&& performs(r.0@[k].input, r.0@[k].output)
            }
        },
{
    let pairs = generate_test_pairs::<N, WORDS>();
    let all = cross_with_carries(&pairs);
    let ghost all_view = all@;
    proof {
        assert forall|k: int| 0 <= k < all_view.len() implies {
            let input = #[trigger] all_view[k];
            &&& input.a matches Some(x) && has_bits(x, test_pair_bits(N as int)[k / 2].0)
            &&& input.b matches Some(y) && has_bits(y, test_pair_bits(N as int)[k / 2].1)
            &&& input.cin == Some(k % 2 == 0)
        } by {
            assert(pair_has_bits(pairs@[k / 2], test_pair_bits(N as int)[k / 2]));
        }
    }
    let mut inputs = sort_dedup(all);
    let ghost uniq = inputs@;
    let total = inputs.len();
    let mut rng = SimpleRng::new(seed);
    rng.shuffle(inputs.as_mut_slice());
    let ghost mixed = inputs@;
    proof {
        crate::rng::lemma_shuffle_permutes(uniq, seed_state(seed), uniq.len() - 1);
    }
    inputs.truncate(count);
    let mut cases: Vec<AdderState<N, WORDS>> = Vec::new();
    let mut k: usize = 0;
    while k < inputs.len()
        invariant
            BitVec::<N, WORDS>::shape_ok(),
            0 <= k <= inputs@.len(),
            cases@.len() == k,
            forall|j: int| 0 <= j < k ==> {
                &&& (#[trigger] cases@[j]).input == inputs@[j]
                &&& performs(cases@[j].input, cases@[j].output)
            },
        decreases inputs@.len() - k,
    {
        cases.push(AdderState::new(inputs[k]));
        k = k + 1;
    }
    proof {
        assert(mixed == shuffled(uniq, seed_state(seed)).0);
        assert(is_test_inputs(all_view));
    }
    (cases, total)
}

/// The contiguous test operands stand for `2^(m + 1) - 1` and `2^(m + 1) - 2`.
pub proof fn lemma_contiguous_values<const N: usize, const WORDS: usize>(x: BitVec<N, WORDS>, y: BitVec<N, WORDS>, m: nat)
    requires
        BitVec::<N, WORDS>::shape_ok(),
        m < N,
        has_bits(x, low_run(m + 1int)),
        has_bits(y, run_from_one(m as int)),
    ensures
        x.value() == pow2(m + 1) - 1,
        y.value() == pow2(m + 1) - 2,
{
    crate::bit_vec::lemma_run_value(N as nat, 0, m + 1);
    crate::bit_vec::lemma_run_value(N as nat, 1, m + 1);
    assert forall|i: int| 0 <= i < N implies #[trigger] x@[i] == Seq::new(N as nat, |i: int| 0 <= i < m + 1)[i] by {
        assert(x.raw_bit(i) == (i < N && low_run(m + 1int)(i)));
    }
    assert forall|i: int| 0 <= i < N implies #[trigger] y@[i] == Seq::new(N as nat, |i: int| 1 <= i < m + 1)[i] by {
        assert(y.raw_bit(i) == (i < N && run_from_one(m as int)(i)));
    }
    assert(x@ =~= Seq::new(N as nat, |i: int| 0 <= i < m + 1));
    assert(y@ =~= Seq::new(N as nat, |i: int| 1 <= i < m + 1));
    vstd::arithmetic::power2::lemma2_to64();
}

/// The record of every test case writes its carry out in the `cout` field and
/// its overflow in the `ovfl` field.
pub proof fn lemma_record_carry_fields<const N: usize, const WORDS: usize>(st: AdderState<N, WORDS>)
    ensures
        ends_with_carry_fields(state_text(st), st.output.cout, st.output.ovfl),
{
    let tail = "\",\n  cout => '"@ + seq![output_char(st.output.cout)] + "',\n  ovfl => '"@
        + seq![output_char(st.output.ovfl)] + "'\n)"@;
    let head = "(\n  a    => x\""@ + operand_hex(st.input.a, LogicVal::ForceUnknown) + "\",\n  b    => x\""@
        + operand_hex(st.input.b, LogicVal::ForceUnknown) + "\",\n  cin  => '"@
        + bit_text(st.input.cin, LogicVal::ForceUnknown) + "',\n  s    => x\""@
        + operand_hex(st.output.s, LogicVal::NotCare);
    assert(bit_text(st.output.cout, LogicVal::NotCare) =~= seq![output_char(st.output.cout)]);
    assert(bit_text(st.output.ovfl, LogicVal::NotCare) =~= seq![output_char(st.output.ovfl)]);
    let text = state_text(st);
    assert(text =~= head + tail);
    assert(text.subrange(head.len() as int, text.len() as int) =~= tail);
}

/// The alternating operand pairs cover the full width: in pair `k` of that
/// section the first operand is the odd bits (`0xAAAA...`), the even bits
/// (`0x5555...`) or all bits for `k / 3` equal to 0, 1, 2, and the second
/// likewise for `k % 3`, at every bit position, not only the lowest 64.
pub proof fn lemma_alternating_pairs_full_width(n: int, k: int, i: int)
    requires
        n >= 1,
        0 <= k < 9,
        0 <= i,
    ensures
        ({
            let m = 3 + 5 * n + 3 * (n - 1) + 2 * (if n >= 2 { n - 2 } else { 0 }) + k;
            let p = test_pair_bits(n)[m];
            &&& p.0(i) == (if k / 3 == 0 { i % 2 == 1 } else if k / 3 == 1 { i % 2 == 0 } else { true })
            &&& p.1(i) == (if k % 3 == 0 { i % 2 == 1 } else if k % 3 == 1 { i % 2 == 0 } else { true })
        }),
{
    let base = 3 + 5 * n + 3 * (n - 1) + 2 * (if n >= 2 { n - 2 } else { 0 });
    let pre = basic_pairs() + single_bit_pairs(n) + triple_pairs(n) + five_bit_pairs(n);
    assert(pre.len() == base);
    assert(test_pair_bits(n) == (pre + alternating_pairs()) + contiguous_pairs(n));
    assert((pre + alternating_pairs())[base + k] == alternating_pairs()[k]);
}

/// The number that the positions of `p` below `n` stand for.
pub open spec fn pattern_value(n: int, p: BitSet) -> nat {
    bits_value(Seq::new(n as nat, p))
}

/// The value of two disjoint sets of positions together is the sum of their
/// values.
proof fn lemma_pattern_union(n: nat, p: BitSet, q: BitSet)
    requires
        forall|i: int| !(#[trigger] p(i) && q(i)),
    ensures
        bits_value(Seq::new(n, |i: int| p(i) || q(i))) == bits_value(Seq::new(n, p)) + bits_value(Seq::new(n, q)),
    decreases n,
{
    if n > 0 {
        let m = (n - 1) as nat;
        lemma_pattern_union(m, p, q);
        assert(Seq::new(n, |i: int| p(i) || q(i)).drop_last() =~= Seq::new(m, |i: int| p(i) || q(i)));
        assert(Seq::new(n, p).drop_last() =~= Seq::new(m, p));
        assert(Seq::new(n, q).drop_last() =~= Seq::new(m, q));
    }
}

/// The value of the positions `lo .. hi` inside `n` bits.
proof fn lemma_run_pattern(n: int, lo: int, hi: int, p: BitSet)
    requires
        0 <= lo <= hi <= n,
        forall|i: int| 0 <= i < n ==> #[trigger] p(i) == (lo <= i < hi),
    ensures
        pattern_value(n, p) == pow2(hi as nat) - pow2(lo as nat),
{
    lemma_run_value(n as nat, lo as nat, hi as nat);
    assert(Seq::new(n as nat, p) =~= Seq::new(n as nat, |i: int| lo <= i < hi));
}

/// The shifted patterns stand for `1 << b`, `3 << b`, `5 << b` and `7 << b`
/// when they fit in `n` bits.
pub proof fn lemma_shifted_pattern_values(n: int, b: int)
    requires
        0 <= b,
    ensures
        b < n ==> pattern_value(n, bit_at(b)) == pow2(b as nat),
        b + 1 < n ==> pattern_value(n, three_at(b)) == 3 * pow2(b as nat),
        b + 2 < n ==> pattern_value(n, five_at(b)) == 5 * pow2(b as nat),
        b + 2 < n ==> pattern_value(n, seven_at(b)) == 7 * pow2(b as nat),
{
    vstd::arithmetic::power2::lemma_pow2_unfold((b + 1) as nat);
    vstd::arithmetic::power2::lemma_pow2_unfold((b + 2) as nat);
    vstd::arithmetic::power2::lemma_pow2_unfold((b + 3) as nat);
    if b < n {
        lemma_run_pattern(n, b, b + 1, bit_at(b));
    }
    if b + 1 < n {
        lemma_run_pattern(n, b, b + 2, three_at(b));
    }
    if b + 2 < n {
        lemma_run_pattern(n, b, b + 3, seven_at(b));
        lemma_run_pattern(n, b, b + 1, bit_at(b));
        lemma_run_pattern(n, b + 2, b + 3, bit_at(b + 2));
        lemma_pattern_union(n as nat, bit_at(b), bit_at(b + 2));
        assert(Seq::new(n as nat, five_at(b)) =~= Seq::new(n as nat, |i: int| bit_at(b)(i) || bit_at(b + 2)(i)));
    }
}

/// The numbers of the single-bit, triple-bit and five-bit test pairs: for bit
/// `b`, the single-bit pairs are `(2^b, 0)`, `(0, 2^b)`, `(2^b, 2^b)`,
/// `(2^b, 2^n - 1)` and `(2^n - 1, 2^b)`; the triple-bit pairs `(2^b, 3 * 2^b)`,
/// `(3 * 2^b, 2^b)` and `(3 * 2^b, 3 * 2^b)`; the five-bit pairs
/// `(5 * 2^b, 7 * 2^b)` and `(7 * 2^b, 5 * 2^b)` (each where it fits in `n` bits).
pub proof fn lemma_shifted_pair_values(n: int, b: int)
    requires
        n >= 1,
        0 <= b,
    ensures
        ({
            let pats = test_pair_bits(n);
            let one = pow2(b as nat) as int;
            let all = pow2(n as nat) as int - 1;
            let s = 3 + 5 * b;
            let t = 3 + 5 * n + 3 * b;
            let f = 3 + 5 * n + 3 * (n - 1) + 2 * b;
            &&& b < n ==> {
                &&& pattern_value(n, pats[s].0) == one && pattern_value(n, pats[s].1) == 0
                &&& pattern_value(n, pats[s + 1].0) == 0 && pattern_value(n, pats[s + 1].1) == one
                &&& pattern_value(n, pats[s + 2].0) == one && pattern_value(n, pats[s + 2].1) == one
                &&& pattern_value(n, pats[s + 3].0) == one && pattern_value(n, pats[s + 3].1) == all
                &&& pattern_value(n, pats[s + 4].0) == all && pattern_value(n, pats[s + 4].1) == one
            }
            &&& b + 1 < n ==> {
                &&& pattern_value(n, pats[t].0) == one && pattern_value(n, pats[t].1) == 3 * one
                &&& pattern_value(n, pats[t + 1].0) == 3 * one && pattern_value(n, pats[t + 1].1) == one
                &&& pattern_value(n, pats[t + 2].0) == 3 * one && pattern_value(n, pats[t + 2].1) == 3 * one
            }
            &&& b + 2 < n ==> {
                &&& pattern_value(n, pats[f].0) == 5 * one && pattern_value(n, pats[f].1) == 7 * one
                &&& pattern_value(n, pats[f + 1].0) == 7 * one && pattern_value(n, pats[f + 1].1) == 5 * one
            }
        }),
{
    let pats = test_pair_bits(n);
    lemma_shifted_pattern_values(n, b);
    lemma_run_pattern(n, 0, 0, no_bits());
    lemma_run_pattern(n, 0, n, all_bits());
    vstd::arithmetic::power2::lemma2_to64();
    let p1 = basic_pairs() + single_bit_pairs(n);
    let p2 = p1 + triple_pairs(n);
    let p3 = p2 + five_bit_pairs(n);
    assert(pats == ((p3 + alternating_pairs()) + contiguous_pairs(n)));
    if b < n {
        assert forall|r: int| 0 <= r < 5 implies #[trigger] pats[3 + 5 * b + r] == single_bit_pairs(n)[5 * b + r] by {
            lemma_group(5 * b + r, 5, b, r);
        }
        assert forall|r: int| 0 <= r < 5 implies #[trigger] single_bit_pairs(n)[5 * b + r].0 == (if r == 0 || r == 2 || r == 3 { bit_at(b) } else if r == 4 { all_bits() } else { no_bits() }) by {
            lemma_group(5 * b + r, 5, b, r);
        }
        assert forall|r: int| 0 <= r < 5 implies #[trigger] single_bit_pairs(n)[5 * b + r].1 == (if r == 1 || r == 2 || r == 4 { bit_at(b) } else if r == 3 { all_bits() } else { no_bits() }) by {
            lemma_group(5 * b + r, 5, b, r);
        }
        assert(pats[3 + 5 * b + 0] == single_bit_pairs(n)[5 * b + 0]);
        assert(pats[3 + 5 * b + 1] == single_bit_pairs(n)[5 * b + 1]);
        assert(pats[3 + 5 * b + 2] == single_bit_pairs(n)[5 * b + 2]);
        assert(pats[3 + 5 * b + 3] == single_bit_pairs(n)[5 * b + 3]);
        assert(pats[3 + 5 * b + 4] == single_bit_pairs(n)[5 * b + 4]);
        assert(single_bit_pairs(n)[5 * b + 0].0 == bit_at(b));
        assert(single_bit_pairs(n)[5 * b + 1].0 == no_bits());
        assert(single_bit_pairs(n)[5 * b + 2].0 == bit_at(b));
        assert(single_bit_pairs(n)[5 * b + 3].0 == bit_at(b));
        assert(single_bit_pairs(n)[5 * b + 4].0 == all_bits());
        assert(single_bit_pairs(n)[5 * b + 0].1 == no_bits());
        assert(single_bit_pairs(n)[5 * b + 1].1 == bit_at(b));
        assert(single_bit_pairs(n)[5 * b + 2].1 == bit_at(b));
        assert(single_bit_pairs(n)[5 * b + 3].1 == all_bits());
        assert(single_bit_pairs(n)[5 * b + 4].1 == bit_at(b));
    }
    if b + 1 < n {
        assert forall|r: int| 0 <= r < 3 implies #[trigger] pats[3 + 5 * n + 3 * b + r] == triple_pairs(n)[3 * b + r] by {
            lemma_group(3 * b + r, 3, b, r);
        }
        assert forall|r: int| 0 <= r < 3 implies #[trigger] triple_pairs(n)[3 * b + r] == (if r == 0 { (bit_at(b), three_at(b)) } else if r == 1 { (three_at(b), bit_at(b)) } else { (three_at(b), three_at(b)) }) by {
            lemma_group(3 * b + r, 3, b, r);
        }
        assert(pats[3 + 5 * n + 3 * b + 0] == triple_pairs(n)[3 * b + 0]);
        assert(pats[3 + 5 * n + 3 * b + 1] == triple_pairs(n)[3 * b + 1]);
        assert(pats[3 + 5 * n + 3 * b + 2] == triple_pairs(n)[3 * b + 2]);
        assert(triple_pairs(n)[3 * b + 0] == (bit_at(b), three_at(b)));
        assert(triple_pairs(n)[3 * b + 1] == (three_at(b), bit_at(b)));
        assert(triple_pairs(n)[3 * b + 2] == (three_at(b), three_at(b)));
    }
    if b + 2 < n {
        let f0 = 3 + 5 * n + 3 * (n - 1);
        assert(p2.len() == f0);
        assert forall|r: int| 0 <= r < 2 implies #[trigger] pats[f0 + 2 * b + r] == five_bit_pairs(n)[2 * b + r] by {
            lemma_group(2 * b + r, 2, b, r);
        }
        assert forall|r: int| 0 <= r < 2 implies #[trigger] five_bit_pairs(n)[2 * b + r] == (if r == 0 { (five_at(b), seven_at(b)) } else { (seven_at(b), five_at(b)) }) by {
            lemma_group(2 * b + r, 2, b, r);
        }
        assert(pats[f0 + 2 * b + 0] == five_bit_pairs(n)[2 * b + 0]);
        assert(pats[f0 + 2 * b + 1] == five_bit_pairs(n)[2 * b + 1]);
        assert(five_bit_pairs(n)[2 * b + 0] == (five_at(b), seven_at(b)));
        assert(five_bit_pairs(n)[2 * b + 1] == (seven_at(b), five_at(b)));
    }
}

/// The contiguous pairs of width `n`: for each `m` below `n`, the operands
/// `2^(m + 1) - 1` and `2^(m + 1) - 2`, both ways round; and the basic pairs
/// `(0, 0)`, `(2^n - 1, 0)`, `(0, 2^n - 1)`.
pub proof fn lemma_basic_and_contiguous_pair_values(n: int, m: int)
    requires
        n >= 1,
        0 <= m < n,
    ensures
        ({
            let pats = test_pair_bits(n);
            let all = pow2(n as nat) as int - 1;
            let c = 3 + 5 * n + 3 * (n - 1) + 2 * (if n >= 2 { n - 2 } else { 0 }) + 9 + 2 * m;
            let hi = pow2((m + 1) as nat) as int;
            &&& pattern_value(n, pats[0].0) == 0 && pattern_value(n, pats[0].1) == 0
            &&& pattern_value(n, pats[1].0) == all && pattern_value(n, pats[1].1) == 0
            &&& pattern_value(n, pats[2].0) == 0 && pattern_value(n, pats[2].1) == all
            &&& pattern_value(n, pats[c].0) == hi - 1 && pattern_value(n, pats[c].1) == hi - 2
            &&& pattern_value(n, pats[c + 1].0) == hi - 2 && pattern_value(n, pats[c + 1].1) == hi - 1
        }),
{
    let pats = test_pair_bits(n);
    vstd::arithmetic::power2::lemma2_to64();
    lemma_run_pattern(n, 0, 0, no_bits());
    lemma_run_pattern(n, 0, n, all_bits());
    lemma_run_pattern(n, 0, m + 1, low_run(m + 1));
    lemma_run_pattern(n, 1, m + 1, run_from_one(m));
    let pre = basic_pairs() + single_bit_pairs(n) + triple_pairs(n) + five_bit_pairs(n) + alternating_pairs();
    let base = 3 + 5 * n + 3 * (n - 1) + 2 * (if n >= 2 { n - 2 } else { 0 }) + 9;
    assert(pre.len() == base);
    assert(pats == pre + contiguous_pairs(n));
    assert(pats[0] == basic_pairs()[0]);
    assert(pats[1] == basic_pairs()[1]);
    assert(pats[2] == basic_pairs()[2]);
    lemma_group(2 * m, 2, m, 0);
    lemma_group(2 * m + 1, 2, m, 1);
    assert(pats[base + 2 * m] == contiguous_pairs(n)[2 * m]);
    assert(pats[base + 2 * m + 1] == contiguous_pairs(n)[2 * m + 1]);
}

/// The record of every test case writes operand `a`, operand `b`, the carry
/// in and the sum in their own fields, in that order.
pub proof fn lemma_record_operand_fields<const N: usize, const WORDS: usize>(st: AdderState<N, WORDS>)
    ensures
        starts_with_operand_fields(
            state_text(st),
            operand_hex(st.input.a, LogicVal::ForceUnknown),
            operand_hex(st.input.b, LogicVal::ForceUnknown),
            st.input.cin,
            operand_hex(st.output.s, LogicVal::NotCare),
        ),
{
    let head = "(\n  a    => x\""@ + operand_hex(st.input.a, LogicVal::ForceUnknown) + "\",\n  b    => x\""@
        + operand_hex(st.input.b, LogicVal::ForceUnknown) + "\",\n  cin  => '"@ + seq![input_char(st.input.cin)]
        + "',\n  s    => x\""@ + operand_hex(st.output.s, LogicVal::NotCare);
    let tail = "\",\n  cout => '"@ + bit_text(st.output.cout, LogicVal::NotCare) + "',\n  ovfl => '"@
        + bit_text(st.output.ovfl, LogicVal::NotCare) + "'\n)"@;
    assert(bit_text(st.input.cin, LogicVal::ForceUnknown) =~= seq![input_char(st.input.cin)]);
    let text = state_text(st);
    assert(text =~= head + tail);
    assert(text.subrange(0, head.len() as int) =~= head);
}

/// The hexadecimal text of a present operand reads back, least significant
/// digit first, as logic values that stand for the operand's value.
pub proof fn lemma_operand_text_reads_back<const N: usize, const WORDS: usize>(x: BitVec<N, WORDS>, d: LogicVal)
    requires
        N % 4 == 0,
    ensures
        from_hex_spec(operand_hex(Some(x), d).reverse(), N as int) == x.logic_view(),
        bits_value(Seq::new(N as nat, |i: int| from_hex_spec(operand_hex(Some(x), d).reverse(), N as int)[i] == LogicVal::Val(true)))
            == x.value(),
{
    lemma_bit_vec_logic_values(x);
    assert(all_driven(x.logic_view()));
    lemma_hex_write_read(x.logic_view());
}

} // verus!
