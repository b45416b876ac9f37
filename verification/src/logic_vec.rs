use vstd::prelude::*;
use crate::logic_val::{
    LogicVal, spec_as_char, spec_from_char, spec_hex_char, spec_from_hex_char, compatible, hex_value,
    hex_digit, all_driven, lemma_hex_digit_round_trip, lemma_hex_vals_round_trip,
    lemma_from_hex_char_len,
};
use crate::text::chars_to_string;
use crate::bit_vec::{BitVec, bits_value};

verus! {

/// A vector of `N` logic values, element 0 being the least significant.
#[derive(Debug)]
pub struct LogicVec<const N: usize>([LogicVal; N]);

impl<const N: usize> View for LogicVec<N> {
    type V = Seq<LogicVal>;

    /// The `N` values, least significant first.
    closed spec fn view(&self) -> Seq<LogicVal> {
        self.0@
    }
}

/// Bit `i` (0 = least significant) of the two's-complement form of `v`.
pub open spec fn i128_bit(v: i128, i: int) -> bool {
    ((v as u128) >> (i as u128)) & 1u128 == 1u128
}

/// The characters of a vector, most significant value first.
pub open spec fn bits_string(s: Seq<LogicVal>) -> Seq<char> {
    Seq::new(s.len(), |k: int| spec_as_char(s[s.len() - 1 - k]))
}

/// The group of four values that hexadecimal digit `g` (0 = least
/// significant) stands for.
pub open spec fn nibble_group(s: Seq<LogicVal>, g: int) -> Seq<LogicVal> {
    s.subrange(4 * g, 4 * g + 4)
}

/// The hexadecimal characters of a vector whose length is a multiple of four,
/// most significant digit first.
pub open spec fn hex_string(s: Seq<LogicVal>) -> Seq<char> {
    let n = s.len() / 4;
    Seq::new(n, |k: int| spec_hex_char(nibble_group(s, n - 1 - k)))
}

/// The values that hexadecimal characters stand for: character `g` gives
/// values `4 * g .. 4 * g + 4`, least significant first; values past the
/// last full group are don't-cares.
pub open spec fn from_hex_spec(cs: Seq<char>, n: int) -> Seq<LogicVal> {
    Seq::new(n as nat, |i: int|
        if i < 4 * cs.len() {
            spec_from_hex_char(cs[i / 4]).unwrap()[i % 4]
        } else {
            LogicVal::NotCare
        })
}

/// Whether every character is a hexadecimal digit, `X` or `-`.
pub open spec fn all_hex_chars(cs: Seq<char>) -> bool {
    forall|k: int| 0 <= k < cs.len() ==> (#[trigger] spec_from_hex_char(cs[k])) is Some
}

/// An array holding `v` at every position.
fn filled<const N: usize>(v: LogicVal) -> (a: [LogicVal; N])
    ensures
        forall|i: int| 0 <= i < N ==> #[trigger] a@[i] == v,
{
    let mut a = [LogicVal::NotCare; N];
    let mut i: usize = 0;
    while i < N
        invariant
            0 <= i <= N,
            forall|j: int| 0 <= j < i ==> #[trigger] a@[j] == v,
        decreases N - i,
    {
        a[i] = v;
        i = i + 1;
    }
    a
}

impl<const N: usize> LogicVec<N> {
    /// The driven bits of `value` (bit `i` at position `i`), or `other` at every
    /// position when there is no value.
    pub fn new_or(value: Option<i128>, other: LogicVal) -> (r: Self)
        requires
            value is Some ==> N <= 128,
        ensures
            forall|i: int| 0 <= i < N ==> #[trigger] r@[i] == match value {
                Some(v) => LogicVal::Val(i128_bit(v, i)),
                None => other,
            },
    {
        match value {
            Some(v) => {
                let mut vals = [LogicVal::NotCare; N];
                let mut i: usize = 0;
                while i < N
                    invariant
                        N <= 128,
                        0 <= i <= N,
                        forall|j: int| 0 <= j < i ==> #[trigger] vals@[j] == LogicVal::Val(i128_bit(v, j)),
                    decreases N - i,
                {
                    let k = i as u32;
                    let b = (v & (1i128 << k)) != 0;
                    proof {
                        assert(((v & (1i128 << k)) != 0) == (((v as u128) >> (k as u128)) & 1u128 == 1u128)) by (bit_vector)
                            requires
                                k < 128,
                        ;
                    }
                    vals[i] = LogicVal::Val(b);
                    i = i + 1;
                }
                LogicVec(vals)
            },
            None => LogicVec(filled(other)),
        }
    }

    /// Create a LogicVec filled with a single default value.
    pub fn new_default(default: LogicVal) -> (r: Self)
        ensures
            forall|i: int| 0 <= i < N ==> #[trigger] r@[i] == default,
    {
        LogicVec(filled(default))
    }

    /// Create a LogicVec from a function mapping bit index to bool.
    pub fn from_bool_fn(f: impl Fn(usize) -> bool) -> (r: Self)
        requires
            forall|i: usize| i < N ==> call_requires(f, (i,)),
        ensures
            forall|i: int| 0 <= i < N ==> (#[trigger] r@[i] matches LogicVal::Val(b) && call_ensures(f, (i as usize,), b)),
    {
        let mut vals = [LogicVal::NotCare; N];
        let mut i: usize = 0;
        while i < N
            invariant
                0 <= i <= N,
                forall|i: usize| i < N ==> call_requires(f, (i,)),
                forall|j: int| 0 <= j < i ==> (#[trigger] vals@[j] matches LogicVal::Val(b) && call_ensures(f, (j as usize,), b)),
            decreases N - i,
        {
            let b = f(i);
            vals[i] = LogicVal::Val(b);
            i = i + 1;
        }
        LogicVec(vals)
    }

    /// The values as characters, most significant first.
    pub fn to_bits_string(&self) -> (s: String)
        ensures
            s@ == bits_string(self@),
    {
        let mut chars: Vec<char> = Vec::new();
        let mut k: usize = 0;
        while k < N
            invariant
                0 <= k <= N,
                chars@.len() == k,
                forall|j: int| 0 <= j < k ==> #[trigger] chars@[j] == spec_as_char(self@[N - 1 - j]),
            decreases N - k,
        {
            let c = self.0[N - 1 - k].as_char();
            chars.push(c);
            k = k + 1;
        }
        let s = chars_to_string(chars);
        proof {
            assert(s@ =~= bits_string(self@));
        }
        s
    }

    /// The values as hexadecimal digits, most significant first; a group of
    /// four that is not all driven is written `X`.
    pub fn to_hex_string(&self) -> (s: String)
        requires
            N % 4 == 0,
        ensures
            s@ == hex_string(self@),
    {
        let n = N / 4;
        let mut chars: Vec<char> = Vec::new();
        let mut k: usize = 0;
        while k < n
            invariant
                n == N / 4,
                N % 4 == 0,
                0 <= k <= n,
                chars@.len() == k,
                forall|j: int| 0 <= j < k ==> #[trigger] chars@[j] == spec_hex_char(nibble_group(self@, n - 1 - j)),
            decreases n - k,
        {
            let g = n - 1 - k;
            let group = &self.0.as_slice()[4 * g..4 * g + 4];
            let c = LogicVal::as_hex_char(group);
            chars.push(c);
            k = k + 1;
        }
        let s = chars_to_string(chars);
        proof {
            assert(s@ =~= hex_string(self@));
        }
        s
    }

    /// The values that hexadecimal characters stand for, the first character
    /// giving the four least significant values.
    pub fn from_hex_chars(value: &[char]) -> (r: Self)
        requires
            value@.len() == N / 4,
            all_hex_chars(value@),
        ensures
            r@ == from_hex_spec(value@, N as int),
    {
        let mut vals = [LogicVal::NotCare; N];
        let mut i: usize = 0;
        while i < value.len()
            invariant
                value@.len() == N / 4,
                all_hex_chars(value@),
                0 <= i <= value@.len(),
                forall|j: int| 0 <= j < 4 * i ==> #[trigger] vals@[j] == spec_from_hex_char(value@[j / 4]).unwrap()[j % 4],
                forall|j: int| 4 * i <= j < N ==> #[trigger] vals@[j] == LogicVal::NotCare,
            decreases value@.len() - i,
        {
            let chr = value[i];
            proof {
                assert(spec_from_hex_char(value@[i as int]) is Some);
            }
            let group = LogicVal::try_from_hex_char(chr);
            let a = match group {
                Some(a) => a,
                None => {
                    proof {
                        assert(false);
                    }
                    [LogicVal::NotCare; 4]
                },
            };
            vals[i * 4] = a[0];
            vals[i * 4 + 1] = a[1];
            vals[i * 4 + 2] = a[2];
            vals[i * 4 + 3] = a[3];
            i = i + 1;
        }
        let r = LogicVec(vals);
        proof {
            assert(r@ =~= from_hex_spec(value@, N as int));
        }
        r
    }
}

impl<const N: usize> PartialEq for LogicVec<N> {
    /// Two vectors are equal when their values match position by position.
    fn eq(&self, other: &Self) -> (r: bool) {
        let mut i: usize = 0;
        while i < N
            invariant
                0 <= i <= N,
                forall|j: int| 0 <= j < i ==> compatible(#[trigger] self@[j], other@[j]),
            decreases N - i,
        {
            if !(self.0[i] == other.0[i]) {
                proof {
                    assert(!compatible(self@[i as int], other@[i as int]));
                }
                return false;
            }
            i = i + 1;
        }
        true
    }
}

impl<const N: usize> Eq for LogicVec<N> {}

impl<const N: usize> vstd::std_specs::cmp::PartialEqSpecImpl for LogicVec<N> {
    open spec fn obeys_eq_spec() -> bool {
        true
    }

    open spec fn eq_spec(&self, other: &Self) -> bool {
        forall|j: int| 0 <= j < N ==> compatible(#[trigger] self@[j], other@[j])
    }
}

impl<const N: usize> LogicVec<N> {
    /// A vector holds exactly `N` values.
    pub proof fn lemma_view_len(&self)
        ensures
            self@.len() == N,
    {
    }
}

/// Values that convert to a vector of `N` logic values.
pub trait EnumLogicVec<const N: usize>: Sized {
    /// The logic values this value converts to, least significant first.
    spec fn logic_view(&self) -> Seq<LogicVal>;

    /// Whether this value can be converted.
    spec fn convertible(&self) -> bool;

    /// The logic values of this value.
    fn into_logic_vec(self) -> (r: LogicVec<N>)
        requires
            self.convertible(),
        ensures
            r@ == self.logic_view(),
    ;

    /// The logic values of the value, or `default` at every position when
    /// there is none.
    fn as_logic_vec(val: Option<Self>, default: LogicVal) -> (r: LogicVec<N>)
        requires
            val matches Some(v) ==> v.convertible(),
        ensures
            r@ == match val {
                Some(v) => v.logic_view(),
                None => Seq::new(N as nat, |_i: int| default),
            },
    {
        match val {
            Some(v) => v.into_logic_vec(),
            None => {
                let r = LogicVec::<N>::new_default(default);
                proof {
                    r.lemma_view_len();
                    assert(r@ =~= Seq::new(N as nat, |_i: int| default));
                }
                r
            },
        }
    }
}

impl EnumLogicVec<1> for bool {
    open spec fn logic_view(&self) -> Seq<LogicVal> {
        seq![LogicVal::Val(*self)]
    }

    open spec fn convertible(&self) -> bool {
        true
    }

    fn into_logic_vec(self) -> (r: LogicVec<1>) {
        let b = self;
        let r = LogicVec::<1>::from_bool_fn(|_i: usize| -> (c: bool) ensures c == b { b });
        proof {
            r.lemma_view_len();
            assert(r@ =~= seq![LogicVal::Val(self)]);
        }
        r
    }
}

impl EnumLogicVec<128> for i128 {
    open spec fn logic_view(&self) -> Seq<LogicVal> {
        Seq::new(128, |i: int| LogicVal::Val(i128_bit(*self, i)))
    }

    open spec fn convertible(&self) -> bool {
        true
    }

    fn into_logic_vec(self) -> (r: LogicVec<128>) {
        let r = LogicVec::<128>::new_or(Some(self), LogicVal::NotCare);
        proof {
            r.lemma_view_len();
            assert(r@ =~= self.logic_view());
        }
        r
    }
}

impl<const N: usize, const WORDS: usize> EnumLogicVec<N> for BitVec<N, WORDS> {
    open spec fn logic_view(&self) -> Seq<LogicVal> {
        Seq::new(N as nat, |i: int| LogicVal::Val(self.raw_bit(i)))
    }

    open spec fn convertible(&self) -> bool {
        BitVec::<N, WORDS>::fits()
    }

    fn into_logic_vec(self) -> (r: LogicVec<N>) {
        let bv = self;
        let r = LogicVec::<N>::from_bool_fn(
            |i: usize| -> (c: bool) requires BitVec::<N, WORDS>::stores(i as int) ensures c == bv.raw_bit(i as int) { bv.get_bit(i) },
        );
        proof {
            r.lemma_view_len();
            assert(r@ =~= self.logic_view());
        }
        r
    }
}

/// Whether every character is a hexadecimal digit (either case).
pub open spec fn all_hex_digits(cs: Seq<char>) -> bool {
    forall|k: int| 0 <= k < cs.len() ==> (#[trigger] hex_value(cs[k])) is Some
}

/// Reading hexadecimal digits into `4 * len` values and writing those values
/// back as hexadecimal gives the digits in upper case and in reverse order
/// (reading takes the least significant digit first, writing puts the most
/// significant digit first).
pub proof fn lemma_hex_read_write(cs: Seq<char>)
    requires
        all_hex_digits(cs),
    ensures
        hex_string(from_hex_spec(cs, 4 * cs.len() as int)) == Seq::new(cs.len(), |k: int| hex_digit(hex_value(cs[cs.len() - 1 - k]).unwrap())),
{
    let n = cs.len() as int;
    let s = from_hex_spec(cs, 4 * n);
    assert forall|g: int| 0 <= g < n implies #[trigger] nibble_group(s, g) == spec_from_hex_char(cs[g]).unwrap() by {
        lemma_hex_digit_round_trip(cs[g]);
        lemma_from_hex_char_len(cs[g]);
        assert forall|t: int| 0 <= t < 4 implies #[trigger] nibble_group(s, g)[t] == spec_from_hex_char(cs[g]).unwrap()[t] by {
            assert((4 * g + t) / 4 == g);
            assert((4 * g + t) % 4 == t);
        }
        assert(nibble_group(s, g) =~= spec_from_hex_char(cs[g]).unwrap());
    }
    assert forall|k: int| 0 <= k < n implies #[trigger] hex_string(s)[k] == hex_digit(hex_value(cs[n - 1 - k]).unwrap()) by {
        lemma_hex_digit_round_trip(cs[n - 1 - k]);
        assert(nibble_group(s, n - 1 - k) == spec_from_hex_char(cs[n - 1 - k]).unwrap());
    }
    assert(hex_string(s) =~= Seq::new(cs.len(), |k: int| hex_digit(hex_value(cs[cs.len() - 1 - k]).unwrap())));
}

/// Writing driven values as hexadecimal and reading the digits back, least
/// significant first, gives the same values.
pub proof fn lemma_hex_write_read(s: Seq<LogicVal>)
    requires
        s.len() % 4 == 0,
        all_driven(s),
    ensures
        from_hex_spec(hex_string(s).reverse(), s.len() as int) == s,
{
    let n = s.len() / 4;
    let cs = hex_string(s).reverse();
    assert forall|i: int| 0 <= i < s.len() implies #[trigger] from_hex_spec(cs, s.len() as int)[i] == s[i] by {
        let g = i / 4;
        let grp = nibble_group(s, g);
        assert(grp.len() == 4);
        assert(all_driven(grp)) by {
            assert forall|t: int| 0 <= t < 4 implies (#[trigger] grp[t]) is Val by {
                assert(grp[t] == s[4 * g + t]);
            }
        }
        lemma_hex_vals_round_trip(grp);
        assert(cs[g] == hex_string(s)[n - 1 - g]);
        assert(grp[i % 4] == s[i]);
    }
    assert(from_hex_spec(cs, s.len() as int) =~= s);
}

/// Each character of the bit string reads back as the value it was written
/// from, most significant first.
pub proof fn lemma_bits_string_read_back(s: Seq<LogicVal>)
    ensures
        forall|k: int| 0 <= k < s.len() ==> spec_from_char(#[trigger] bits_string(s)[k]) == Some(s[s.len() - 1 - k]),
{
}

/// The logic values of an `N`-bit vector are its own `N` bits, in order: value
/// `i` is bit `i` of the vector (taken from word `i / 64`), so the logic
/// values read as a number give the vector's value.
pub proof fn lemma_bit_vec_logic_values<const N: usize, const WORDS: usize>(x: BitVec<N, WORDS>)
    ensures
        x.logic_view().len() == N,
        forall|i: int| 0 <= i < N ==> #[trigger] x.logic_view()[i] == LogicVal::Val(x@[i]),
        forall|i: int| 0 <= i < N ==> (#[trigger] x.logic_view()[i] == LogicVal::Val(true)) == crate::word::word_bit(
            x.words@[i / 64],
            (i % 64) as u64,
        ),
        bits_value(Seq::new(N as nat, |i: int| x.logic_view()[i] == LogicVal::Val(true))) == x.value(),
{
    assert(Seq::new(N as nat, |i: int| x.logic_view()[i] == LogicVal::Val(true)) =~= x@);
}

/// A bit string is written most significant value first: its first character
/// is the character of the last value and its last character that of the
/// first value.
pub proof fn lemma_bits_string_msb_first(s: Seq<LogicVal>)
    requires
        s.len() > 0,
    ensures
        bits_string(s).len() == s.len(),
        bits_string(s)[0] == spec_as_char(s[s.len() - 1]),
        bits_string(s)[s.len() - 1] == spec_as_char(s[0]),
{
}

/// A hexadecimal string is written most significant digit first: its first
/// character is the digit of the top four values and its last character the
/// digit of the lowest four.
pub proof fn lemma_hex_string_msb_first(s: Seq<LogicVal>)
    requires
        s.len() >= 4,
        s.len() % 4 == 0,
    ensures
        hex_string(s).len() == s.len() / 4,
        hex_string(s)[0] == spec_hex_char(s.subrange(s.len() - 4, s.len() as int)),
        hex_string(s)[s.len() / 4 - 1] == spec_hex_char(s.subrange(0, 4)),
{
}

/// Reading hexadecimal characters puts the first character in the four lowest
/// values, least significant first.
pub proof fn lemma_from_hex_first_char_lowest(cs: Seq<char>, n: int)
    requires
        cs.len() > 0,
        4 <= n,
        spec_from_hex_char(cs[0]) is Some,
    ensures
        from_hex_spec(cs, n).subrange(0, 4) == spec_from_hex_char(cs[0]).unwrap(),
{
    lemma_from_hex_char_len(cs[0]);
    assert forall|t: int| 0 <= t < 4 implies #[trigger] from_hex_spec(cs, n)[t] == spec_from_hex_char(cs[0]).unwrap()[t] by {
        assert(t / 4 == 0);
        assert(t % 4 == t);
    }
    assert(from_hex_spec(cs, n).subrange(0, 4) =~= spec_from_hex_char(cs[0]).unwrap());
}

} // verus!
