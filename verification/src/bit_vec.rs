use vstd::prelude::*;
use vstd::arithmetic::power2::pow2;
use crate::word::{
    word_bit, lemma_word_ext, lemma_word_const, lemma_word_low_mask, lemma_word_test, lemma_word_or_single,
    lemma_word_and_or, lemma_word_shl, lemma_word_shr,
};

verus! {

/// A fixed-width bit vector of `N` bits, stored as `WORDS` packed `u64` words
/// in little-endian word order (`words[0]` holds the least significant bits).
///
/// The widths fit when `WORDS == (N + 63) / 64` (see [`BitVec::fits`]);
/// most operations also need at least one bit (see [`BitVec::shape_ok`]).
/// The constructors keep the bits above `N` in the top word clear (see
/// [`BitVec::is_masked`]).
#[derive(Debug, Clone, Copy, Hash, PartialEq, Eq, PartialOrd, Ord)]
pub struct BitVec<const N: usize, const WORDS: usize> {
    pub words: [u64; WORDS],
}

/// The unsigned number a sequence of bits stands for, least significant first.
pub open spec fn bits_value(s: Seq<bool>) -> nat
    decreases s.len(),
{
    if s.len() == 0 {
        0
    } else {
        bits_value(s.drop_last()) + if s.last() { pow2((s.len() - 1) as nat) } else { 0 }
    }
}

/// The two's-complement number a non-empty sequence of bits stands for.
pub open spec fn bits_signed(s: Seq<bool>) -> int {
    bits_value(s) - if s.last() { pow2(s.len()) as int } else { 0 }
}

impl<const N: usize, const WORDS: usize> BitVec<N, WORDS> {
    /// Exactly as many words as the bits need.
    pub open spec fn fits() -> bool {
        WORDS == (N + 63) / 64
    }

    /// The widths fit and there is at least one bit (so at least one word).
    pub open spec fn shape_ok() -> bool {
        N > 0 && Self::fits()
    }

    /// Bit `i` of the stored words, counting across words from the least
    /// significant bit of `words[0]`.
    pub open spec fn raw_bit(&self, i: int) -> bool {
        word_bit(self.words@[i / 64], (i % 64) as u64)
    }

    /// Whether position `i` lies within the stored words.
    pub open spec fn stores(i: int) -> bool {
        0 <= i < 64 * WORDS
    }

    /// No stored bit at or above position `N` is set.
    pub open spec fn is_masked(&self) -> bool {
        forall|i: int| N <= i < 64 * WORDS ==> !#[trigger] self.raw_bit(i)
    }

    /// `sum`, `cout` and `ovfl` are what adding `self`, `other` and the carry
    /// `cin` gives: the sum of the values modulo `2^N` (with the unused high
    /// bits clear), the carry out of the top bit, and whether the sum of the
    /// two's-complement values lies outside the `N`-bit signed range (with no
    /// bits at all, the carry in passes straight to both outputs).
    pub open spec fn adds_to(&self, other: Self, cin: bool, sum: Self, cout: bool, ovfl: bool) -> bool {
        let total = self.value() + other.value() + if cin { 1int } else { 0int };
        &&& sum.is_masked()
        &&& sum.value() == total % (pow2(N as nat) as int)
        &&& cout == (total >= pow2(N as nat))
        &&& ovfl == if N == 0 {
            cin
        } else {
            !(-(pow2((N - 1) as nat) as int) <= bits_signed(self@) + bits_signed(other@)
                + if cin { 1int } else { 0int } < pow2((N - 1) as nat))
        }
    }

    /// The unsigned value of the `N` bits.
    pub open spec fn value(&self) -> nat {
        bits_value(self@)
    }
}

impl<const N: usize, const WORDS: usize> View for BitVec<N, WORDS> {
    type V = Seq<bool>;

    /// The `N` bits, least significant first.
    open spec fn view(&self) -> Seq<bool> {
        Seq::new(N as nat, |i: int| self.raw_bit(i))
    }
}

/// Splitting a bit position into its word and its bit within the word.
pub proof fn lemma_split_index(i: int, words: int)
    requires
        0 <= i < 64 * words,
    ensures
        0 <= i / 64 < words,
        0 <= i % 64 < 64,
        i == 64 * (i / 64) + i % 64,
{
}

/// Positions in the same word at the same bit are the same position.
pub proof fn lemma_same_index(i: int, j: int)
    requires
        0 <= i,
        0 <= j,
        i / 64 == j / 64,
        i % 64 == j % 64,
    ensures
        i == j,
{
}


/// The word and bit of a position given as word and bit.
pub proof fn lemma_index_of(q: int, r: int)
    requires
        0 <= q,
        0 <= r < 64,
    ensures
        (64 * q + r) / 64 == q,
        (64 * q + r) % 64 == r,
{
}

/// Appending a bit adds its weight to the value.
pub proof fn lemma_bits_value_push(s: Seq<bool>, b: bool)
    ensures
        bits_value(s.push(b)) == bits_value(s) + if b { pow2(s.len()) } else { 0 },
{
    assert(s.push(b).drop_last() =~= s);
}

/// The value of `n` bits is below `2^n`.
pub proof fn lemma_bits_value_bound(s: Seq<bool>)
    ensures
        bits_value(s) < pow2(s.len()),
    decreases s.len(),
{
    vstd::arithmetic::power2::lemma_pow2_pos(s.len());
    if s.len() > 0 {
        lemma_bits_value_bound(s.drop_last());
        vstd::arithmetic::power2::lemma_pow2_unfold(s.len());
    }
}


/// The value of a run of set bits: positions `lo` to `hi - 1` set in `n` bits
/// give `2^min(n, hi) - 2^min(n, lo)`.
pub proof fn lemma_run_value(n: nat, lo: nat, hi: nat)
    requires
        lo <= hi,
    ensures
        bits_value(Seq::new(n, |i: int| lo <= i < hi))
            == pow2(if n < hi { n } else { hi }) - pow2(if n < lo { n } else { lo }),
    decreases n,
{
    let s = Seq::new(n, |i: int| lo <= i < hi);
    if n > 0 {
        let m = (n - 1) as nat;
        lemma_run_value(m, lo, hi);
        assert(s.drop_last() =~= Seq::new(m, |i: int| lo <= i < hi));
        vstd::arithmetic::power2::lemma_pow2_unfold(n);
    }
}

/// Bit sequences of one length with the same value are equal.
pub proof fn lemma_bits_value_injective(s: Seq<bool>, t: Seq<bool>)
    requires
        s.len() == t.len(),
        bits_value(s) == bits_value(t),
    ensures
        s == t,
    decreases s.len(),
{
    if s.len() > 0 {
        let n = s.len();
        lemma_bits_value_bound(s.drop_last());
        lemma_bits_value_bound(t.drop_last());
        assert(s.last() == t.last());
        lemma_bits_value_injective(s.drop_last(), t.drop_last());
        assert forall|k: int| 0 <= k < n implies s[k] == t[k] by {
            if k < n - 1 {
                assert(s[k] == s.drop_last()[k]);
                assert(t[k] == t.drop_last()[k]);
            }
        }
        assert(s =~= t);
    } else {
        assert(s =~= t);
    }
}


/// The value of two bit sequences one after the other (the first one less
/// significant).
pub proof fn lemma_bits_value_concat(a: Seq<bool>, b: Seq<bool>)
    ensures
        bits_value(a + b) == bits_value(a) + bits_value(b) * pow2(a.len()),
    decreases b.len(),
{
    if b.len() == 0 {
        assert(a + b =~= a);
    } else {
        let b1 = b.drop_last();
        lemma_bits_value_concat(a, b1);
        assert((a + b).drop_last() =~= a + b1);
        vstd::arithmetic::power2::lemma_pow2_adds(a.len(), b1.len());
        vstd::arithmetic::mul::lemma_mul_is_distributive_add(
            pow2(a.len()) as int,
            bits_value(b1) as int,
            if b.last() { pow2(b1.len()) as int } else { 0int },
        );
        vstd::arithmetic::mul::lemma_mul_is_commutative(pow2(a.len()) as int, bits_value(b) as int);
        vstd::arithmetic::mul::lemma_mul_is_commutative(pow2(a.len()) as int, bits_value(b1) as int);
    }
}

/// The value of the lowest `n` bits of a sequence is its value modulo `2^n`.
pub proof fn lemma_bits_value_take(u: Seq<bool>, n: int)
    requires
        0 <= n <= u.len(),
    ensures
        bits_value(u.take(n)) as int == (bits_value(u) as int) % (pow2(n as nat) as int),
{
    assert(u =~= u.take(n) + u.skip(n));
    lemma_bits_value_concat(u.take(n), u.skip(n));
    lemma_bits_value_bound(u.take(n));
    vstd::arithmetic::div_mod::lemma_fundamental_div_mod_converse(
        bits_value(u) as int,
        pow2(n as nat) as int,
        bits_value(u.skip(n)) as int,
        bits_value(u.take(n)) as int,
    );
    vstd::arithmetic::mul::lemma_mul_is_commutative(bits_value(u.skip(n)) as int, pow2(n as nat) as int);
}

/// The value of the lowest `j` bits of a word is the word modulo `2^j`.
pub proof fn lemma_word_value(v: u64, j: nat)
    requires
        j <= 64,
    ensures
        bits_value(Seq::new(j, |i: int| word_bit(v, i as u64))) as int == (v as int) % (pow2(j) as int),
    decreases j,
{
    vstd::arithmetic::power2::lemma_pow2_pos(j);
    if j == 0 {
        vstd::arithmetic::power2::lemma2_to64();
        assert((v as int) % 1 == 0);
    } else {
        let k = (j - 1) as nat;
        lemma_word_value(v, k);
        let s = Seq::new(j, |i: int| word_bit(v, i as u64));
        assert(s.drop_last() =~= Seq::new(k, |i: int| word_bit(v, i as u64)));
        vstd::bits::lemma_u64_shr_is_div(v, k as u64);
        let w = v >> (k as u64);
        assert((w & 1u64 == 1u64) == (w % 2 == 1)) by (bit_vector);
        vstd::arithmetic::power2::lemma_pow2_pos(k);
        vstd::arithmetic::div_mod::lemma_mod_breakdown(v as int, pow2(k) as int, 2);
        vstd::arithmetic::power2::lemma_pow2_unfold(j);
        vstd::arithmetic::mul::lemma_mul_is_commutative(pow2(k) as int, 2);
        let q = (v as int / pow2(k) as int) % 2;
        assert(w as int == v as int / pow2(k) as int);
        assert(s.last() == (q == 1));
        assert(bits_value(s) == bits_value(s.drop_last()) + if s.last() { pow2(k) } else { 0 });
        assert((v as int) % (pow2(j) as int) == pow2(k) * q + (v as int) % (pow2(k) as int));
        assert(q == 0 || q == 1);
        if q == 1 {
            assert(pow2(k) * q == pow2(k)) by (nonlinear_arith)
                requires
                    q == 1,
            ;
        } else {
            assert(pow2(k) * q == 0) by (nonlinear_arith)
                requires
                    q == 0,
            ;
        }
    }
}

/// The parts of a non-empty bit sequence: the lower bits and the top bit.
proof fn lemma_top_bit(v: Seq<bool>)
    requires
        v.len() > 0,
    ensures
        pow2(v.len()) == 2 * pow2((v.len() - 1) as nat),
        bits_value(v) == bits_value(v.drop_last()) + if v.last() { pow2((v.len() - 1) as nat) } else { 0 },
        bits_value(v.drop_last()) < pow2((v.len() - 1) as nat),
        bits_value(v) < pow2(v.len()),
        v.last() <==> bits_value(v) >= pow2((v.len() - 1) as nat),
{
    vstd::arithmetic::power2::lemma_pow2_unfold(v.len());
    lemma_bits_value_bound(v.drop_last());
    lemma_bits_value_bound(v);
}

/// What the outputs of an addition mean: the sum plus the carry out (worth
/// `2^N`) is the sum of the inputs and the carry in; and, for at least one
/// bit, there is no overflow exactly when the two's-complement reading of the
/// sum is the signed sum of the inputs and the carry in.
pub proof fn lemma_adder_outputs<const N: usize, const WORDS: usize>(
    x: BitVec<N, WORDS>,
    y: BitVec<N, WORDS>,
    cin: bool,
    sum: BitVec<N, WORDS>,
    cout: bool,
    ovfl: bool,
)
    requires
        x.adds_to(y, cin, sum, cout, ovfl),
    ensures
        sum.value() + (if cout { pow2(N as nat) as int } else { 0int }) == x.value() + y.value() + if cin { 1int } else { 0int },
        N > 0 ==> (!ovfl <==> bits_signed(sum@) == bits_signed(x@) + bits_signed(y@) + if cin { 1int } else { 0int }),
{
    let c = if cin { 1int } else { 0int };
    let p = pow2(N as nat) as int;
    let total = x.value() + y.value() + c;
    vstd::arithmetic::power2::lemma_pow2_pos(N as nat);
    lemma_bits_value_bound(x@);
    lemma_bits_value_bound(y@);
    let q = if cout { 1int } else { 0int };
    assert(0 <= total - q * p < p);
    vstd::arithmetic::div_mod::lemma_fundamental_div_mod_converse(total, p, q, total - q * p);
    if N > 0 {
        lemma_top_bit(x@);
        lemma_top_bit(y@);
        lemma_top_bit(sum@);
    }
}

impl<const N: usize, const WORDS: usize> BitVec<N, WORDS> {
    /// The bits of the top word that lie below `N`.
    pub open spec fn top_bits() -> int {
        N - 64 * (WORDS - 1)
    }

    /// The mask for the topmost word: it clears the bits above bit `N - 1`.
    fn top_mask() -> (m: u64)
        requires
            Self::shape_ok(),
        ensures
            forall|j: u64| j < 64 ==> word_bit(m, j) == (j < Self::top_bits()),
    {
        if N % 64 == 0 {
            proof {
                assert forall|j: u64| j < 64 implies #[trigger] word_bit(u64::MAX, j) == (j < Self::top_bits()) by {
                    lemma_word_const(j);
                }
            }
            u64::MAX
        } else {
            let r = (N % 64) as u64;
            proof {
                lemma_word_low_mask(r, 0);
            }
            let m: u64 = (1u64 << r) - 1;
            proof {
                assert forall|j: u64| j < 64 implies #[trigger] word_bit(m, j) == (j < Self::top_bits()) by {
                    lemma_word_low_mask(r, j);
                }
            }
            m
        }
    }

    /// All zeros.
    pub fn zero() -> (r: Self)
        ensures
            forall|i: int| 0 <= i < 64 * WORDS ==> !#[trigger] r.raw_bit(i),
            r.is_masked(),
            forall|k: int| 0 <= k < WORDS ==> #[trigger] r.words@[k] == 0u64,
            Self::shape_ok() ==> r.value() == 0,
    {
        let r = Self { words: [0u64; WORDS] };
        proof {
            assert forall|i: int| 0 <= i < 64 * WORDS implies !#[trigger] r.raw_bit(i) by {
                lemma_split_index(i, WORDS as int);
                lemma_word_const((i % 64) as u64);
            }
            if Self::shape_ok() {
                Self::lemma_value_of_run(r, 0, 0);
            }
        }
        r
    }

    /// Get bit at position `idx` (0-indexed from the least significant bit).
    pub fn get_bit(&self, idx: usize) -> (b: bool)
        requires
            idx < 64 * WORDS,
        ensures
            b == self.raw_bit(idx as int),
    {
        proof {
            lemma_split_index(idx as int, WORDS as int);
            lemma_word_test(self.words@[idx as int / 64], (idx % 64) as u64);
        }
        (self.words[idx / 64] >> (idx % 64)) & 1 != 0
    }

    /// A bit vector whose unused high bits are clear is determined by its
    /// value: the value of a masked result pins down its words.
    pub proof fn lemma_masked_value_determines(x: Self, y: Self)
        requires
            Self::shape_ok(),
            x.is_masked(),
            y.is_masked(),
            x.value() == y.value(),
        ensures
            x == y,
    {
        lemma_bits_value_injective(x@, y@);
        assert forall|i: int| 0 <= i < 64 * WORDS implies #[trigger] x.raw_bit(i) == y.raw_bit(i) by {
            if i < N {
                assert(x@[i] == y@[i]);
            }
        }
        assert forall|k: int| 0 <= k < WORDS implies x.words@[k] == y.words@[k] by {
            assert forall|j: u64| j < 64 implies word_bit(x.words@[k], j) == word_bit(y.words@[k], j) by {
                lemma_index_of(k, j as int);
                assert(x.raw_bit(64 * k + j) == y.raw_bit(64 * k + j));
            }
            lemma_word_ext(x.words@[k], y.words@[k]);
        }
        assert(x.words =~= y.words);
    }

    /// The value of a vector whose bits below `N` are exactly `lo .. hi`.
    proof fn lemma_value_of_run(x: Self, lo: nat, hi: nat)
        requires
            lo <= hi <= N,
            forall|i: int| 0 <= i < N ==> #[trigger] x.raw_bit(i) == (lo <= i < hi),
        ensures
            x.value() == pow2(hi) - pow2(lo),
    {
        lemma_run_value(N as nat, lo, hi);
        assert(x@ =~= Seq::new(N as nat, |i: int| lo <= i < hi));
    }

    /// Where a stored bit position lies relative to `N`.
    proof fn lemma_top_word(i: int)
        requires
            Self::fits(),
            0 <= i < 64 * WORDS,
        ensures
            0 <= i / 64 < WORDS,
            0 <= i % 64 < 64,
            i / 64 == WORDS - 1 ==> (i < N <==> i % 64 < Self::top_bits()),
            i / 64 < WORDS - 1 ==> i < N,
            1 <= Self::top_bits() <= 64,
    {
        lemma_split_index(i, WORDS as int);
    }

    /// Mask the topmost word to clear any unused high bits.
    pub fn mask_top(&mut self)
        requires
            Self::shape_ok(),
        ensures
            forall|i: int| 0 <= i < 64 * WORDS ==> #[trigger] final(self).raw_bit(i) == (i < N && old(self).raw_bit(i)),
            final(self).is_masked(),
            forall|k: int| 0 <= k < WORDS - 1 ==> final(self).words@[k] == old(self).words@[k],
    {
        let m = Self::top_mask();
        let w = self.words[WORDS - 1];
        self.words[WORDS - 1] = w & m;
        proof {
            assert forall|i: int| 0 <= i < 64 * WORDS implies #[trigger] self.raw_bit(i) == (i < N && old(self).raw_bit(i)) by {
                Self::lemma_top_word(i);
                if i / 64 == WORDS - 1 {
                    lemma_word_and_or(w, m, (i % 64) as u64);
                }
            }
        }
    }

    /// All ones (`N` bits set).
    pub fn ones() -> (r: Self)
        requires
            Self::shape_ok(),
        ensures
            forall|i: int| 0 <= i < 64 * WORDS ==> #[trigger] r.raw_bit(i) == (i < N),
            r.is_masked(),
            r.value() == pow2(N as nat) - 1,
    {
        let mut r = Self { words: [u64::MAX; WORDS] };
        proof {
            assert forall|i: int| 0 <= i < 64 * WORDS implies #[trigger] r.raw_bit(i) by {
                lemma_split_index(i, WORDS as int);
                lemma_word_const((i % 64) as u64);
            }
        }
        r.mask_top();
        proof {
            Self::lemma_value_of_run(r, 0, N as nat);
            vstd::arithmetic::power2::lemma2_to64();
        }
        r
    }

    /// A single bit set at position `pos` (0-indexed from the least significant bit).
    pub fn single_bit(pos: usize) -> (r: Self)
        requires
            Self::shape_ok(),
            pos < N,
        ensures
            forall|i: int| 0 <= i < 64 * WORDS ==> #[trigger] r.raw_bit(i) == (i == pos),
            r.is_masked(),
            r.value() == pow2(pos as nat),
    {
        let mut bv = Self::zero();
        proof {
            Self::lemma_top_word(pos as int);
        }
        let w = bv.words[pos / 64];
        bv.words[pos / 64] = w | (1u64 << (pos % 64) as u64);
        proof {
            assert forall|i: int| 0 <= i < 64 * WORDS implies #[trigger] bv.raw_bit(i) == (i == pos) by {
                Self::lemma_top_word(i);
                lemma_word_const((i % 64) as u64);
                if i / 64 == pos / 64 {
                    lemma_word_or_single(w, (pos % 64) as u64, (i % 64) as u64);
                    if i % 64 == pos % 64 {
                        lemma_same_index(i, pos as int);
                    }
                }
            }
            Self::lemma_value_of_run(bv, pos as nat, (pos + 1) as nat);
            vstd::arithmetic::power2::lemma_pow2_unfold((pos + 1) as nat);
        }
        bv
    }

    /// Create from a `u64` value, placed in the lowest 64 bits (bits at or
    /// above `N` are dropped).
    pub fn from_u64(val: u64) -> (r: Self)
        requires
            Self::shape_ok(),
        ensures
            forall|i: int| 0 <= i < 64 * WORDS ==> #[trigger] r.raw_bit(i) == (i < N && i < 64 && word_bit(val, i as u64)),
            r.is_masked(),
            r.value() as int == (val as int) % (pow2(N as nat) as int),
    {
        let mut bv = Self::zero();
        bv.words[0] = val;
        proof {
            assert forall|i: int| 0 <= i < 64 * WORDS implies #[trigger] bv.raw_bit(i) == (i < 64 && word_bit(val, i as u64)) by {
                Self::lemma_top_word(i);
                lemma_word_const((i % 64) as u64);
            }
        }
        bv.mask_top();
        proof {
            vstd::arithmetic::power2::lemma_pow2_pos(N as nat);
            if N <= 64 {
                assert(bv@ =~= Seq::new(N as nat, |i: int| word_bit(val, i as u64)));
                lemma_word_value(val, N as nat);
            } else {
                let lo = Seq::new(64, |i: int| word_bit(val, i as u64));
                let hi = Seq::new((N - 64) as nat, |i: int| 0 <= i < 0);
                assert(bv@ =~= lo + hi);
                lemma_bits_value_concat(lo, hi);
                lemma_run_value((N - 64) as nat, 0, 0);
                lemma_word_value(val, 64);
                vstd::arithmetic::power2::lemma2_to64_rest();
                vstd::arithmetic::div_mod::lemma_small_mod(val as nat, pow2(64));
                vstd::arithmetic::power2::lemma_pow2_strictly_increases(64, N as nat);
                vstd::arithmetic::div_mod::lemma_small_mod(val as nat, pow2(N as nat));
            }
        }
        bv
    }

    /// Create by repeating a 64-bit pattern across all words (bits at or
    /// above `N` are dropped).
    pub fn from_repeating_u64(pattern: u64) -> (r: Self)
        requires
            Self::shape_ok(),
        ensures
            forall|i: int| 0 <= i < 64 * WORDS ==> #[trigger] r.raw_bit(i) == (i < N && word_bit(pattern, (i % 64) as u64)),
            r.is_masked(),
    {
        let mut bv = Self { words: [pattern; WORDS] };
        proof {
            assert forall|i: int| 0 <= i < 64 * WORDS implies #[trigger] bv.raw_bit(i) == word_bit(pattern, (i % 64) as u64) by {
                Self::lemma_top_word(i);
            }
        }
        bv.mask_top();
        bv
    }

    /// A `BitVec` with the lowest `count` bits set (`count <= N`).
    pub fn low_bits_set(count: usize) -> (r: Self)
        requires
            Self::fits(),
            count <= N,
        ensures
            forall|i: int| 0 <= i < 64 * WORDS ==> #[trigger] r.raw_bit(i) == (i < count),
            r.is_masked(),
            r.value() == pow2(count as nat) - 1,
    {
        let mut bv = Self::zero();
        let full_words = count / 64;
        let remaining = count % 64;
        let mut k: usize = 0;
        while k < full_words
            invariant
                full_words == count / 64,
                count <= N,
                Self::fits(),
                0 <= k <= full_words,
                forall|j: int| 0 <= j < k ==> bv.words@[j] == u64::MAX,
                forall|j: int| k <= j < WORDS ==> bv.words@[j] == 0u64,
            decreases full_words - k,
        {
            bv.words[k] = u64::MAX;
            k = k + 1;
        }
        if remaining > 0 && full_words < WORDS {
            proof {
                lemma_word_low_mask(remaining as u64, 0);
            }
            bv.words[full_words] = (1u64 << remaining as u64) - 1;
        }
        proof {
            assert forall|i: int| 0 <= i < 64 * WORDS implies #[trigger] bv.raw_bit(i) == (i < count) by {
                Self::lemma_top_word(i);
                let b = (i % 64) as u64;
                lemma_word_const(b);
                if i / 64 == full_words && remaining > 0 {
                    lemma_word_low_mask(remaining as u64, b);
                }
            }
            Self::lemma_value_of_run(bv, 0, count as nat);
            vstd::arithmetic::power2::lemma2_to64();
        }
        bv
    }

    /// Word `k` of `self` shifted left by `64 * ws + bs` bits.
    pub open spec fn shl_word(&self, k: int, ws: int, bs: u64) -> u64 {
        if k < ws {
            0u64
        } else if bs > 0 && k > ws {
            (self.words@[k - ws] << bs) | (self.words@[k - ws - 1] >> ((64 - bs) as u64))
        } else {
            self.words@[k - ws] << bs
        }
    }

    /// Shift left by `amount` bits. Bits shifted to `N` or beyond are lost.
    pub fn shl(self, amount: usize) -> (r: Self)
        requires
            Self::fits(),
        ensures
            forall|i: int| 0 <= i < 64 * WORDS ==> #[trigger] r.raw_bit(i) == (i < N && i >= amount && self.raw_bit(i - amount)),
            r.is_masked(),
            r.value() as int == ((self.value() * pow2(amount as nat)) as int) % (pow2(N as nat) as int),
    {
        if amount >= N {
            let z = Self::zero();
            proof {
                vstd::arithmetic::power2::lemma_pow2_adds(N as nat, (amount - N) as nat);
                vstd::arithmetic::power2::lemma_pow2_pos(N as nat);
                vstd::arithmetic::mul::lemma_mul_is_associative(
                    self.value() as int,
                    pow2((amount - N) as nat) as int,
                    pow2(N as nat) as int,
                );
                vstd::arithmetic::mul::lemma_mul_is_commutative(pow2(N as nat) as int, pow2((amount - N) as nat) as int);
                vstd::arithmetic::div_mod::lemma_mod_multiples_basic(
                    (self.value() * pow2((amount - N) as nat)) as int,
                    pow2(N as nat) as int,
                );
            }
            return z;
        }
        let word_shift = amount / 64;
        let bit_shift = (amount % 64) as u64;
        let mut result = Self::zero();
        let mut i = word_shift;
        while i < WORDS
            invariant
                Self::shape_ok(),
                amount < N,
                word_shift == amount / 64,
                bit_shift == amount % 64,
                word_shift <= i <= WORDS,
                forall|k: int| 0 <= k < i ==> result.words@[k] == self.shl_word(k, word_shift as int, bit_shift),
                forall|k: int| i <= k < WORDS ==> result.words@[k] == 0u64,
            decreases WORDS - i,
        {
            let mut w = self.words[i - word_shift] << bit_shift;
            if bit_shift > 0 && i > word_shift {
                w = w | (self.words[i - word_shift - 1] >> (64 - bit_shift));
            }
            result.words[i] = w;
            i = i + 1;
        }
        let ghost before = result;
        proof {
            assert forall|i: int| 0 <= i < 64 * WORDS implies #[trigger] before.raw_bit(i) == (i >= amount && self.raw_bit(i - amount)) by {
                lemma_split_index(i, WORDS as int);
                let k = i / 64;
                let j = (i % 64) as u64;
                let ws = word_shift as int;
                if k < ws {
                    lemma_word_const(j);
                } else {
                    lemma_word_shl(self.words@[k - ws], bit_shift, j);
                    if bit_shift > 0 && k > ws {
                        lemma_word_and_or(self.words@[k - ws] << bit_shift, self.words@[k - ws - 1] >> ((64 - bit_shift) as u64), j);
                        lemma_word_shr(self.words@[k - ws - 1], (64 - bit_shift) as u64, j);
                    }
                    if j >= bit_shift {
                        lemma_index_of(k - ws, j - bit_shift);
                    } else if k > ws {
                        lemma_index_of(k - ws - 1, j + 64 - bit_shift);
                    }
                }
            }
        }
        result.mask_top();
        proof {
            let z = Seq::new(amount as nat, |i: int| 0 <= i < 0);
            let u = z + self@;
            assert(result@ =~= u.take(N as int));
            lemma_run_value(amount as nat, 0, 0);
            lemma_bits_value_concat(z, self@);
            lemma_bits_value_take(u, N as int);
            vstd::arithmetic::mul::lemma_mul_is_commutative(self.value() as int, pow2(amount as nat) as int);
        }
        result
    }

    /// Full adder: `self + other + cin`.
    /// Returns `(sum, carry_out, signed_overflow)`.
    pub fn add_with_carry(self, other: Self, cin: bool) -> (res: (Self, bool, bool))
        requires
            Self::fits(),
        ensures
            self.adds_to(other, cin, res.0, res.1, res.2),
    {
        let mut sum = Self::zero();
        let mut carry = cin;
        let mut carry_into_msb = false;
        let ghost sbits: Seq<bool> = Seq::empty();
        let ghost c: int = if cin { 1int } else { 0int };
        let mut i: usize = 0;
        proof {
            vstd::arithmetic::power2::lemma2_to64();
            assert(self@.take(0) =~= Seq::<bool>::empty());
            assert(other@.take(0) =~= Seq::<bool>::empty());
        }
        while i < N
            invariant
                Self::fits(),
                0 <= i <= N,
                c == if cin { 1int } else { 0int },
                sbits.len() == i,
                forall|j: int| 0 <= j < 64 * WORDS ==> #[trigger] sum.raw_bit(j) == (j < i && sbits[j]),
                bits_value(sbits) + (if carry { pow2(i as nat) as int } else { 0int })
                    == bits_value(self@.take(i as int)) + bits_value(other@.take(i as int)) + c,
                N == 0 ==> !carry_into_msb,
                N > 0 && i == N ==> bits_value(sbits.take(N - 1)) + (if carry_into_msb { pow2((N - 1) as nat) as int } else { 0int })
                    == bits_value(self@.take(N - 1)) + bits_value(other@.take(N - 1)) + c,
            decreases N - i,
        {
            proof {
                Self::lemma_top_word(i as int);
            }
            if i == N - 1 {
                carry_into_msb = carry;
            }
            let a = self.get_bit(i);
            let b = other.get_bit(i);
            let s = a ^ b ^ carry;
            let ghost old_sum = sum;
            let ghost old_carry = carry;
            carry = a && (b || carry) || (b && carry);
            if s {
                let w = sum.words[i / 64];
                sum.words[i / 64] = w | (1u64 << (i % 64) as u64);
                proof {
                    assert forall|j: int| 0 <= j < 64 * WORDS implies #[trigger] sum.raw_bit(j) == (j == i || old_sum.raw_bit(j)) by {
                        Self::lemma_top_word(j);
                        if j / 64 == i / 64 {
                            lemma_word_or_single(w, (i % 64) as u64, (j % 64) as u64);
                            if j % 64 == i % 64 {
                                lemma_same_index(j, i as int);
                            }
                        } else if j == i {
                            assert(false);
                        }
                    }
                }
            }
            proof {
                let old_bits = sbits;
                sbits = sbits.push(s);
                lemma_bits_value_push(old_bits, s);
                assert(self@.take(i + 1) =~= self@.take(i as int).push(a));
                assert(other@.take(i + 1) =~= other@.take(i as int).push(b));
                lemma_bits_value_push(self@.take(i as int), a);
                lemma_bits_value_push(other@.take(i as int), b);
                vstd::arithmetic::power2::lemma_pow2_unfold((i + 1) as nat);
                if i == N - 1 {
                    assert(sbits.take(N - 1) =~= old_bits);
                }
            }
            i = i + 1;
        }
        let cout = carry;
        let ovfl = carry_into_msb ^ cout;
        proof {
            assert(sum@ =~= sbits);
            assert(self@.take(N as int) =~= self@);
            assert(other@.take(N as int) =~= other@);
            assert(sum.is_masked()) by {
                assert forall|j: int| N <= j < 64 * WORDS implies !#[trigger] sum.raw_bit(j) by {}
            }
        }
        if N == 0 {
            proof {
                vstd::arithmetic::power2::lemma2_to64();
                assert(sum@ =~= Seq::<bool>::empty());
                assert(self@ =~= Seq::<bool>::empty());
                assert(other@ =~= Seq::<bool>::empty());
                vstd::arithmetic::div_mod::lemma_fundamental_div_mod_converse(c, 1, c, 0);
            }
            return (sum, cout, ovfl);
        }
        proof {
            let p = pow2((N - 1) as nat) as int;
            vstd::arithmetic::power2::lemma_pow2_unfold(N as nat);
            assert(pow2(N as nat) == 2 * p);
            lemma_bits_value_bound(sbits);
            lemma_bits_value_bound(sbits.take(N - 1));
            assert(sbits.drop_last() =~= sbits.take(N - 1));
            assert(self@.drop_last() =~= self@.take(N - 1));
            assert(other@.drop_last() =~= other@.take(N - 1));
            vstd::arithmetic::div_mod::lemma_fundamental_div_mod_converse(
                bits_value(self@) + bits_value(other@) + c,
                2 * p,
                if cout { 1int } else { 0int },
                bits_value(sbits) as int,
            );
        }
        (sum, cout, ovfl)
    }

    /// Bitwise OR.
    pub fn bitor(self, other: Self) -> (r: Self)
        ensures
            forall|i: int| 0 <= i < 64 * WORDS ==> #[trigger] r.raw_bit(i) == (self.raw_bit(i) || other.raw_bit(i)),
            self.is_masked() && other.is_masked() ==> r.is_masked(),
    {
        let mut words = self.words;
        let mut k: usize = 0;
        while k < WORDS
            invariant
                0 <= k <= WORDS,
                forall|j: int| 0 <= j < k ==> words@[j] == self.words@[j] | other.words@[j],
                forall|j: int| k <= j < WORDS ==> words@[j] == self.words@[j],
            decreases WORDS - k,
        {
            let w = words[k];
            words[k] = w | other.words[k];
            k = k + 1;
        }
        let r = Self { words };
        proof {
            assert forall|i: int| 0 <= i < 64 * WORDS implies #[trigger] r.raw_bit(i) == (self.raw_bit(i) || other.raw_bit(i)) by {
                lemma_split_index(i, WORDS as int);
                lemma_word_and_or(self.words@[i / 64], other.words@[i / 64], (i % 64) as u64);
            }
        }
        r
    }
}

} // verus!
