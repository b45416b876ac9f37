use vstd::prelude::*;

verus! {

/// Bit `k` (0 = least significant) of a 64-bit word.
pub open spec fn word_bit(w: u64, k: u64) -> bool {
    (w >> k) & 1u64 == 1u64
}

/// The bits of a word with one bit set, and of words ORed with it.
pub proof fn lemma_word_or_single(w: u64, k: u64, j: u64)
    requires
        k < 64,
        j < 64,
    ensures
        word_bit(1u64 << k, j) == (j == k),
        word_bit(w | (1u64 << k), j) == (j == k || word_bit(w, j)),
{
    assert(((1u64 << k) >> j) & 1u64 == 1u64 <==> j == k) by (bit_vector)
        requires
            k < 64,
            j < 64,
    ;
    assert(((w | (1u64 << k)) >> j) & 1u64 == 1u64 <==> (j == k || (w >> j) & 1u64 == 1u64))
        by (bit_vector)
        requires
            k < 64,
            j < 64,
    ;
}

/// No bit of the zero word is set, every bit of the all-ones word is.
pub proof fn lemma_word_const(j: u64)
    requires
        j < 64,
    ensures
        !word_bit(0u64, j),
        word_bit(u64::MAX, j),
{
    assert((0u64 >> j) & 1u64 != 1u64) by (bit_vector);
    assert((0xffff_ffff_ffff_ffffu64 >> j) & 1u64 == 1u64) by (bit_vector)
        requires
            j < 64,
    ;
}

/// The bits of `2^r - 1` are those below `r`.
pub proof fn lemma_word_low_mask(r: u64, j: u64)
    requires
        0 < r < 64,
        j < 64,
    ensures
        (1u64 << r) >= 1,
        word_bit(((1u64 << r) - 1) as u64, j) == (j < r),
{
    assert((1u64 << r) >= 1) by (bit_vector)
        requires
            r < 64,
    ;
    assert((((1u64 << r) - 1) as u64 >> j) & 1u64 == 1u64 <==> j < r) by (bit_vector)
        requires
            0 < r < 64,
            j < 64,
    ;
}

/// Bits of AND and OR are the AND and OR of the bits.
pub proof fn lemma_word_and_or(a: u64, b: u64, j: u64)
    requires
        j < 64,
    ensures
        word_bit(a & b, j) == (word_bit(a, j) && word_bit(b, j)),
        word_bit(a | b, j) == (word_bit(a, j) || word_bit(b, j)),
{
    assert(((a & b) >> j) & 1u64 == 1u64 <==> ((a >> j) & 1u64 == 1u64 && (b >> j) & 1u64 == 1u64))
        by (bit_vector);
    assert(((a | b) >> j) & 1u64 == 1u64 <==> ((a >> j) & 1u64 == 1u64 || (b >> j) & 1u64 == 1u64))
        by (bit_vector);
}

/// Bits of a word shifted left.
pub proof fn lemma_word_shl(x: u64, s: u64, j: u64)
    requires
        s < 64,
        j < 64,
    ensures
        word_bit(x << s, j) == (j >= s && word_bit(x, (j - s) as u64)),
{
    assert(((x << s) >> j) & 1u64 == 1u64 <==> (j >= s && (x >> ((j - s) as u64)) & 1u64 == 1u64))
        by (bit_vector)
        requires
            s < 64,
            j < 64,
    ;
}

/// Bits of a word shifted right.
pub proof fn lemma_word_shr(y: u64, t: u64, j: u64)
    requires
        0 < t < 64,
        j < 64,
    ensures
        word_bit(y >> t, j) == (j + t < 64 && word_bit(y, (j + t) as u64)),
{
    assert(((y >> t) >> j) & 1u64 == 1u64 <==> (j + t < 64 && (y >> ((j + t) as u64)) & 1u64 == 1u64))
        by (bit_vector)
        requires
            0 < t < 64,
            j < 64,
    ;
}

/// Reading bit `k` of a word the way the code does.
pub proof fn lemma_word_test(w: u64, k: u64)
    requires
        k < 64,
    ensures
        ((w >> k) & 1u64 != 0) == word_bit(w, k),
{
    assert(((w >> k) & 1u64 != 0) <==> ((w >> k) & 1u64 == 1u64)) by (bit_vector);
}

/// The bits of the small constants and repeating patterns used to build test
/// operands.
pub proof fn lemma_word_patterns(j: u64)
    requires
        j < 64,
    ensures
        word_bit(3u64, j) == (j < 2),
        word_bit(5u64, j) == (j == 0 || j == 2),
        word_bit(7u64, j) == (j < 3),
        word_bit(0xAAAA_AAAA_AAAA_AAAAu64, j) == (j % 2 == 1),
        word_bit(0x5555_5555_5555_5555u64, j) == (j % 2 == 0),
{
    assert((3u64 >> j) & 1u64 == 1u64 <==> j < 2) by (bit_vector)
        requires
            j < 64,
    ;
    assert((5u64 >> j) & 1u64 == 1u64 <==> (j == 0 || j == 2)) by (bit_vector)
        requires
            j < 64,
    ;
    assert((7u64 >> j) & 1u64 == 1u64 <==> j < 3) by (bit_vector)
        requires
            j < 64,
    ;
    assert((0xAAAA_AAAA_AAAA_AAAAu64 >> j) & 1u64 == 1u64 <==> j % 2 == 1) by (bit_vector)
        requires
            j < 64,
    ;
    assert((0x5555_5555_5555_5555u64 >> j) & 1u64 == 1u64 <==> j % 2 == 0) by (bit_vector)
        requires
            j < 64,
    ;
}

/// A non-zero word with no bit set at or above `hi` has a set bit below `hi`.
proof fn lemma_find_set_bit(x: u64, hi: u64) -> (i: u64)
    requires
        x != 0,
        hi <= 64,
        x >> hi == 0,
    ensures
        i < hi,
        word_bit(x, i),
    decreases hi,
{
    assert(hi != 0 && (x & 1u64 == 1u64 ==> (x >> 0u64) & 1u64 == 1u64)) by (bit_vector)
        requires
            x != 0,
            hi <= 64,
            x >> hi == 0,
    ;
    if x & 1u64 == 1u64 {
        0
    } else {
        let y = x >> 1u64;
        let h = (hi - 1) as u64;
        assert(y != 0 && y >> h == 0) by (bit_vector)
            requires
                x & 1u64 != 1u64,
                x != 0,
                x >> hi == 0,
                hi <= 64,
                hi != 0,
                y == x >> 1u64,
                h == hi - 1,
        ;
        let j = lemma_find_set_bit(y, h);
        assert((x >> ((j + 1) as u64)) & 1u64 == 1u64) by (bit_vector)
            requires
                (y >> j) & 1u64 == 1u64,
                y == x >> 1u64,
                j < 63,
        ;
        (j + 1) as u64
    }
}

/// Words with the same bits are the same word.
pub proof fn lemma_word_ext(a: u64, b: u64)
    requires
        forall|j: u64| j < 64 ==> word_bit(a, j) == word_bit(b, j),
    ensures
        a == b,
{
    if a != b {
        let x = a ^ b;
        assert(x != 0 && x >> 64u64 == 0) by (bit_vector)
            requires
                a != b,
                x == a ^ b,
        ;
        let i = lemma_find_set_bit(x, 64);
        assert(((a >> i) & 1u64 == 1u64) != ((b >> i) & 1u64 == 1u64)) by (bit_vector)
            requires
                ((a ^ b) >> i) & 1u64 == 1u64,
        ;
        assert(word_bit(a, i) == word_bit(b, i));
    }
}

} // verus!
