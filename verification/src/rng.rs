use vstd::prelude::*;

verus! {

/// A small deterministic xorshift random number generator.
pub struct SimpleRng {
    pub state: u64,
}

/// One xorshift step: the next state after `s`.
pub open spec fn xorshift(s: u64) -> u64 {
    let a = s ^ (s << 13u64);
    let b = a ^ (a >> 7u64);
    b ^ (b << 17u64)
}

/// `s` with the items at `i` and `j` exchanged.
pub open spec fn swap_seq<T>(s: Seq<T>, i: int, j: int) -> Seq<T> {
    s.update(i, s[j]).update(j, s[i])
}

/// The Fisher-Yates steps for positions `i`, `i - 1`, ..., `1`: each step
/// draws the next number and exchanges position `i` with a position at or
/// below it chosen by that number. Gives the items and the final state.
pub open spec fn shuffle_steps<T>(s: Seq<T>, state: u64, i: int) -> (Seq<T>, u64)
    decreases i,
{
    if i < 1 {
        (s, state)
    } else {
        let next = xorshift(state);
        let j = ((next as usize) as int) % (i + 1);
        shuffle_steps(swap_seq(s, i, j), next, i - 1)
    }
}

/// The whole Fisher-Yates shuffle of `s` from `state`.
pub open spec fn shuffled<T>(s: Seq<T>, state: u64) -> (Seq<T>, u64) {
    shuffle_steps(s, state, s.len() - 1)
}

/// Exchanges two items of a slice.
///
/// Trusted: calls `<[T]>::swap`, which std documents as swapping the two
/// elements (leaving them unchanged when the positions are equal) and as
/// panicking when either position is out of bounds, which `requires` rules out.
#[verifier::external_body]
fn swap_items<T>(slice: &mut [T], i: usize, j: usize)
    requires
        i < old(slice)@.len(),
        j < old(slice)@.len(),
    ensures
        final(slice)@ == swap_seq(old(slice)@, i as int, j as int),
{
    slice.swap(i, j)
}

impl SimpleRng {
    /// A generator seeded with `seed` (a zero seed is replaced by one, since
    /// xorshift stays at zero forever).
    pub fn new(seed: u64) -> (r: Self)
        ensures
            r.state == if seed == 0 { 1u64 } else { seed },
    {
        SimpleRng { state: if seed == 0 { 1 } else { seed } }
    }

    /// Advance the state by one xorshift step and return it.
    pub fn next_u64(&mut self) -> (r: u64)
        ensures
            r == xorshift(old(self).state),
            final(self).state == r,
    {
        self.state = self.state ^ (self.state << 13u64);
        self.state = self.state ^ (self.state >> 7u64);
        self.state = self.state ^ (self.state << 17u64);
        self.state
    }

    /// Shuffle the items in place (Fisher-Yates, from the last position down).
    pub fn shuffle<T>(&mut self, slice: &mut [T])
        ensures
            (final(slice)@, final(self).state) == shuffled(old(slice)@, old(self).state),
    {
        let n = slice.len();
        if n == 0 {
            return;
        }
        let mut i = n - 1;
        while i > 0
            invariant
                n == old(slice)@.len(),
                slice@.len() == n,
                0 <= i < n,
                shuffle_steps(slice@, self.state, i as int) == shuffled(old(slice)@, old(self).state),
            decreases i,
        {
            let r = self.next_u64();
            let j = (r as usize) % (i + 1);
            swap_items(slice, i, j);
            i = i - 1;
        }
    }
}

/// A non-zero state never becomes zero.
pub proof fn lemma_xorshift_nonzero(s: u64)
    requires
        s != 0,
    ensures
        xorshift(s) != 0,
{
    let a = s ^ (s << 13u64);
    assert(a != 0) by (bit_vector)
        requires
            s != 0,
            a == s ^ (s << 13u64),
    ;
    let b = a ^ (a >> 7u64);
    assert(b != 0) by (bit_vector)
        requires
            a != 0,
            b == a ^ (a >> 7u64),
    ;
    let c = b ^ (b << 17u64);
    assert(c != 0) by (bit_vector)
        requires
            b != 0,
            c == b ^ (b << 17u64),
    ;
}

/// Exchanging two items keeps the same items, counted with repetition.
pub proof fn lemma_swap_multiset<T>(s: Seq<T>, i: int, j: int)
    requires
        0 <= i < s.len(),
        0 <= j < s.len(),
    ensures
        swap_seq(s, i, j).to_multiset() == s.to_multiset(),
{
    broadcast use vstd::seq_lib::to_multiset_update, vstd::seq_lib::to_multiset_contains,
        vstd::multiset::group_multiset_axioms;
    let s1 = s.update(i, s[j]);
    if i == j {
        assert(s1 =~= s);
        assert(s1.update(j, s[i]) =~= s);
    } else {
        assert(s1[j] == s[j]);
        assert(s1.to_multiset() =~= s.to_multiset().insert(s[j]).remove(s[i]));
        assert(s1.update(j, s[i]).to_multiset() =~= s1.to_multiset().insert(s[i]).remove(s[j]));
        let m = s.to_multiset();
        assert(s.contains(s[i]));
        assert(m.count(s[i]) > 0);
        assert(m.insert(s[j]).remove(s[i]).insert(s[i]).remove(s[j]) =~= m);
    }
}

/// A shuffle only reorders the items: it keeps the same items, counted with
/// repetition.
pub proof fn lemma_shuffle_permutes<T>(s: Seq<T>, state: u64, i: int)
    requires
        i < s.len(),
    ensures
        shuffle_steps(s, state, i).0.to_multiset() == s.to_multiset(),
        shuffle_steps(s, state, i).0.len() == s.len(),
    decreases i,
{
    if i >= 1 {
        let next = xorshift(state);
        let j = ((next as usize) as int) % (i + 1);
        lemma_swap_multiset(s, i, j);
        lemma_shuffle_permutes(swap_seq(s, i, j), next, i - 1);
    }
}

} // verus!
