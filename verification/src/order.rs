use vstd::prelude::*;

verus! {

/// Lexicographic order on integer sequences: the first position where they
/// differ decides, and a sequence that runs out first is not less.
pub open spec fn lex_lt(a: Seq<int>, b: Seq<int>) -> bool
    decreases a.len(),
{
    if a.len() == 0 || b.len() == 0 {
        false
    } else if a[0] < b[0] {
        true
    } else if a[0] > b[0] {
        false
    } else {
        lex_lt(a.skip(1), b.skip(1))
    }
}

/// No sequence is less than itself.
pub proof fn lemma_lex_irreflexive(a: Seq<int>)
    ensures
        !lex_lt(a, a),
    decreases a.len(),
{
    if a.len() > 0 {
        lemma_lex_irreflexive(a.skip(1));
    }
}

/// The order is transitive.
pub proof fn lemma_lex_transitive(a: Seq<int>, b: Seq<int>, c: Seq<int>)
    requires
        lex_lt(a, b),
        lex_lt(b, c),
    ensures
        lex_lt(a, c),
    decreases a.len(),
{
    if a[0] == b[0] && b[0] == c[0] {
        lemma_lex_transitive(a.skip(1), b.skip(1), c.skip(1));
    }
}

/// Of two different sequences of the same length, one is less than the other.
pub proof fn lemma_lex_total(a: Seq<int>, b: Seq<int>)
    requires
        a.len() == b.len(),
    ensures
        lex_lt(a, b) || lex_lt(b, a) || a == b,
    decreases a.len(),
{
    if a.len() == 0 {
        assert(a =~= b);
    } else if a[0] == b[0] {
        lemma_lex_total(a.skip(1), b.skip(1));
        if a.skip(1) == b.skip(1) {
            assert forall|k: int| 0 <= k < a.len() implies a[k] == b[k] by {
                if k > 0 {
                    assert(a[k] == a.skip(1)[k - 1]);
                    assert(b[k] == b.skip(1)[k - 1]);
                }
            }
            assert(a =~= b);
        }
    }
}

/// The integers of a sequence of `i128`.
pub open spec fn ints(s: Seq<i128>) -> Seq<int> {
    Seq::new(s.len(), |k: int| s[k] as int)
}

/// Items that are ordered by a sequence of integers, compared
/// lexicographically. Different items have different keys.
pub trait SortKey: Sized + Copy {
    /// The key by which the item is ordered.
    spec fn key(&self) -> Seq<int>;

    /// The length of every key.
    spec fn key_len() -> nat;

    /// Keys have one length, and equal keys belong to equal items.
    proof fn lemma_key(a: Self, b: Self)
        ensures
            a.key().len() == Self::key_len(),
            a.key() == b.key() ==> a == b,
    ;

    /// The key, as machine integers.
    fn key_vec(&self) -> (r: Vec<i128>)
        ensures
            ints(r@) == self.key(),
    ;
}

/// `a` comes before `b` in the order of their keys.
pub open spec fn key_lt<T: SortKey>(a: T, b: T) -> bool {
    lex_lt(a.key(), b.key())
}

/// Every item comes strictly before the items after it (so none is repeated).
pub open spec fn strictly_sorted<T: SortKey>(s: Seq<T>) -> bool {
    forall|i: int, j: int| 0 <= i < j < s.len() ==> key_lt(#[trigger] s[i], #[trigger] s[j])
}

/// Both sequences hold the same items (counting each item once).
pub open spec fn same_items<T>(a: Seq<T>, b: Seq<T>) -> bool {
    forall|x: T| a.contains(x) <==> b.contains(x)
}

/// Compare two keys lexicographically.
fn lex_less(a: &Vec<i128>, b: &Vec<i128>) -> (r: bool)
    ensures
        r == lex_lt(ints(a@), ints(b@)),
{
    let mut i: usize = 0;
    proof {
        assert(ints(a@).skip(0) =~= ints(a@));
        assert(ints(b@).skip(0) =~= ints(b@));
    }
    while i < a.len() && i < b.len()
        invariant
            0 <= i <= a@.len(),
            i <= b@.len(),
            lex_lt(ints(a@), ints(b@)) == lex_lt(ints(a@).skip(i as int), ints(b@).skip(i as int)),
        decreases a@.len() - i,
    {
        let ghost sa = ints(a@).skip(i as int);
        let ghost sb = ints(b@).skip(i as int);
        proof {
            assert(sa[0] == a@[i as int] as int);
            assert(sb[0] == b@[i as int] as int);
            assert(sa.skip(1) =~= ints(a@).skip(i + 1));
            assert(sb.skip(1) =~= ints(b@).skip(i + 1));
        }
        if a[i] < b[i] {
            return true;
        }
        if a[i] > b[i] {
            return false;
        }
        i = i + 1;
    }
    false
}

/// Whether `a` comes before `b`.
pub fn key_less<T: SortKey>(a: &T, b: &T) -> (r: bool)
    ensures
        r == key_lt(*a, *b),
{
    let ka = a.key_vec();
    let kb = b.key_vec();
    lex_less(&ka, &kb)
}

/// The items of the first `i` positions together with the next one.
proof fn lemma_take_next<T>(s: Seq<T>, i: int)
    requires
        0 <= i < s.len(),
    ensures
        forall|x: T| #![trigger s.take(i + 1).contains(x)] #![trigger s.take(i).contains(x)]
            s.take(i + 1).contains(x) <==> (s.take(i).contains(x) || x == s[i]),
{
    assert(s.take(i + 1) =~= s.take(i).push(s[i]));
    let t1 = s.take(i + 1);
    let t0 = s.take(i);
    assert forall|x: T| t1.contains(x) <==> (t0.contains(x) || x == s[i]) by {
        if t1.contains(x) {
            let k = choose|k: int| 0 <= k < t1.len() && #[trigger] t1[k] == x;
            if k < i {
                assert(t0[k] == x);
            }
        }
        if t0.contains(x) {
            let k = choose|k: int| 0 <= k < t0.len() && #[trigger] t0[k] == x;
            assert(t1[k] == x);
        }
        if x == s[i] {
            assert(t1[i] == x);
        }
    }
}

/// Appending an item that comes after the last keeps a sequence strictly sorted.
proof fn lemma_push_sorted<T: SortKey>(c: Seq<T>, x: T)
    requires
        strictly_sorted(c),
        c.len() > 0 ==> key_lt(c.last(), x),
    ensures
        strictly_sorted(c.push(x)),
        forall|y: T| #![trigger c.push(x).contains(y)] #![trigger c.contains(y)]
            c.push(x).contains(y) <==> (c.contains(y) || y == x),
{
    let d = c.push(x);
    assert forall|i: int, j: int| 0 <= i < j < d.len() implies key_lt(#[trigger] d[i], #[trigger] d[j]) by {
        if j == c.len() {
            if i < c.len() - 1 {
                lemma_lex_transitive(c[i].key(), c.last().key(), x.key());
            }
        } else {
            assert(d[i] == c[i] && d[j] == c[j]);
        }
    }
    assert forall|y: T| d.contains(y) <==> (c.contains(y) || y == x) by {
        if d.contains(y) {
            let k = choose|k: int| 0 <= k < d.len() && #[trigger] d[k] == y;
            if k < c.len() {
                assert(c[k] == y);
            }
        }
        if c.contains(y) {
            let k = choose|k: int| 0 <= k < c.len() && #[trigger] c[k] == y;
            assert(d[k] == y);
        }
        if y == x {
            assert(d[c.len() as int] == y);
        }
    }
}

/// The items of two strictly sorted vectors, in order and each once.
pub fn merge_dedup<T: SortKey>(a: &Vec<T>, b: &Vec<T>) -> (c: Vec<T>)
    requires
        strictly_sorted(a@),
        strictly_sorted(b@),
    ensures
        strictly_sorted(c@),
        forall|x: T| c@.contains(x) <==> (a@.contains(x) || b@.contains(x)),
{
    let mut c: Vec<T> = Vec::new();
    let mut i: usize = 0;
    let mut j: usize = 0;
    while i < a.len() || j < b.len()
        invariant
            strictly_sorted(a@),
            strictly_sorted(b@),
            0 <= i <= a@.len(),
            0 <= j <= b@.len(),
            strictly_sorted(c@),
            forall|x: T| #![trigger c@.contains(x)] #![trigger a@.take(i as int).contains(x)] #![trigger b@.take(j as int).contains(x)]
                c@.contains(x) <==> (a@.take(i as int).contains(x) || b@.take(j as int).contains(x)),
            c@.len() > 0 && i < a@.len() ==> key_lt(c@.last(), a@[i as int]),
            c@.len() > 0 && j < b@.len() ==> key_lt(c@.last(), b@[j as int]),
        decreases a@.len() + b@.len() - i - j,
    {
        if j >= b.len() || (i < a.len() && key_less(&a[i], &b[j])) {
            let x = a[i];
            proof {
                lemma_push_sorted(c@, x);
                lemma_take_next(a@, i as int);
                if i + 1 < a@.len() {
                    assert(key_lt(a@[i as int], a@[i + 1]));
                }
            }
            c.push(x);
            i = i + 1;
        } else if i >= a.len() || key_less(&b[j], &a[i]) {
            let x = b[j];
            proof {
                lemma_push_sorted(c@, x);
                lemma_take_next(b@, j as int);
                if j + 1 < b@.len() {
                    assert(key_lt(b@[j as int], b@[j + 1]));
                }
            }
            c.push(x);
            j = j + 1;
        } else {
            let x = a[i];
            proof {
                T::lemma_key(a@[i as int], b@[j as int]);
                T::lemma_key(b@[j as int], a@[i as int]);
                lemma_lex_total(a@[i as int].key(), b@[j as int].key());
                assert(a@[i as int] == b@[j as int]);
                lemma_push_sorted(c@, x);
                lemma_take_next(a@, i as int);
                lemma_take_next(b@, j as int);
                if i + 1 < a@.len() {
                    assert(key_lt(a@[i as int], a@[i + 1]));
                }
                if j + 1 < b@.len() {
                    assert(key_lt(b@[j as int], b@[j + 1]));
                }
            }
            c.push(x);
            i = i + 1;
            j = j + 1;
        }
    }
    proof {
        assert(a@.take(a@.len() as int) =~= a@);
        assert(b@.take(b@.len() as int) =~= b@);
    }
    c
}

/// The items of `v`, each once, in the order of their keys.
pub fn sort_dedup<T: SortKey>(v: Vec<T>) -> (r: Vec<T>)
    ensures
        strictly_sorted(r@),
        same_items(r@, v@),
    decreases v@.len(),
{
    if v.len() <= 1 {
        return v;
    }
    let mid = v.len() / 2;
    let mut left: Vec<T> = Vec::new();
    let mut right: Vec<T> = Vec::new();
    let mut k: usize = 0;
    while k < v.len()
        invariant
            0 <= k <= v@.len(),
            mid == v@.len() / 2,
            left@ == v@.take(if k < mid { k as int } else { mid as int }),
            right@ == if k < mid { Seq::<T>::empty() } else { v@.subrange(mid as int, k as int) },
        decreases v@.len() - k,
    {
        if k < mid {
            left.push(v[k]);
            proof {
                assert(v@.take(k + 1) =~= v@.take(k as int).push(v@[k as int]));
            }
        } else {
            right.push(v[k]);
            proof {
                assert(v@.subrange(mid as int, k + 1) =~= v@.subrange(mid as int, k as int).push(v@[k as int]));
            }
        }
        k = k + 1;
    }
    let sl = sort_dedup(left);
    let sr = sort_dedup(right);
    let r = merge_dedup(&sl, &sr);
    proof {
        assert forall|x: T| r@.contains(x) <==> v@.contains(x) by {
            if v@.contains(x) {
                let i = choose|i: int| 0 <= i < v@.len() && #[trigger] v@[i] == x;
                if i < mid {
                    assert(left@[i] == x);
                } else {
                    assert(right@[i - mid] == x);
                }
            }
            if left@.contains(x) {
                let i = choose|i: int| 0 <= i < left@.len() && #[trigger] left@[i] == x;
                assert(v@[i] == x);
            }
            if right@.contains(x) {
                let i = choose|i: int| 0 <= i < right@.len() && #[trigger] right@[i] == x;
                assert(v@[i + mid] == x);
            }
        }
    }
    r
}

/// Two strictly sorted sequences with the same items are the same sequence:
/// the result of [`sort_dedup`] depends only on which items there are.
pub proof fn lemma_sorted_unique<T: SortKey>(a: Seq<T>, b: Seq<T>)
    requires
        strictly_sorted(a),
        strictly_sorted(b),
        same_items(a, b),
    ensures
        a == b,
    decreases a.len(),
{
    if a.len() == 0 {
        if b.len() > 0 {
            assert(b.contains(b[0]));
        }
        assert(a =~= b);
    } else if b.len() == 0 {
        assert(a.contains(a[0]));
    } else {
        // the first items are the least, so they are equal
        assert(a.contains(a[0]));
        assert(b.contains(b[0]));
        let ia = choose|i: int| 0 <= i < b.len() && #[trigger] b[i] == a[0];
        let ib = choose|i: int| 0 <= i < a.len() && #[trigger] a[i] == b[0];
        if ia > 0 && ib > 0 {
            lemma_lex_transitive(a[0].key(), a[ib].key(), a[0].key());
            lemma_lex_irreflexive(a[0].key());
        }
        assert(a[0] == b[0]);
        let a1 = a.drop_first();
        let b1 = b.drop_first();
        assert forall|x: T| a1.contains(x) <==> b1.contains(x) by {
            if a1.contains(x) {
                let i = choose|i: int| 0 <= i < a1.len() && #[trigger] a1[i] == x;
                assert(a[i + 1] == x);
                assert(a.contains(x));
                let k = choose|k: int| 0 <= k < b.len() && #[trigger] b[k] == x;
                if k == 0 {
                    assert(key_lt(a[0], a[i + 1]));
                    lemma_lex_irreflexive(a[0].key());
                }
                assert(b1[k - 1] == x);
            }
            if b1.contains(x) {
                let i = choose|i: int| 0 <= i < b1.len() && #[trigger] b1[i] == x;
                assert(b[i + 1] == x);
                assert(b.contains(x));
                let k = choose|k: int| 0 <= k < a.len() && #[trigger] a[k] == x;
                if k == 0 {
                    assert(key_lt(b[0], b[i + 1]));
                    lemma_lex_irreflexive(b[0].key());
                }
                assert(a1[k - 1] == x);
            }
        }
        assert(strictly_sorted(a1)) by {
            assert forall|i: int, j: int| 0 <= i < j < a1.len() implies key_lt(#[trigger] a1[i], #[trigger] a1[j]) by {
                assert(a1[i] == a[i + 1] && a1[j] == a[j + 1]);
            }
        }
        assert(strictly_sorted(b1)) by {
            assert forall|i: int, j: int| 0 <= i < j < b1.len() implies key_lt(#[trigger] b1[i], #[trigger] b1[j]) by {
                assert(b1[i] == b[i + 1] && b1[j] == b[j + 1]);
            }
        }
        lemma_sorted_unique(a1, b1);
        assert(a =~= b) by {
            assert forall|k: int| 0 <= k < a.len() implies a[k] == b[k] by {
                if k > 0 {
                    assert(a[k] == a1[k - 1]);
                    assert(b[k] == b1[k - 1]);
                }
            }
        }
    }
}

} // verus!
