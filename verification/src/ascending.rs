//! Sequences of entries in strictly ascending order of their keys, and the
//! search for the place of a key by bisection.

use vstd::prelude::*;

verus! {

/// Keys with a strict order that can be decided.
pub trait Key: Sized {
    /// Whether `self` comes strictly before `other`.
    spec fn key_precedes(&self, other: &Self) -> bool;

    /// Decides the order of two keys.
    fn key_is_before(&self, other: &Self) -> (b: bool)
        ensures
            b == self.key_precedes(other),
    ;

    /// The order carries over a key in between.
    proof fn lemma_key_precedes_transitive(a: Self, b: Self, c: Self)
        requires
            a.key_precedes(&b),
            b.key_precedes(&c),
        ensures
            a.key_precedes(&c),
    ;
}

/// The keys go strictly up along the sequence.
pub open spec fn ascending<K: Key, V>(s: Seq<(K, V)>) -> bool {
    forall|i: int, j: int|
        0 <= i < j < s.len() ==> (#[trigger] s[i]).0.key_precedes(&(#[trigger] s[j]).0)
}

/// The number of entries whose key precedes `key`: the place at which an
/// entry under `key` goes into an ascending sequence.
pub open spec fn rank<K: Key, V>(s: Seq<(K, V)>, key: K) -> int
    decreases s.len(),
{
    if s.len() == 0 {
        0
    } else if s.last().0.key_precedes(&key) {
        rank(s.drop_last(), key) + 1
    } else {
        rank(s.drop_last(), key)
    }
}

/// The rank of a key lies within the sequence or at its end.
pub proof fn lemma_rank_in_range<K: Key, V>(s: Seq<(K, V)>, key: K)
    ensures
        0 <= rank(s, key) <= s.len(),
    decreases s.len(),
{
    if s.len() > 0 {
        lemma_rank_in_range(s.drop_last(), key);
    }
}

/// Where the keys that precede `key` are exactly those before `pos`, `pos`
/// is the rank of `key`.
pub proof fn lemma_rank_at_boundary<K: Key, V>(s: Seq<(K, V)>, key: K, pos: int)
    requires
        0 <= pos <= s.len(),
        forall|i: int| 0 <= i < pos ==> (#[trigger] s[i]).0.key_precedes(&key),
        forall|i: int| pos <= i < s.len() ==> !(#[trigger] s[i]).0.key_precedes(&key),
    ensures
        rank(s, key) == pos,
    decreases s.len(),
{
    if s.len() > 0 {
        let front = s.drop_last();
        assert forall|i: int| 0 <= i < front.len() implies front[i] == s[i] by {}
        if pos == s.len() {
            assert(s[s.len() - 1].0.key_precedes(&key));
            lemma_rank_at_boundary(front, key, pos - 1);
        } else {
            assert(!s[s.len() - 1].0.key_precedes(&key));
            lemma_rank_at_boundary(front, key, pos);
        }
    }
}

/// In an ascending sequence the keys that precede `key` come first: the
/// rank of `key` parts them from the rest.
pub proof fn lemma_rank_parts<K: Key, V>(s: Seq<(K, V)>, key: K)
    requires
        ascending(s),
    ensures
        0 <= rank(s, key) <= s.len(),
        forall|i: int| 0 <= i < rank(s, key) ==> (#[trigger] s[i]).0.key_precedes(&key),
        forall|i: int| rank(s, key) <= i < s.len() ==> !(#[trigger] s[i]).0.key_precedes(&key),
    decreases s.len(),
{
    if s.len() > 0 {
        let front = s.drop_last();
        assert forall|i: int| 0 <= i < front.len() implies front[i] == s[i] by {}
        lemma_rank_parts(front, key);
        if s.last().0.key_precedes(&key) {
            assert forall|i: int| 0 <= i < rank(s, key) implies (#[trigger] s[i]).0.key_precedes(
                &key,
            ) by {
                if i < front.len() {
                    assert(s[i].0.key_precedes(&s[s.len() - 1].0));
                    K::lemma_key_precedes_transitive(s[i].0, s[s.len() - 1].0, key);
                }
            }
            if rank(front, key) < front.len() {
                let i = rank(front, key);
                assert(!s[i].0.key_precedes(&key));
                assert(s[i].0.key_precedes(&s[s.len() - 1].0));
                K::lemma_key_precedes_transitive(s[i].0, s[s.len() - 1].0, key);
            }
        }
    }
}

/// Order and rank are a matter of the keys alone: two sequences with the
/// same keys ascend alike and give every key the same rank.
pub proof fn lemma_rank_by_keys<K: Key, V, W>(s: Seq<(K, V)>, t: Seq<(K, W)>, key: K)
    requires
        s.len() == t.len(),
        forall|i: int| 0 <= i < s.len() ==> (#[trigger] s[i]).0 == t[i].0,
    ensures
        rank(s, key) == rank(t, key),
        ascending(s) == ascending(t),
    decreases s.len(),
{
    if s.len() > 0 {
        assert(s.last().0 == s[s.len() - 1].0);
        assert(t.last().0 == t[t.len() - 1].0);
        assert forall|i: int| 0 <= i < s.len() - 1 implies (#[trigger] s.drop_last()[i]).0
            == t.drop_last()[i].0 by {
            assert(s.drop_last()[i] == s[i]);
            assert(t.drop_last()[i] == t[i]);
        }
        lemma_rank_by_keys(s.drop_last(), t.drop_last(), key);
    }
    if ascending(s) {
        assert forall|i: int, j: int| 0 <= i < j < t.len() implies (#[trigger] t[i]).0.key_precedes(
            &(#[trigger] t[j]).0,
        ) by {
            assert(s[i].0.key_precedes(&s[j].0));
        }
    }
    if ascending(t) {
        assert forall|i: int, j: int| 0 <= i < j < s.len() implies (#[trigger] s[i]).0.key_precedes(
            &(#[trigger] s[j]).0,
        ) by {
            assert(t[i].0.key_precedes(&t[j].0));
        }
    }
}

/// The place in `entries` at which an entry under `key` belongs, found by
/// bisection.
pub fn lower_bound<K: Key, V>(entries: &Vec<(K, V)>, key: &K) -> (pos: usize)
    requires
        ascending(entries@),
    ensures
        pos == rank(entries@, *key),
        pos <= entries.len(),
{
    let mut lo: usize = 0;
    let mut hi: usize = entries.len();
    while lo < hi
        invariant
            lo <= hi <= entries.len(),
            ascending(entries@),
            forall|i: int| 0 <= i < lo ==> (#[trigger] entries@[i]).0.key_precedes(key),
            forall|i: int| hi <= i < entries.len() ==> !(#[trigger] entries@[i]).0.key_precedes(key),
        decreases hi - lo,
    {
        let mid = lo + (hi - lo) / 2;
        if entries[mid].0.key_is_before(key) {
            proof {
                assert forall|i: int| 0 <= i < mid + 1 implies (#[trigger] entries@[i]).0.key_precedes(
                    key,
                ) by {
                    if i < mid {
                        assert(entries@[i].0.key_precedes(&entries@[mid as int].0));
                        K::lemma_key_precedes_transitive(
                            entries@[i].0,
                            entries@[mid as int].0,
                            *key,
                        );
                    }
                }
            }
            lo = mid + 1;
        } else {
            proof {
                assert forall|i: int| mid <= i < entries.len() implies !(
                #[trigger] entries@[i]).0.key_precedes(key) by {
                    if mid < i && entries@[i].0.key_precedes(key) {
                        assert(entries@[mid as int].0.key_precedes(&entries@[i].0));
                        K::lemma_key_precedes_transitive(
                            entries@[mid as int].0,
                            entries@[i].0,
                            *key,
                        );
                    }
                }
            }
            hi = mid;
        }
    }
    proof {
        lemma_rank_at_boundary(entries@, *key, lo as int);
    }
    lo
}

} // verus!
