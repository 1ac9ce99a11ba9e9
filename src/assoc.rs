//! Sequences of key-value pairs read as maps, where a later pair overrides
//! an earlier one with the same key.
use vstd::prelude::*;

verus! {

/// The map that a sequence of pairs describes: a later pair with a key
/// already present replaces the earlier one.
pub open spec fn assoc<K, V>(s: Seq<(K, V)>) -> Map<K, V>
    decreases s.len(),
{
    if s.len() == 0 {
        Map::empty()
    } else {
        assoc(s.drop_last()).insert(s.last().0, s.last().1)
    }
}

/// Whether no key occurs twice.
pub open spec fn keys_unique<K, V>(s: Seq<(K, V)>) -> bool {
    forall|i: int, j: int| 0 <= i < j < s.len() ==> s[i].0 != s[j].0
}

/// `f` applied to each item, or `None` when it fails on one of them.
pub open spec fn map_all<A, B>(s: Seq<A>, f: spec_fn(A) -> Option<B>) -> Option<Seq<B>>
    decreases s.len(),
{
    if s.len() == 0 {
        Some(Seq::empty())
    } else {
        match (map_all(s.drop_last(), f), f(s.last())) {
            (Some(bs), Some(b)) => Some(bs.push(b)),
            _ => None,
        }
    }
}

/// A pair that no later pair overrides gives the map's value for its key.
pub proof fn lemma_assoc_last<K, V>(s: Seq<(K, V)>, i: int)
    requires
        0 <= i < s.len(),
        forall|j: int| i < j < s.len() ==> s[j].0 != s[i].0,
    ensures
        assoc(s).contains_key(s[i].0),
        assoc(s)[s[i].0] == s[i].1,
    decreases s.len(),
{
    if i < s.len() - 1 {
        lemma_assoc_last(s.drop_last(), i);
    }
}

/// A key that no pair holds is not in the map.
pub proof fn lemma_assoc_absent<K, V>(s: Seq<(K, V)>, k: K)
    requires
        forall|j: int| 0 <= j < s.len() ==> s[j].0 != k,
    ensures
        !assoc(s).contains_key(k),
    decreases s.len(),
{
    if s.len() > 0 {
        lemma_assoc_absent(s.drop_last(), k);
    }
}

/// Every key of the map is held by some pair.
pub proof fn lemma_assoc_key<K, V>(s: Seq<(K, V)>, k: K)
    requires
        assoc(s).contains_key(k),
    ensures
        exists|j: int| 0 <= j < s.len() && s[j].0 == k,
{
    if !(exists|j: int| 0 <= j < s.len() && s[j].0 == k) {
        lemma_assoc_absent(s, k);
    }
}

/// With unique keys, every pair gives the map's value for its key.
pub proof fn lemma_assoc_unique<K, V>(s: Seq<(K, V)>, i: int)
    requires
        0 <= i < s.len(),
        keys_unique(s),
    ensures
        assoc(s).contains_key(s[i].0),
        assoc(s)[s[i].0] == s[i].1,
{
    lemma_assoc_last(s, i);
}

/// With unique keys, replacing the value of one pair inserts it in the map.
pub proof fn lemma_assoc_update<K, V>(s: Seq<(K, V)>, i: int, v: V)
    requires
        0 <= i < s.len(),
        keys_unique(s),
    ensures
        assoc(s.update(i, (s[i].0, v))) == assoc(s).insert(s[i].0, v),
    decreases s.len(),
{
    let t = s.update(i, (s[i].0, v));
    if i == s.len() - 1 {
        assert(t.drop_last() =~= s.drop_last());
        assert(assoc(t) =~= assoc(s).insert(s[i].0, v));
    } else {
        assert(t.drop_last() =~= s.drop_last().update(i, (s[i].0, v)));
        lemma_assoc_update(s.drop_last(), i, v);
        assert(s.last().0 != s[i].0);
        assert(assoc(t) =~= assoc(s).insert(s[i].0, v));
    }
}

/// With unique keys, the map has as many keys as there are pairs.
pub proof fn lemma_assoc_len<K, V>(s: Seq<(K, V)>)
    requires
        keys_unique(s),
    ensures
        assoc(s).dom().finite(),
        assoc(s).dom().len() == s.len(),
    decreases s.len(),
{
    if s.len() > 0 {
        let p = s.drop_last();
        lemma_assoc_len(p);
        assert forall|j: int| 0 <= j < p.len() implies p[j].0 != s.last().0 by {
            assert(p[j] == s[j]);
        }
        lemma_assoc_absent(p, s.last().0);
    }
}

/// The first `i + 1` items map exactly when the first `i` do and item `i` does.
pub proof fn lemma_map_all_step<A, B>(s: Seq<A>, f: spec_fn(A) -> Option<B>, i: int)
    requires
        0 <= i < s.len(),
    ensures
        map_all(s.take(i + 1), f) == match (map_all(s.take(i), f), f(s[i])) {
            (Some(bs), Some(b)) => Some(bs.push(b)),
            _ => None,
        },
{
    assert(s.take(i + 1).drop_last() =~= s.take(i));
    assert(s.take(i + 1).last() == s[i]);
}

/// Once a prefix fails to map, the whole sequence fails.
pub proof fn lemma_map_all_fails<A, B>(s: Seq<A>, f: spec_fn(A) -> Option<B>, m: nat)
    requires
        m <= s.len(),
        map_all(s.take(m as int), f) is None,
    ensures
        map_all(s, f) is None,
    decreases s.len() - m,
{
    if m < s.len() {
        lemma_map_all_step(s, f, m as int);
        lemma_map_all_fails(s, f, m + 1);
    } else {
        assert(s.take(m as int) =~= s);
    }
}

/// Whether item `i` is the first on which `f` fails.
pub open spec fn first_failure<A, B>(s: Seq<A>, f: spec_fn(A) -> Option<B>, i: int) -> bool {
    &&& 0 <= i < s.len()
    &&& f(s[i]) is None
    &&& forall|j: int| 0 <= j < i ==> f(s[j]) is Some
}

/// When a prefix maps, `f` succeeds on each of its items.
pub proof fn lemma_map_all_prefix<A, B>(s: Seq<A>, f: spec_fn(A) -> Option<B>, m: nat)
    requires
        m <= s.len(),
        map_all(s.take(m as int), f) is Some,
    ensures
        forall|j: int| 0 <= j < m ==> f(s[j]) is Some,
    decreases m,
{
    if m > 0 {
        lemma_map_all_step(s, f, m - 1);
        lemma_map_all_prefix(s, f, (m - 1) as nat);
    }
}

/// When the items before `i` map and item `i` does not, `i` is the first
/// failure and the whole sequence fails.
pub proof fn lemma_first_failure<A, B>(s: Seq<A>, f: spec_fn(A) -> Option<B>, i: int)
    requires
        0 <= i < s.len(),
        map_all(s.take(i), f) is Some,
        f(s[i]) is None,
    ensures
        map_all(s, f) is None,
        first_failure(s, f, i),
{
    lemma_map_all_step(s, f, i);
    lemma_map_all_fails(s, f, (i + 1) as nat);
    lemma_map_all_prefix(s, f, i as nat);
}

} // verus!
