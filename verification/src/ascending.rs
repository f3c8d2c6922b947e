//! Listing the entries of a finite map by ascending key.

use vstd::prelude::*;

verus! {

/// `s` lists the entries of `m`, each once, by ascending key.
pub open spec fn lists<V>(s: Seq<(u64, V)>, m: Map<u64, V>) -> bool {
    &&& forall|i: int, j: int| 0 <= i < j < s.len() ==> (#[trigger] s[i]).0 < (#[trigger] s[j]).0
    &&& forall|i: int| 0 <= i < s.len() ==> m.contains_pair((#[trigger] s[i]).0, s[i].1)
    &&& forall|k: u64| #[trigger]
        m.contains_key(k) ==> exists|i: int| 0 <= i < s.len() && (#[trigger] s[i]).0 == k
}

/// The entries of `m` whose keys lie below `bound`, by ascending key.
pub open spec fn listing_below<V>(m: Map<u64, V>, bound: nat) -> Seq<(u64, V)>
    decreases bound,
{
    if bound == 0 {
        Seq::empty()
    } else {
        let k = (bound - 1) as u64;
        let below = listing_below(m, (bound - 1) as nat);
        if bound - 1 <= u64::MAX && m.contains_key(k) {
            below.push((k, m[k]))
        } else {
            below
        }
    }
}

/// The entries of `m` by ascending key.
pub open spec fn listing<V>(m: Map<u64, V>) -> Seq<(u64, V)> {
    listing_below(m, (u64::MAX + 1) as nat)
}

/// The part of `m` whose keys lie below `bound`.
pub open spec fn below<V>(m: Map<u64, V>, bound: nat) -> Map<u64, V> {
    m.restrict(Set::new(|k: u64| k < bound))
}

proof fn lemma_listing_below<V>(m: Map<u64, V>, bound: nat)
    ensures
        lists(listing_below(m, bound), below(m, bound)),
    decreases bound,
{
    let s = listing_below(m, bound);
    let mb = below(m, bound);
    if bound > 0 {
        let prev = listing_below(m, (bound - 1) as nat);
        let mp = below(m, (bound - 1) as nat);
        lemma_listing_below(m, (bound - 1) as nat);
        assert(forall|i: int| 0 <= i < prev.len() ==> (#[trigger] prev[i]).0 < bound - 1);
        assert forall|key: u64| #[trigger] mb.contains_key(key) implies exists|i: int|
            0 <= i < s.len() && (#[trigger] s[i]).0 == key by {
            if key < bound - 1 {
                assert(mp.contains_key(key));
                let i = choose|i: int| 0 <= i < prev.len() && (#[trigger] prev[i]).0 == key;
                assert(s[i] == prev[i]);
            } else {
                assert(s[s.len() - 1].0 == key);
            }
        }
        assert(forall|i: int|
            0 <= i < s.len() ==> mb.contains_pair((#[trigger] s[i]).0, s[i].1));
    }
}

/// The listing of a map lists it.
pub proof fn lemma_listing<V>(m: Map<u64, V>)
    ensures
        lists(listing(m), m),
{
    lemma_listing_below(m, (u64::MAX + 1) as nat);
    assert(below(m, (u64::MAX + 1) as nat) =~= m);
}

/// A map has one listing only.
pub proof fn lemma_lists_unique<V>(s: Seq<(u64, V)>, t: Seq<(u64, V)>, m: Map<u64, V>)
    requires
        lists(s, m),
        lists(t, m),
    ensures
        s == t,
    decreases s.len(),
{
    if s.len() == 0 {
        if t.len() > 0 {
            assert(m.contains_key(t[0].0));
        }
    } else {
        // Both end with the entry of the greatest key.
        let e = s.last();
        assert(m.contains_key(e.0));
        assert(t.len() > 0 && t.last() == e);
        lemma_lists_drop_last(s, m);
        lemma_lists_drop_last(t, m);
        lemma_lists_unique(s.drop_last(), t.drop_last(), m.remove(e.0));
        assert(t =~= t.drop_last().push(e));
    }
}

/// Without its last entry a listing lists the map without its greatest key.
pub proof fn lemma_lists_drop_last<V>(s: Seq<(u64, V)>, m: Map<u64, V>)
    requires
        lists(s, m),
        s.len() > 0,
    ensures
        lists(s.drop_last(), m.remove(s.last().0)),
{
    let e = s.last();
    let r = s.drop_last();
    let mr = m.remove(e.0);
    assert(forall|i: int| 0 <= i < r.len() ==> mr.contains_pair((#[trigger] r[i]).0, r[i].1));
    assert forall|k: u64| #[trigger] mr.contains_key(k) implies exists|i: int|
        0 <= i < r.len() && (#[trigger] r[i]).0 == k by {
        let i = choose|i: int| 0 <= i < s.len() && (#[trigger] s[i]).0 == k;
        assert(r[i] == s[i]);
    }
}

/// A listing is as long as the map has keys.
pub proof fn lemma_lists_len<V>(s: Seq<(u64, V)>, m: Map<u64, V>)
    requires
        lists(s, m),
        m.dom().finite(),
    ensures
        s.len() == m.dom().len(),
    decreases s.len(),
{
    if s.len() == 0 {
        assert(m.dom() =~= Set::empty());
    } else {
        lemma_lists_drop_last(s, m);
        lemma_lists_len(s.drop_last(), m.remove(s.last().0));
    }
}

} // verus!
