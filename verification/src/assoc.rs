//! Association lists keyed by variable ids, used for substitutions and matches.

use vstd::prelude::*;

verus! {

broadcast use vstd::std_specs::vec::group_vec_axioms, vstd::seq::group_seq_axioms;

/// The keys of an association list, in order.
pub open spec fn keys_of<T>(s: Seq<(usize, T)>) -> Seq<usize> {
    Seq::new(s.len(), |i: int| s[i].0)
}

/// An association list is well formed when no key occurs twice.
pub open spec fn assoc_wf<T>(s: Seq<(usize, T)>) -> bool {
    forall|i: int, j: int| 0 <= i < s.len() && 0 <= j < s.len() && i != j ==> s[i].0 != s[j].0
}

/// The map described by an association list (later entries win).
pub open spec fn assoc_map<T>(s: Seq<(usize, T)>) -> Map<usize, T>
    decreases s.len(),
{
    if s.len() == 0 {
        Map::empty()
    } else {
        assoc_map(s.drop_last()).insert(s.last().0, s.last().1)
    }
}

/// Lemma: the domain of the map is the set of keys, and a well-formed list maps each key to its entry.
pub proof fn lemma_assoc_map<T>(s: Seq<(usize, T)>)
    ensures
        forall|k: usize| #[trigger] assoc_map(s).contains_key(k) <==> exists|i: int| 0 <= i < s.len() && s[i].0 == k,
        assoc_wf(s) ==> forall|i: int| 0 <= i < s.len() ==> #[trigger] assoc_map(s)[s[i].0] == s[i].1,
    decreases s.len(),
{
    if s.len() > 0 {
        let p = s.drop_last();
        lemma_assoc_map(p);
        assert forall|k: usize| #[trigger] assoc_map(s).contains_key(k) <==> exists|i: int| 0 <= i < s.len() && s[i].0 == k by {
            if assoc_map(p).contains_key(k) {
                let i = choose|i: int| 0 <= i < p.len() && p[i].0 == k;
                assert(s[i].0 == k);
            }
            if exists|i: int| 0 <= i < s.len() && s[i].0 == k {
                let i = choose|i: int| 0 <= i < s.len() && s[i].0 == k;
                if i < s.len() - 1 {
                    assert(p[i].0 == k);
                }
            }
        }
        if assoc_wf(s) {
            assert(assoc_wf(p));
            assert forall|i: int| 0 <= i < s.len() implies #[trigger] assoc_map(s)[s[i].0] == s[i].1 by {
                if i < s.len() - 1 {
                    assert(p[i] == s[i]);
                    assert(assoc_map(p)[p[i].0] == p[i].1);
                    assert(s[i].0 != s[s.len() - 1].0);
                }
            }
        }
    }
}

/// Lemma: appending an entry inserts it into the map.
pub proof fn lemma_assoc_push<T>(s: Seq<(usize, T)>, k: usize, v: T)
    ensures
        assoc_map(s.push((k, v))) == assoc_map(s).insert(k, v),
{
    assert(s.push((k, v)).drop_last() =~= s);
}

/// Index of the entry with key `k`, if any.
pub fn assoc_find<T>(entries: &Vec<(usize, T)>, k: usize) -> (r: Option<usize>)
    ensures
        r matches Some(i) ==> i < entries@.len() && entries@[i as int].0 == k,
        r is None ==> forall|i: int| 0 <= i < entries@.len() ==> entries@[i].0 != k,
{
    let mut i: usize = 0;
    while i < entries.len()
        invariant
            i <= entries@.len(),
            forall|j: int| 0 <= j < i ==> entries@[j].0 != k,
        decreases entries.len() - i,
    {
        if entries[i].0 == k {
            return Some(i);
        }
        i = i + 1;
    }
    None
}

} // verus!
