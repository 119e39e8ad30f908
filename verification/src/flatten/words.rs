//! Masks by word, in the order of the words.

use std::collections::BTreeMap;
use vstd::prelude::*;
use vstd::std_specs::cmp::OrdSpec;
use vstd::std_specs::iter::IteratorSpec;

verus! {

/// Are these the entries of a map, in the order of their keys?
pub open spec fn is_listing(m: Map<u32, u32>, s: Seq<(u32, u32)>) -> bool {
    &&& forall|i: int, j: int| 0 <= i < j < s.len() ==> (#[trigger] s[i]).0 < (#[trigger] s[j]).0
    &&& forall|i: int| 0 <= i < s.len() ==> m.contains_key((#[trigger] s[i]).0) && m[s[i].0] == s[i].1
    &&& forall|k: u32| #[trigger] m.contains_key(k) ==> s.contains((k, m[k]))
}

/// The entries of a map, in the order of their keys.
pub open spec fn listing(m: Map<u32, u32>) -> Seq<(u32, u32)> {
    choose|s: Seq<(u32, u32)>| #[trigger] is_listing(m, s)
}

/// Entries before the first `n` ones that are alike are found in both lists.
proof fn lemma_alike(m: Map<u32, u32>, s: Seq<(u32, u32)>, t: Seq<(u32, u32)>, n: int)
    requires
        is_listing(m, s),
        is_listing(m, t),
        0 <= n <= s.len(),
    ensures
        n <= t.len(),
        forall|i: int| 0 <= i < n ==> s[i] == t[i],
    decreases n,
{
    if n > 0 {
        lemma_alike(m, s, t, n - 1);
        let k = s[n - 1].0;
        assert(m.contains_key(k));
        let j = t.index_of((k, m[k]));
        assert(t[j] == (k, m[k]));
        if j < n - 1 {
            assert(s[j] == t[j]);
            assert(false);
        }
        let l = t[n - 1].0;
        assert(m.contains_key(l));
        let i = s.index_of((l, m[l]));
        assert(s[i] == (l, m[l]));
        if i < n - 1 {
            assert(s[i] == t[i]);
            assert(false);
        }
        if i > n - 1 && j > n - 1 {
            assert(s[n - 1].0 < s[i].0);
            assert(t[n - 1].0 < t[j].0);
            assert(false);
        }
    }
}

/// A map has one listing.
pub(super) proof fn lemma_listing(m: Map<u32, u32>, s: Seq<(u32, u32)>)
    requires
        is_listing(m, s),
    ensures
        listing(m) == s,
{
    let t = listing(m);
    lemma_alike(m, s, t, s.len() as int);
    lemma_alike(m, t, s, t.len() as int);
    assert(s =~= t);
}

/// The entries of a map, in the order of their keys.
pub(super) fn entries(m: &BTreeMap<u32, u32>) -> (v: Vec<(u32, u32)>)
    ensures
        v@ == listing(m@),
        is_listing(m@, v@),
{
    broadcast use {vstd::std_specs::btree::group_btree_axioms, vstd::laws_cmp::group_laws_cmp};

    let mut v: Vec<(u32, u32)> = Vec::new();
    let it = m.iter();
    let ghost all = it.remaining();
    let ghost keys = all.map_values(|kv: (&u32, &u32)| *kv.0);
    for kv in rest: it
        invariant
            rest.seq() == all,
            v@.len() == rest.index(),
            forall|i: int| 0 <= i < v@.len() ==> #[trigger] v@[i] == (*all[i].0, *all[i].1),
    {
        v.push((*kv.0, *kv.1));
    }
    proof {
        assert(v@.len() == all.len());
        assert forall|i: int, j: int| 0 <= i < j < v@.len() implies (#[trigger] v@[i]).0 < (#[trigger] v@[j]).0 by {
            assert(vstd::std_specs::btree::increasing_seq(keys));
            assert(keys[i] == v@[i].0 && keys[j] == v@[j].0);
            assert(keys[i].cmp_spec(&keys[j]) is Less);
        }
        assert forall|k: u32| #[trigger] m@.contains_key(k) implies v@.contains((k, m@[k])) by {
            assert(all.contains((&k, &m@[k])));
            let i = all.index_of((&k, &m@[k]));
            assert(v@[i] == (k, m@[k]));
        }
        lemma_listing(m@, v@);
    }
    v
}

} // verus!
