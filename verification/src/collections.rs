//! Insertion-ordered sets and maps of pins.
//!
//! The sets and maps are those of the `indexmap` crate, reached through one
//! small function per operation. [`Table`] builds a map with values of any
//! type on top of them.

use indexmap::{IndexMap, IndexSet};
use vstd::prelude::*;

verus! {

/// `indexmap::IndexSet`, an opaque type: its contents are named by [`set_items`].
#[verifier::external_type_specification]
#[verifier::external_body]
#[verifier::reject_recursive_types(T)]
#[verifier::reject_recursive_types(S)]
pub struct ExIndexSet<T, S>(IndexSet<T, S>);

/// `indexmap::IndexMap`, an opaque type: its contents are named by
/// [`map_view`] and [`map_keys`], or by [`gate_view`] for pairs of literals.
#[verifier::external_type_specification]
#[verifier::external_body]
#[verifier::reject_recursive_types(K)]
#[verifier::reject_recursive_types(V)]
#[verifier::reject_recursive_types(S)]
pub struct ExIndexMap<K, V, S>(IndexMap<K, V, S>);

/// The elements of an index set, in index order.
pub uninterp spec fn set_items(s: IndexSet<usize>) -> Seq<usize>;

/// What an index map assigns to its keys.
pub uninterp spec fn map_view(m: IndexMap<usize, usize>) -> Map<usize, usize>;

/// The keys of an index map, in index order.
pub uninterp spec fn map_keys(m: IndexMap<usize, usize>) -> Seq<usize>;

/// What an index map keyed by pairs assigns to its keys.
pub uninterp spec fn gate_view(m: IndexMap<(usize, usize), usize>) -> Map<(usize, usize), usize>;

/// What an index map assigns positions to.
pub uninterp spec fn pos_view(m: IndexMap<usize, u32>) -> Map<usize, u32>;

/// The sequence that is left when the element at `i` is replaced by the last
/// one and the sequence is shortened by one.
pub open spec fn swap_out(s: Seq<usize>, i: int) -> Seq<usize> {
    s.update(i, s.last()).drop_last()
}

/// `IndexSet::new`: a set without elements.
#[verifier::external_body]
pub(crate) fn set_new() -> (s: IndexSet<usize>)
    ensures
        set_items(s) == Seq::<usize>::empty(),
{
    IndexSet::new()
}

/// `IndexSet::len`: the number of elements. No element occurs twice.
#[verifier::external_body]
pub(crate) fn set_len(s: &IndexSet<usize>) -> (n: usize)
    ensures
        n == set_items(*s).len(),
        n == set_items(*s).to_set().len(),
        forall|i: int, j: int| 0 <= i < j < n ==> set_items(*s)[i] != set_items(*s)[j],
{
    s.len()
}

/// `IndexSet::contains`: is the value an element?
#[verifier::external_body]
pub(crate) fn set_contains(s: &IndexSet<usize>, v: usize) -> (b: bool)
    ensures
        b == set_items(*s).contains(v),
{
    s.contains(&v)
}

/// `IndexSet::insert`: a new value goes to the end, a known one stays where it
/// is. The result says whether the value was new. No element occurs twice.
#[verifier::external_body]
pub(crate) fn set_insert(s: &mut IndexSet<usize>, v: usize) -> (fresh: bool)
    ensures
        fresh == !set_items(*old(s)).contains(v),
        fresh ==> set_items(*final(s)) == set_items(*old(s)).push(v),
        !fresh ==> set_items(*final(s)) == set_items(*old(s)),
        set_items(*final(s)).no_duplicates(),
{
    s.insert(v)
}

/// `IndexSet::index`: the element at a position. At a position beyond the last
/// element the call would panic.
#[verifier::external_body]
pub(crate) fn set_at(s: &IndexSet<usize>, i: usize) -> (v: usize)
    requires
        i < set_items(*s).len(),
    ensures
        v == set_items(*s)[i as int],
{
    s[i]
}

/// `IndexSet::swap_remove`: the element is replaced by the last one. The
/// result says whether the value was an element. No element occurs twice.
#[verifier::external_body]
pub(crate) fn set_swap_remove(s: &mut IndexSet<usize>, v: usize) -> (found: bool)
    ensures
        found == set_items(*old(s)).contains(v),
        !found ==> set_items(*final(s)) == set_items(*old(s)),
        found ==> exists|i: int|
            0 <= i < set_items(*old(s)).len() && #[trigger] set_items(*old(s))[i] == v
                && set_items(*final(s)) == swap_out(set_items(*old(s)), i),
        set_items(*final(s)).no_duplicates(),
        !set_items(*final(s)).contains(v),
{
    s.swap_remove(&v)
}

/// `IndexMap::new`: a map without entries.
#[verifier::external_body]
pub(crate) fn map_new() -> (m: IndexMap<usize, usize>)
    ensures
        forall|k: usize| !#[trigger] map_view(m).contains_key(k),
        map_keys(m) == Seq::<usize>::empty(),
{
    IndexMap::new()
}

/// `IndexMap::len`: the number of entries. The keys are those of the entries,
/// each once.
#[verifier::external_body]
pub(crate) fn map_len(m: &IndexMap<usize, usize>) -> (n: usize)
    ensures
        n == map_keys(*m).len(),
        forall|i: int, j: int| 0 <= i < j < n ==> map_keys(*m)[i] != map_keys(*m)[j],
        map_keys(*m).take(n as int).to_set() == map_view(*m).dom(),
{
    m.len()
}

/// `IndexMap::get`, with the value copied out: the value of a key, if it has one.
#[verifier::external_body]
pub(crate) fn map_get(m: &IndexMap<usize, usize>, k: usize) -> (v: Option<usize>)
    ensures
        v == (if map_view(*m).contains_key(k) { Some(map_view(*m)[k]) } else { None }),
{
    m.get(&k).copied()
}

/// `IndexMap::insert`: the key gets the value; a new key goes to the end. The
/// result is the value that the key had. No key occurs twice.
#[verifier::external_body]
pub(crate) fn map_insert(m: &mut IndexMap<usize, usize>, k: usize, v: usize) -> (before: Option<usize>)
    ensures
        before == (if map_view(*old(m)).contains_key(k) { Some(map_view(*old(m))[k]) } else { None }),
        map_view(*final(m)) == map_view(*old(m)).insert(k, v),
        before is Some ==> map_keys(*final(m)) == map_keys(*old(m)),
        before is None ==> map_keys(*final(m)) == map_keys(*old(m)).push(k),
        map_keys(*final(m)).no_duplicates(),
        map_keys(*final(m)).to_set() =~= map_view(*final(m)).dom(),
{
    m.insert(k, v)
}

/// `IndexMap::get_index`, with the key copied out of the result: the key of
/// the entry at a position. There is none beyond the last entry.
#[verifier::external_body]
pub(crate) fn map_key_at(m: &IndexMap<usize, usize>, i: usize) -> (k: usize)
    requires
        i < map_keys(*m).len(),
    ensures
        k == map_keys(*m)[i as int],
        map_view(*m).contains_key(k),
{
    *m.get_index(i).unwrap().0
}

/// `IndexMap::swap_remove`: the entry of the key is replaced by the last one.
/// The result is the value that the key had. No key occurs twice.
#[verifier::external_body]
pub(crate) fn map_swap_remove(m: &mut IndexMap<usize, usize>, k: usize) -> (before: Option<usize>)
    ensures
        before == (if map_view(*old(m)).contains_key(k) { Some(map_view(*old(m))[k]) } else { None }),
        map_view(*final(m)) == map_view(*old(m)).remove(k),
        before is None ==> map_keys(*final(m)) == map_keys(*old(m)),
        before is Some ==> exists|i: int|
            0 <= i < map_keys(*old(m)).len() && #[trigger] map_keys(*old(m))[i] == k
                && map_keys(*final(m)) == swap_out(map_keys(*old(m)), i),
        map_keys(*final(m)).no_duplicates(),
        map_keys(*final(m)).to_set() =~= map_view(*final(m)).dom(),
{
    m.swap_remove(&k)
}

/// `IndexMap::new`, for keys that are pairs: a map without entries.
#[verifier::external_body]
pub(crate) fn gate_new() -> (m: IndexMap<(usize, usize), usize>)
    ensures
        forall|k: (usize, usize)| !#[trigger] gate_view(m).contains_key(k),
{
    IndexMap::new()
}

/// `IndexMap::get`, for keys that are pairs, with the value copied out.
#[verifier::external_body]
pub(crate) fn gate_get(m: &IndexMap<(usize, usize), usize>, a: usize, b: usize) -> (v: Option<usize>)
    ensures
        v == (if gate_view(*m).contains_key((a, b)) { Some(gate_view(*m)[(a, b)]) } else { None }),
{
    m.get(&(a, b)).copied()
}

/// `IndexMap::insert`, for keys that are pairs: the key gets the value.
#[verifier::external_body]
pub(crate) fn gate_insert(m: &mut IndexMap<(usize, usize), usize>, a: usize, b: usize, v: usize)
    ensures
        gate_view(*final(m)) == gate_view(*old(m)).insert((a, b), v),
{
    m.insert((a, b), v);
}

/// `IndexMap::new`, for values that are positions: a map without entries.
#[verifier::external_body]
pub(crate) fn pos_new() -> (m: IndexMap<usize, u32>)
    ensures
        pos_view(m).dom() == Set::<usize>::empty(),
{
    IndexMap::new()
}

/// `IndexMap::get`, for values that are positions, with the value copied out.
#[verifier::external_body]
pub(crate) fn pos_get(m: &IndexMap<usize, u32>, k: usize) -> (v: Option<u32>)
    ensures
        v == (if pos_view(*m).contains_key(k) { Some(pos_view(*m)[k]) } else { None }),
{
    m.get(&k).copied()
}

/// `IndexMap::insert`, for values that are positions: the key gets the value.
#[verifier::external_body]
pub(crate) fn pos_insert(m: &mut IndexMap<usize, u32>, k: usize, v: u32)
    ensures
        pos_view(*final(m)) == pos_view(*old(m)).insert(k, v),
{
    m.insert(k, v);
}

/// Adds a value to a set.
pub(crate) fn set_add(s: &mut IndexSet<usize>, v: usize)
    ensures
        set_items(*old(s)).is_prefix_of(set_items(*final(s))),
        set_items(*final(s)).no_duplicates(),
        forall|x: usize| #[trigger] set_items(*final(s)).contains(x) <==> set_items(*old(s)).contains(x) || x == v,
        set_items(*final(s)).len() <= set_items(*old(s)).len() + 1,
        !set_items(*old(s)).contains(v) ==> set_items(*final(s)) == set_items(*old(s)).push(v),
        set_items(*old(s)).contains(v) ==> set_items(*final(s)) == set_items(*old(s)),
{
    let fresh = set_insert(s, v);
    proof {
        let a = set_items(*old(s));
        let b = set_items(*s);
        assert forall|x: usize| #[trigger] b.contains(x) <==> a.contains(x) || x == v by {
            if fresh {
                assert(b[a.len() as int] == v);
                if a.contains(x) {
                    assert(b[a.index_of(x)] == x);
                }
                if b.contains(x) && x != v {
                    assert(a[b.index_of(x)] == x);
                }
            }
        }
    }
}

/// A copy of a set: the same elements in the same order.
pub(crate) fn set_copy(s: &IndexSet<usize>) -> (r: IndexSet<usize>)
    ensures
        set_items(r) == set_items(*s),
{
    let n = set_len(s);
    let mut r = set_new();
    let mut i: usize = 0;
    while i < n
        invariant
            n == set_items(*s).len(),
            set_items(*s).no_duplicates(),
            i <= n,
            set_items(r) == set_items(*s).take(i as int),
        decreases n - i,
    {
        let v = set_at(s, i);
        let fresh = set_insert(&mut r, v);
        proof {
            if !fresh {
                let j = choose|j: int| 0 <= j < i && set_items(*s).take(i as int)[j] == v;
                assert(set_items(*s)[j] == set_items(*s)[i as int]);
            }
            assert(set_items(*s).take(i as int).push(v) =~= set_items(*s).take(i + 1));
        }
        i += 1;
    }
    assert(set_items(*s).take(n as int) =~= set_items(*s));
    r
}

/// The elements of a set as a vector.
pub(crate) fn set_to_vec(s: &IndexSet<usize>) -> (r: Vec<usize>)
    ensures
        r@ == set_items(*s),
{
    let n = set_len(s);
    let mut r: Vec<usize> = Vec::new();
    let mut i: usize = 0;
    while i < n
        invariant
            n == set_items(*s).len(),
            i <= n,
            r@ == set_items(*s).take(i as int),
        decreases n - i,
    {
        r.push(set_at(s, i));
        assert(set_items(*s).take(i as int).push(set_items(*s)[i as int]) =~= set_items(*s).take(i + 1));
        i += 1;
    }
    assert(set_items(*s).take(n as int) =~= set_items(*s));
    r
}

/// Swapping out position `i` of a sequence without duplicates takes away that
/// element and no other.
pub(crate) proof fn lemma_swap_out(s: Seq<usize>, i: int)
    requires
        0 <= i < s.len(),
        s.no_duplicates(),
    ensures
        swap_out(s, i).len() == s.len() - 1,
        forall|v: usize| swap_out(s, i).contains(v) <==> (s.contains(v) && v != s[i]),
{
    let t = swap_out(s, i);
    assert forall|v: usize| t.contains(v) <==> (s.contains(v) && v != s[i]) by {
        if t.contains(v) {
            let j = choose|j: int| 0 <= j < t.len() && t[j] == v;
            if j == i {
                assert(v == s[s.len() - 1]);
            } else {
                assert(s[j] == v);
            }
        }
        if s.contains(v) && v != s[i] {
            let j = choose|j: int| 0 <= j < s.len() && s[j] == v;
            if j == s.len() - 1 {
                assert(t[i] == v);
            } else {
                assert(t[j] == v);
            }
        }
    }
}

/// An insertion-ordered map from `usize` keys to values of any type: the keys
/// lead to positions in a vector of values.
pub struct Table<V> {
    index: IndexMap<usize, usize>,
    values: Vec<V>,
}

impl<V> Table<V> {
    /// The keys in insertion order.
    pub closed spec fn keys(self) -> Seq<usize> {
        map_keys(self.index)
    }

    /// The values, each at the position of its key.
    pub closed spec fn vals(self) -> Seq<V> {
        self.values@
    }

    /// Keys and values belong together, and the index finds every key.
    pub closed spec fn wf(self) -> bool {
        &&& self.keys().len() == self.values@.len()
        &&& self.keys().no_duplicates()
        &&& forall|i: int|
            0 <= i < self.keys().len() ==> map_view(self.index).contains_key(#[trigger] self.keys()[i])
                && map_view(self.index)[self.keys()[i]] == i
        &&& forall|k: usize|
            #![trigger map_view(self.index).contains_key(k)]
            map_view(self.index).contains_key(k) ==> map_view(self.index)[k] < self.values@.len()
                && self.keys()[map_view(self.index)[k] as int] == k
    }

    /// Does the key have a value?
    pub open spec fn has(self, k: usize) -> bool {
        self.keys().contains(k)
    }

    /// The position of a key that has a value.
    pub open spec fn slot(self, k: usize) -> int {
        self.keys().index_of(k)
    }

    /// The value of a key that has one.
    pub open spec fn at(self, k: usize) -> V {
        self.vals()[self.slot(k)]
    }

    /// What well-formedness says of keys and values.
    pub(crate) proof fn lemma_wf(self)
        requires
            self.wf(),
        ensures
            self.keys().len() == self.vals().len(),
            self.keys().no_duplicates(),
    {
    }

    /// A table without entries.
    pub fn new() -> (t: Self)
        ensures
            t.wf(),
            t.keys() == Seq::<usize>::empty(),
            t.vals() == Seq::<V>::empty(),
    {
        Table { index: map_new(), values: Vec::new() }
    }

    /// The number of entries.
    pub fn len(&self) -> (n: usize)
        requires
            self.wf(),
        ensures
            n == self.vals().len(),
            n == self.keys().len(),
    {
        self.values.len()
    }

    /// The position of a key, if it has a value.
    pub fn position(&self, k: usize) -> (r: Option<usize>)
        requires
            self.wf(),
        ensures
            r is Some <==> self.has(k),
            r matches Some(i) ==> i < self.vals().len() && self.keys()[i as int] == k && i == self.slot(k),
    {
        let r = map_get(&self.index, k);
        proof {
            if self.has(k) {
                assert(self.keys()[self.slot(k)] == k);
            }
            if map_view(self.index).contains_key(k) {
                assert(self.keys()[map_view(self.index)[k] as int] == k);
            }
        }
        r
    }

    /// The value of a key, if it has one.
    pub fn get(&self, k: usize) -> (r: Option<&V>)
        requires
            self.wf(),
        ensures
            r is Some <==> self.has(k),
            r matches Some(v) ==> *v == self.at(k),
    {
        match self.position(k) {
            Some(i) => Some(&self.values[i]),
            None => None,
        }
    }

    /// The value at a position.
    pub fn value(&self, i: usize) -> (v: &V)
        requires
            i < self.vals().len(),
        ensures
            *v == self.vals()[i as int],
    {
        &self.values[i]
    }

    /// Gives a key a value: a new key goes to the end. The result is the key's
    /// position.
    pub fn insert(&mut self, k: usize, v: V) -> (i: usize)
        requires
            old(self).wf(),
        ensures
            final(self).wf(),
            old(self).has(k) ==> i == old(self).slot(k) && final(self).keys() == old(self).keys()
                && final(self).vals() == old(self).vals().update(i as int, v),
            !old(self).has(k) ==> i == old(self).keys().len() && final(self).keys() == old(
                self,
            ).keys().push(k) && final(self).vals() == old(self).vals().push(v),
            final(self).has(k),
            final(self).at(k) == v,
            final(self).slot(k) == i,
            forall|j: usize| #[trigger] final(self).has(j) <==> (old(self).has(j) || j == k),
            forall|j: usize| j != k && old(self).has(j) ==> #[trigger] final(self).at(j) == old(self).at(j),
    {
        let i = match self.position(k) {
            Some(i) => {
                self.values[i] = v;
                i
            },
            None => {
                let i = self.values.len();
                assert(!map_view(self.index).contains_key(k)) by {
                    if map_view(self.index).contains_key(k) {
                        assert(self.keys()[map_view(self.index)[k] as int] == k);
                    }
                }
                let _ = map_insert(&mut self.index, k, i);
                self.values.push(v);
                i
            },
        };
        proof {
            let o = old(self).keys();
            let n = self.keys();
            assert(n[i as int] == k);
            assert forall|j: usize| #[trigger] self.has(j) <==> (old(self).has(j) || j == k) by {
                if old(self).has(j) {
                    assert(n[old(self).slot(j)] == j);
                }
                if self.has(j) && j != k {
                    assert(o[self.slot(j)] == j);
                }
            }
            assert forall|j: usize| j != k && old(self).has(j) implies #[trigger] self.at(j) == old(self).at(j) by {
                assert(n[old(self).slot(j)] == j);
            }
        }
        i
    }
}

} // verus!
