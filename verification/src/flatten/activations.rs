//! Output pins with the conditions under which they are stored.

use crate::collections::{gate_get, gate_insert, gate_new, gate_view, set_add, set_contains, set_items, set_new};
use crate::pe::budget::{count_dups, has_activation};
use indexmap::{IndexMap, IndexSet};
use vstd::prelude::*;

verus! {

/// The number of flags that are set.
pub open spec fn count_flags(s: Seq<bool>) -> nat
    decreases s.len(),
{
    if s.len() == 0 {
        0
    } else {
        count_flags(s.drop_last()) + (if s.last() {
            1nat
        } else {
            0nat
        })
    }
}

/// Where flags imply others, there are no more of them.
pub(crate) proof fn lemma_flags_imply(a: Seq<bool>, b: Seq<bool>)
    requires
        a.len() == b.len(),
        forall|i: int| 0 <= i < a.len() && a[i] ==> b[i],
    ensures
        count_flags(a) <= count_flags(b),
    decreases a.len(),
{
    if a.len() > 0 {
        lemma_flags_imply(a.drop_last(), b.drop_last());
        assert(a[a.len() - 1] ==> b[a.len() - 1]);
    }
}

/// Setting a flag makes one more.
pub(crate) proof fn lemma_flags_set(a: Seq<bool>, i: int)
    requires
        0 <= i < a.len(),
        !a[i],
    ensures
        count_flags(a.update(i, true)) == count_flags(a) + 1,
    decreases a.len(),
{
    if i < a.len() - 1 {
        assert(a.update(i, true).drop_last() =~= a.drop_last().update(i, true));
        lemma_flags_set(a.drop_last(), i);
    } else {
        assert(a.update(i, true).drop_last() =~= a.drop_last());
    }
}

/// The different activations of output pins, and where they are placed.
pub struct Activations {
    /// The number of each activation.
    pub ids: IndexMap<(usize, usize), usize>,
    /// The pins that have an activation.
    pub pins: IndexSet<usize>,
    /// The activations: a pin, and the condition under which it is stored.
    pub list: Vec<(usize, usize)>,
    /// Is the activation the first one of its pin?
    pub first: Vec<bool>,
    /// The position at which the activation is placed.
    pub pos: Vec<Option<u16>>,
    /// The number of activations that are not the first of their pins.
    pub dups: usize,
}

impl Activations {
    /// The activations that are not the first of their pins.
    pub open spec fn further(self) -> Seq<bool> {
        Seq::new(self.list@.len(), |i: int| !self.first@[i])
    }

    /// Those of them that are placed.
    pub open spec fn further_placed(self) -> Seq<bool> {
        Seq::new(self.list@.len(), |i: int| !self.first@[i] && self.pos@[i] is Some)
    }

    pub open spec fn wf(self) -> bool {
        &&& self.list@.no_duplicates()
        &&& self.first@.len() == self.list@.len()
        &&& self.pos@.len() == self.list@.len()
        &&& forall|a: usize, k: usize| #[trigger]
            gate_view(self.ids).contains_key((a, k)) <==> self.list@.contains((a, k))
        &&& forall|a: usize, k: usize| #[trigger]
            gate_view(self.ids).contains_key((a, k)) ==> gate_view(self.ids)[(a, k)] < self.list@.len()
                && self.list@[gate_view(self.ids)[(a, k)] as int] == (a, k)
        &&& forall|a: usize| #[trigger] set_items(self.pins).contains(a) <==> has_activation(self.list@, a)
        &&& forall|i: int|
            0 <= i < self.list@.len() ==> (#[trigger] self.first@[i] <==> forall|j: int|
                0 <= j < i ==> (#[trigger] self.list@[j]).0 != self.list@[i].0)
        &&& self.dups == count_flags(self.further())
    }

    /// Are these the activations, in whatever number they come?
    pub open spec fn models(self, acts: Seq<(usize, usize)>) -> bool {
        &&& forall|a: usize, k: usize| #[trigger] self.list@.contains((a, k)) <==> acts.contains((a, k))
        &&& self.dups == count_dups(acts)
    }

    /// The number of an activation.
    pub open spec fn id(self, a: (usize, usize)) -> int {
        gate_view(self.ids)[a] as int
    }

    /// The position of an activation.
    pub open spec fn place_of(self, a: (usize, usize)) -> Option<u16> {
        self.pos@[self.id(a)]
    }

    /// No activations.
    pub fn new() -> (r: Activations)
        ensures
            r.wf(),
            r.models(Seq::empty()),
            r.list@.len() == 0,
    {
        let r = Activations {
            ids: gate_new(),
            pins: set_new(),
            list: Vec::new(),
            first: Vec::new(),
            pos: Vec::new(),
            dups: 0,
        };
        assert(r.further() =~= Seq::<bool>::empty());
        r
    }

    /// Adds an activation.
    pub(crate) fn add(&mut self, a: (usize, usize), Ghost(acts): Ghost<Seq<(usize, usize)>>)
        requires
            old(self).wf(),
            old(self).models(acts),
            forall|i: int| 0 <= i < old(self).pos@.len() ==> (#[trigger] old(self).pos@[i]) is None,
        ensures
            final(self).wf(),
            final(self).models(acts.push(a)),
            forall|i: int| 0 <= i < final(self).pos@.len() ==> (#[trigger] final(self).pos@[i]) is None,
            final(self).list@.len() <= old(self).list@.len() + 1,
    {
        let ghost s0 = *self;
        let ghost next = acts.push(a);
        proof {
            assert(next.drop_last() =~= acts);
            assert(a == (a.0, a.1));
            assert forall|x: (usize, usize)| #[trigger] next.contains(x) <==> acts.contains(x) || x == a by {
                assert(next[acts.len() as int] == a);
                if acts.contains(x) {
                    assert(next[acts.index_of(x)] == x);
                }
                if next.contains(x) && x != a {
                    assert(acts[next.index_of(x)] == x);
                }
            }
            assert(has_activation(acts, a.0) <==> has_activation(s0.list@, a.0)) by {
                if has_activation(acts, a.0) {
                    let k = choose|k: usize| #[trigger] acts.contains((a.0, k));
                    assert(s0.list@.contains((a.0, k)));
                }
                if has_activation(s0.list@, a.0) {
                    let k = choose|k: usize| #[trigger] s0.list@.contains((a.0, k));
                    assert(acts.contains((a.0, k)));
                }
            }
        }
        if gate_get(&self.ids, a.0, a.1).is_none() {
            let n = self.list.len();
            let known = set_contains(&self.pins, a.0);
            gate_insert(&mut self.ids, a.0, a.1, n);
            set_add(&mut self.pins, a.0);
            proof {
                lemma_flags_bound(self.further());
            }
            self.list.push(a);
            self.first.push(!known);
            self.pos.push(None);
            let m = self.list.len();
            assert(n < m);
            if known {
                self.dups = self.dups + 1;
            }
            proof {
                let l0 = s0.list@;
                let l1 = self.list@;
                assert forall|x: (usize, usize)| #[trigger] l1.contains(x) <==> l0.contains(x) || x == a by {
                    assert(l1[n as int] == a);
                    if l0.contains(x) {
                        assert(l1[l0.index_of(x)] == x);
                    }
                    if l1.contains(x) && x != a {
                        assert(l0[l1.index_of(x)] == x);
                    }
                }
                assert(self.further().drop_last() =~= s0.further());
                assert(self.further().last() == known);
                assert forall|p: usize| #[trigger] set_items(self.pins).contains(p) <==> has_activation(l1, p) by {
                    if has_activation(l0, p) {
                        let k = choose|k: usize| #[trigger] l0.contains((p, k));
                        assert(l1.contains((p, k)));
                    }
                    if p == a.0 {
                        assert(l1.contains((p, a.1)));
                    }
                    if has_activation(l1, p) && p != a.0 {
                        let k = choose|k: usize| #[trigger] l1.contains((p, k));
                        assert(l0.contains((p, k)));
                    }
                }
                assert forall|i: int| 0 <= i < l1.len() implies (#[trigger] self.first@[i] <==> forall|j: int|
                    0 <= j < i ==> (#[trigger] l1[j]).0 != l1[i].0) by {
                    if i < n {
                        assert(self.first@[i] == s0.first@[i]);
                        assert(l1[i] == l0[i]);
                        assert(forall|j: int| 0 <= j < i ==> (#[trigger] l1[j]) == l0[j]);
                        assert(forall|j: int| 0 <= j < i ==> (#[trigger] l0[j]) == l1[j]);
                    } else {
                        if known {
                            let k = choose|k: usize| #[trigger] l0.contains((a.0, k));
                            let j = l0.index_of((a.0, k));
                            assert(l1[j].0 == a.0);
                        } else {
                            assert forall|j: int| 0 <= j < i implies (#[trigger] l1[j]).0 != a.0 by {
                                if l1[j].0 == a.0 {
                                    assert(l0[j] == (a.0, l0[j].1));
                                    assert(l0.contains((a.0, l0[j].1)));
                                }
                            }
                        }
                    }
                }
                assert forall|i: int| 0 <= i < self.pos@.len() implies (#[trigger] self.pos@[i]) is None by {
                    if i < n {
                        assert(s0.pos@[i] is None);
                    }
                }
                assert forall|x: usize, k: usize| #[trigger]
                    gate_view(self.ids).contains_key((x, k)) implies gate_view(self.ids)[(x, k)] < l1.len()
                    && l1[gate_view(self.ids)[(x, k)] as int] == (x, k) by {
                    if (x, k) != a {
                        assert(gate_view(s0.ids).contains_key((x, k)));
                    }
                }
            }
        } else {
            proof {
                assert(s0.list@.contains(a));
                assert(acts.contains((a.0, a.1)));
            }
        }
    }

    /// Two activations of one pin are not both the first one.
    pub(crate) proof fn lemma_first(self, i: int, j: int)
        requires
            self.wf(),
            0 <= i < self.list@.len(),
            0 <= j < self.list@.len(),
            self.first@[i],
            self.first@[j],
            self.list@[i].0 == self.list@[j].0,
        ensures
            i == j,
    {
        if i < j {
            assert(self.list@[i].0 != self.list@[j].0);
        }
        if j < i {
            assert(self.list@[j].0 != self.list@[i].0);
        }
    }
}

/// There are no more set flags than flags.
pub(crate) proof fn lemma_flags_bound(s: Seq<bool>)
    ensures
        count_flags(s) <= s.len(),
    decreases s.len(),
{
    if s.len() > 0 {
        lemma_flags_bound(s.drop_last());
    }
}

} // verus!
