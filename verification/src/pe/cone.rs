//! The logic that a boomerang stage still has to realize, with the level of
//! every pin in it.

use crate::aig::{nonzero, pin_set, DriverType, AIG};
use crate::collections::{map_get, map_insert, map_new, map_view, set_contains, set_items, set_to_vec};
use indexmap::{IndexMap, IndexSet};
use vstd::prelude::*;

verus! {

/// Is the pin given from outside, rather than by an and gate yet to be
/// realized?
pub open spec fn is_leaf(aig: AIG, done: Set<usize>, v: usize) -> bool {
    done.contains(v) || !(aig.drivers@[v as int] is AndGate)
}

/// The pins at which the and gates that are yet to be realized end.
pub open spec fn leaves(aig: AIG, done: Set<usize>) -> Set<usize> {
    Set::new(|v: usize| is_leaf(aig, done, v))
}

/// Is the pin an and gate of two leaves?
pub open spec fn is_base_gate(aig: AIG, done: Set<usize>, v: usize) -> bool {
    &&& !is_leaf(aig, done, v)
    &&& aig.drivers@[v as int] matches DriverType::AndGate(a, b) && is_leaf(aig, done, (a / 2) as usize)
        && is_leaf(aig, done, (b / 2) as usize)
}

/// Do some targets depend on the pin?
pub open spec fn in_cone(aig: AIG, done: Set<usize>, targets: Seq<usize>, v: usize) -> bool {
    exists|t: usize| #[trigger] targets.contains(t) && aig.reaches(done, t, v)
}

/// Do some targets depend on the pin through nothing but and gates that are yet
/// to be realized?
pub open spec fn in_gate_cone(aig: AIG, done: Set<usize>, targets: Seq<usize>, v: usize) -> bool {
    exists|t: usize| #[trigger] targets.contains(t) && aig.reaches(leaves(aig, done), t, v)
}

/// The pins that some targets depend on.
pub open spec fn cone_set(aig: AIG, done: Set<usize>, targets: Seq<usize>) -> Set<usize> {
    Set::new(|v: usize| v <= aig.num_aigpins && in_cone(aig, done, targets, v))
}

/// The pins that some targets depend on, in topological order.
pub struct Cone {
    pub order: Vec<usize>,
    /// The position of each pin.
    pub index: IndexMap<usize, usize>,
    /// The number of and gates on the longest way from a leaf to the pin, by
    /// position.
    pub level: Vec<usize>,
}

impl Cone {
    pub open spec fn has(self, v: usize) -> bool {
        map_view(self.index).contains_key(v)
    }

    pub open spec fn pos(self, v: usize) -> int {
        map_view(self.index)[v] as int
    }

    pub open spec fn lvl(self, v: usize) -> int {
        self.level@[self.pos(v)] as int
    }

    /// Every pin has one position.
    pub open spec fn indexed(self) -> bool {
        &&& self.order@.no_duplicates()
        &&& forall|v: usize| #[trigger] self.has(v) ==> 0 <= self.pos(v) < self.order@.len()
            && self.order@[self.pos(v)] == v
        &&& forall|i: int|
            0 <= i < self.order@.len() ==> self.has(#[trigger] self.order@[i]) && self.pos(self.order@[i]) == i
    }

    /// The level of a pin is that of its and gate, zero for leaves.
    #[verifier::opaque]
    pub open spec fn leveled(self, aig: AIG, done: Set<usize>, v: usize) -> bool {
        if is_leaf(aig, done, v) {
            self.lvl(v) == 0
        } else {
            aig.drivers@[v as int] matches DriverType::AndGate(a, b) && {
                let x = (a / 2) as usize;
                let y = (b / 2) as usize;
                &&& self.has(x) && self.has(y)
                &&& self.pos(x) < self.pos(v) && self.pos(y) < self.pos(v)
                &&& self.lvl(v) == 1 + (if self.lvl(x) < self.lvl(y) {
                    self.lvl(y)
                } else {
                    self.lvl(x)
                })
            }
        }
    }

    /// Every pin has its position and its level.
    pub open spec fn graded(self, aig: AIG, done: Set<usize>) -> bool {
        &&& self.indexed()
        &&& self.level@.len() == self.order@.len()
        &&& forall|v: usize| #[trigger] self.has(v) ==> v <= aig.num_aigpins
        &&& forall|v: usize| #[trigger] self.has(v) ==> self.leveled(aig, done, v)
    }

    /// What the level of a pin says of it and of the operands of its gate.
    pub(crate) proof fn lemma_leveled(self, aig: AIG, done: Set<usize>, v: usize)
        requires
            self.graded(aig, done),
            self.has(v),
        ensures
            is_leaf(aig, done, v) ==> self.lvl(v) == 0,
            !is_leaf(aig, done, v) ==> (aig.drivers@[v as int] matches DriverType::AndGate(a, b) && {
                let x = (a / 2) as usize;
                let y = (b / 2) as usize;
                &&& self.has(x) && self.has(y)
                &&& self.pos(x) < self.pos(v) && self.pos(y) < self.pos(v)
                &&& self.lvl(v) == 1 + (if self.lvl(x) < self.lvl(y) {
                    self.lvl(y)
                } else {
                    self.lvl(x)
                })
            }),
    {
        reveal(Cone::leveled);
        assert(self.leveled(aig, done, v));
    }

    /// The pins are those that the targets depend on.
    #[verifier::opaque]
    pub open spec fn spans(self, aig: AIG, done: Set<usize>, targets: Seq<usize>) -> bool {
        forall|v: usize| #[trigger] self.has(v) <==> in_cone(aig, done, targets, v)
    }

    pub open spec fn wf(self, aig: AIG, done: Set<usize>, targets: Seq<usize>) -> bool {
        &&& self.graded(aig, done)
        &&& self.spans(aig, done, targets)
    }

    /// A pin is in the cone if a target depends on it.
    pub(crate) proof fn lemma_spans(self, aig: AIG, done: Set<usize>, targets: Seq<usize>, v: usize)
        requires
            self.spans(aig, done, targets),
        ensures
            self.has(v) <==> in_cone(aig, done, targets, v),
    {
        reveal(Cone::spans);
    }

    /// The positions of the pins.
    fn index_order(order: &Vec<usize>) -> (index: IndexMap<usize, usize>)
        requires
            order@.no_duplicates(),
        ensures
            forall|v: usize| #[trigger]
                map_view(index).contains_key(v) ==> map_view(index)[v] < order@.len() && order@[map_view(
                    index,
                )[v] as int] == v,
            forall|i: int|
                0 <= i < order@.len() ==> map_view(index).contains_key(#[trigger] order@[i]) && map_view(
                    index,
                )[order@[i]] == i,
    {
        let mut index = map_new();
        let mut i: usize = 0;
        while i < order.len()
            invariant
                order@.no_duplicates(),
                i <= order.len(),
                forall|v: usize| #[trigger]
                    map_view(index).contains_key(v) ==> map_view(index)[v] < i && order@[map_view(index)[v] as int]
                        == v,
                forall|k: int|
                    0 <= k < i ==> map_view(index).contains_key(#[trigger] order@[k]) && map_view(
                        index,
                    )[order@[k]] == k,
            decreases order.len() - i,
        {
            let _ = map_insert(&mut index, order[i], i);
            i += 1;
        }
        index
    }

    /// Collects the pins that the targets depend on, down to those that are
    /// done.
    pub(crate) fn build(aig: &AIG, targets: &IndexSet<usize>, realized: &IndexSet<usize>) -> (cone: Cone)
        requires
            aig.walkable(),
            aig.drivers_wf(),
            aig.acyclic(set_items(*realized).to_set()),
            forall|i: int| 0 <= i < set_items(*targets).len() ==> #[trigger] set_items(*targets)[i] <= aig.num_aigpins,
        ensures
            cone.wf(*aig, set_items(*realized).to_set(), set_items(*targets)),
            cone.order@.to_set() == cone_set(*aig, set_items(*realized).to_set(), set_items(*targets)),
    {
        let ghost done = set_items(*realized).to_set();
        let ghost tgt = set_items(*targets);
        let endpoints = set_to_vec(targets);
        let order = aig.topo_traverse_generic(Some(&endpoints), Some(realized));
        assert(pin_set(Some(realized)) == done);
        let index = Cone::index_order(&order);
        let n = order.len();
        let mut level: Vec<usize> = vec![0; n];
        let mut i: usize = 0;
        let ghost full = Cone { order, index, level };
        proof {
            assert forall|v: usize| #[trigger] full.has(v) <==> order@.contains(v) by {
                if order@.contains(v) {
                    assert(full.has(order@[order@.index_of(v)]));
                }
            }
            assert forall|v: usize| order@.contains(v) <==> in_cone(*aig, done, tgt, v) by {
                if order@.contains(v) {
                    let u = choose|u: usize| #[trigger]
                        aig.is_endpoint(Some(&endpoints), u) && aig.reaches(done, u, v);
                    assert(tgt.contains(u));
                }
                if in_cone(*aig, done, tgt, v) {
                    let t = choose|t: usize| #[trigger] tgt.contains(t) && aig.reaches(done, t, v);
                    assert(aig.is_endpoint(Some(&endpoints), t));
                }
            }
        }
        while i < n
            invariant
                aig.walkable(),
                aig.drivers_wf(),
                done == set_items(*realized).to_set(),
                aig.is_topological(done, order@),
                n == order@.len(),
                i <= n,
                level@.len() == n,
                full.order == order,
                full.index == index,
                full.indexed(),
                forall|v: usize| order@.contains(v) ==> v <= aig.num_aigpins,
                forall|k: int| 0 <= k < n ==> #[trigger] level@[k] <= k,
                forall|k: int| i <= k < n ==> #[trigger] level@[k] == 0,
                forall|k: int|
                    0 <= k < i ==> #[trigger] (Cone { order, index, level }).leveled(*aig, done, order@[k]),
            decreases n - i,
        {
            let v = order[i];
            let ghost before = Cone { order, index, level };
            proof {
                reveal(Cone::leveled);
            }
            assert(order@.contains(v));
            if !set_contains(realized, v) {
                let mut lvli: usize = 0;
                if let DriverType::AndGate(a, b) = aig.drivers[v] {
                    let x: usize = a / 2;
                    let y: usize = b / 2;
                    proof {
                        let both = seq![x, y];
                        assert(both.drop_last() =~= seq![x]);
                        assert(seq![x].drop_last() =~= Seq::<usize>::empty());
                        reveal_with_fuel(nonzero, 3);
                        assert(aig.fanin(v) =~= both);
                        assert(aig.fanin(v)[0] == x && aig.fanin(v)[1] == y);
                        assert(aig.fanin(order@[i as int]).contains(x));
                        assert(aig.fanin(order@[i as int]).contains(y));
                        assert(order@.take(i as int).contains(x));
                        assert(order@.take(i as int).contains(y));
                        let kx = order@.take(i as int).index_of(x);
                        let ky = order@.take(i as int).index_of(y);
                        assert(order@[kx] == x && order@[ky] == y);
                        assert(full.pos(order@[kx]) == kx);
                        assert(full.pos(order@[ky]) == ky);
                    }
                    if a >= 2 {
                        if let Some(p) = map_get(&index, x) {
                            let lx: usize = level[p] + 1;
                            if lvli < lx {
                                lvli = lx;
                            }
                        }
                    }
                    if b >= 2 {
                        if let Some(p) = map_get(&index, y) {
                            let ly: usize = level[p] + 1;
                            if lvli < ly {
                                lvli = ly;
                            }
                        }
                    }
                }
                level[i] = lvli;
            }
            proof {
                let after = Cone { order, index, level };
                assert(full.has(order@[i as int]) && full.pos(order@[i as int]) == i);
                assert forall|k: int| 0 <= k < i + 1 implies #[trigger] after.leveled(*aig, done, order@[k]) by {
                    assert(full.has(order@[k]) && full.pos(order@[k]) == k);
                    if k < i {
                        assert(before.leveled(*aig, done, order@[k]));
                    }
                }
            }
            i += 1;
        }
        let cone = Cone { order, index, level };
        proof {
            reveal(Cone::spans);
            assert forall|v: usize| #[trigger] cone.has(v) implies cone.leveled(*aig, done, v) by {
                assert(cone.leveled(*aig, done, order@[cone.pos(v)]));
            }
            assert forall|v: usize| #[trigger] cone.has(v) <==> in_cone(*aig, done, tgt, v) by {
                assert(full.has(v) <==> order@.contains(v));
            }
            assert forall|v: usize| #[trigger] cone.has(v) implies v <= aig.num_aigpins by {
                assert(full.has(v) <==> order@.contains(v));
            }
            assert(cone.order@.to_set() =~= cone_set(*aig, done, tgt)) by {
                assert forall|v: usize| cone.order@.to_set().contains(v) <==> cone_set(*aig, done, tgt).contains(v) by {
                    assert(full.has(v) <==> order@.contains(v));
                }
            }
        }
        cone
    }

    /// The level of a pin of the cone.
    pub(crate) fn level_of(&self, v: usize) -> (l: usize)
        requires
            self.indexed(),
            self.level@.len() == self.order@.len(),
            self.has(v),
        ensures
            l == self.lvl(v),
    {
        match map_get(&self.index, v) {
            Some(p) => self.level[p],
            None => 0,
        }
    }

    /// The highest level.
    pub(crate) fn max_level(&self) -> (m: usize)
        requires
            self.indexed(),
            self.level@.len() == self.order@.len(),
        ensures
            forall|v: usize| #[trigger] self.has(v) ==> self.lvl(v) <= m,
            m == 0 || exists|v: usize| #[trigger] self.has(v) && self.lvl(v) == m,
    {
        let mut m: usize = 0;
        let mut i: usize = 0;
        while i < self.level.len()
            invariant
                self.indexed(),
                self.level@.len() == self.order@.len(),
                i <= self.level.len(),
                forall|k: int| 0 <= k < i ==> #[trigger] self.level@[k] <= m,
                m == 0 || exists|v: usize| #[trigger] self.has(v) && self.lvl(v) == m,
            decreases self.level.len() - i,
        {
            if self.level[i] > m {
                m = self.level[i];
                proof {
                    let v = self.order@[i as int];
                    assert(self.has(v) && self.lvl(v) == m);
                }
            }
            i += 1;
        }
        m
    }

    /// A base gate has level 1, and no other pin has.
    pub(crate) proof fn lemma_level_one(self, aig: AIG, done: Set<usize>, v: usize)
        requires
            self.graded(aig, done),
            self.has(v),
        ensures
            self.lvl(v) == 1 <==> is_base_gate(aig, done, v),
            self.lvl(v) == 0 <==> is_leaf(aig, done, v),
    {
        self.lemma_leveled(aig, done, v);
        if !is_leaf(aig, done, v) {
            if let DriverType::AndGate(a, b) = aig.drivers@[v as int] {
                self.lemma_leveled(aig, done, (a / 2) as usize);
                self.lemma_leveled(aig, done, (b / 2) as usize);
            }
        }
    }
}

} // verus!
