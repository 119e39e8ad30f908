//! How much logic a boomerang stage folds into its rows.

use super::cone::{cone_set, in_cone, in_gate_cone, is_base_gate, is_leaf, leaves, Cone};
use super::fill::{all_filled, goes_deep, grid_ok, is_lone, level_filled, reached, taken, Plan};
use super::grid::{holds, lemma_counted, vacant, width};
use super::levels::{asks_for, is_operand, wanted, wishes};
use super::place::{feet, span};
use super::stage::lemma_gate_fanin;
use crate::aig::{DriverType, AIG};
use crate::collections::set_items;
use vstd::prelude::*;

verus! {

/// The number of gates on the longest way from a leaf to the pin.
pub open spec fn depth(aig: AIG, done: Set<usize>, v: usize) -> nat
    decreases v,
{
    if is_leaf(aig, done, v) {
        0
    } else {
        match aig.drivers@[v as int] {
            DriverType::AndGate(a, b) => if a / 2 < v && b / 2 < v {
                let x = depth(aig, done, (a / 2) as usize);
                let y = depth(aig, done, (b / 2) as usize);
                1 + (if x < y {
                    y
                } else {
                    x
                })
            } else {
                0
            },
            _ => 0,
        }
    }
}

/// Has the pin to be in the first row of gates as long as no deeper gate is in
/// the stage? This holds of gates of two leaves, of targets that are leaves, and
/// of leaves that deeper gates conjoin.
pub open spec fn is_first(aig: AIG, done: Set<usize>, targets: Seq<usize>, v: usize) -> bool {
    ||| is_base_gate(aig, done, v)
    ||| is_leaf(aig, done, v) && targets.contains(v)
    ||| is_leaf(aig, done, v) && exists|u: usize| #[trigger]
        in_cone(aig, done, targets, u) && !is_leaf(aig, done, u) && !is_base_gate(aig, done, u) && is_operand(aig, u, v)
}

/// The pins that the first row of gates has to provide as long as no deeper gate
/// is in the stage.
pub open spec fn first_row(aig: AIG, done: Set<usize>, targets: Seq<usize>) -> Set<usize> {
    Set::new(|v: usize| cone_set(aig, done, targets).contains(v) && is_first(aig, done, targets, v))
}

/// The pins whose values a hierarchy leaves behind.
pub open spec fn held(hier: Seq<Vec<usize>>) -> Set<usize> {
    Set::new(|v: usize| v != usize::MAX && holds(hier, v))
}

/// Is row `l` full, or does the stage hold all gates of depth `l` that targets
/// want from outside of it, or was there no room for another one?
pub open spec fn level_used(
    aig: AIG,
    done: Set<usize>,
    targets: Seq<usize>,
    hier: Seq<Vec<usize>>,
    l: int,
) -> bool {
    let need = first_row(aig, done, targets).len();
    ||| forall|j: int| 0 <= j < width(l) ==> !#[trigger] vacant(hier, l, j)
    ||| forall|v: usize| #[trigger]
        in_gate_cone(aig, done.union(held(hier)), targets, v) && depth(aig, done, v) == l ==> held(hier).contains(v)
    ||| need + taken(hier) + feet(l) >= 4096
    ||| need + held(hier).len() + span(l) >= 4096 && need + cone_set(aig, done, targets).len() >= 4096
}

/// Are all rows behind the first row of gates made use of?
#[verifier::opaque]
pub open spec fn well_filled(aig: AIG, done: Set<usize>, targets: Seq<usize>, hier: Seq<Vec<usize>>) -> bool {
    forall|l: int| 2 <= l <= 13 ==> #[trigger] level_used(aig, done, targets, hier, l)
}

/// Is there a gate of depth `l` or more, and certainly room for one of depth
/// `l`?
pub open spec fn is_deep(aig: AIG, done: Set<usize>, targets: Seq<usize>, l: int) -> bool {
    let need = first_row(aig, done, targets).len();
    &&& exists|v: usize| #[trigger] in_gate_cone(aig, done, targets, v) && depth(aig, done, v) >= l
    &&& need + feet(l) < 4096
    &&& need + span(l) < 4096 || need + cone_set(aig, done, targets).len() < 4096
}

/// Does the hierarchy hold a gate of depth `l` or more?
pub open spec fn holds_deep(aig: AIG, done: Set<usize>, hier: Seq<Vec<usize>>, l: int) -> bool {
    exists|v: usize| #[trigger] held(hier).contains(v) && depth(aig, done, v) >= l
}

/// Is deep logic, up to depth 12, folded into the hierarchy?
#[verifier::opaque]
pub open spec fn is_folded(aig: AIG, done: Set<usize>, targets: Seq<usize>, hier: Seq<Vec<usize>>) -> bool {
    forall|l: int| 2 <= l <= 12 && #[trigger] is_deep(aig, done, targets, l) ==> holds_deep(aig, done, hier, l)
}

/// Is there one target, of depth 12 or less, which depends on gates and leaves
/// alone, and on fewer of them than the first row of gates has slots?
#[verifier::opaque]
pub open spec fn is_solo(aig: AIG, done: Set<usize>, targets: Seq<usize>) -> bool {
    &&& targets.len() == 1
    &&& depth(aig, done, targets[0]) <= 12
    &&& cone_set(aig, done, targets).len() < 4096
    &&& forall|v: usize| #[trigger]
        in_cone(aig, done, targets, v) && !is_leaf(aig, done, v) ==> in_gate_cone(aig, done, targets, v)
}

/// The level of a pin in a cone is its depth.
pub(crate) proof fn lemma_depth(aig: AIG, done: Set<usize>, cone: Cone, v: usize)
    requires
        aig.drivers_wf(),
        cone.graded(aig, done),
        cone.has(v),
    ensures
        cone.lvl(v) == depth(aig, done, v),
    decreases v,
{
    cone.lemma_leveled(aig, done, v);
    if !is_leaf(aig, done, v) {
        if let DriverType::AndGate(a, b) = aig.drivers@[v as int] {
            lemma_depth(aig, done, cone, (a / 2) as usize);
            lemma_depth(aig, done, cone, (b / 2) as usize);
        }
    }
}

/// What is necessary at first is in the first row.
pub(crate) proof fn lemma_first_row(aig: AIG, done: Set<usize>, cone: Cone, targets: Seq<usize>, plan: Plan)
    requires
        aig.drivers_wf(),
        cone.wf(aig, done, targets),
        cone.order@.to_set() == cone_set(aig, done, targets),
        plan.ok(aig, done, cone, targets, Map::empty()),
    ensures
        first_row(aig, done, targets).finite(),
        first_row(aig, done, targets).len() <= cone_set(aig, done, targets).len(),
        set_items(plan.necessary).len() <= first_row(aig, done, targets).len(),
{
    let row = first_row(aig, done, targets);
    let s = set_items(plan.necessary);
    vstd::seq_lib::seq_to_set_is_finite(cone.order@);
    assert(row.subset_of(cone_set(aig, done, targets)));
    vstd::set_lib::lemma_set_subset_finite(cone_set(aig, done, targets), row);
    vstd::set_lib::lemma_len_subset(row, cone_set(aig, done, targets));
    assert forall|x: usize| s.to_set().contains(x) implies row.contains(x) by {
        assert(s.contains(x));
        let u = choose|u: usize| #[trigger] asks_for(aig, cone, targets, Map::empty(), plan.reverse_level@, u, x);
        cone.lemma_leveled(aig, done, u);
        cone.lemma_level_one(aig, done, u);
        cone.lemma_level_one(aig, done, x);
        cone.lemma_spans(aig, done, targets, u);
        cone.lemma_spans(aig, done, targets, x);
        if cone.lvl(u) > 1 {
            assert(in_cone(aig, done, targets, u));
            assert(is_operand(aig, u, x));
        }
    }
    s.unique_seq_to_set();
    vstd::set_lib::lemma_len_subset(s.to_set(), row);
}

/// What targets want from outside of the hierarchy is a pin of the cone that is
/// wanted.
proof fn lemma_outside(
    aig: AIG,
    done: Set<usize>,
    cone: Cone,
    targets: Seq<usize>,
    placed: Map<usize, usize>,
    s: Seq<usize>,
    i: int,
)
    requires
        aig.drivers_wf(),
        cone.wf(aig, done, targets),
        forall|i: int| 0 <= i < targets.len() ==> cone.has(#[trigger] targets[i]),
        aig.is_walk(leaves(aig, done.union(placed.dom())), s),
        targets.contains(s[0]),
        0 <= i < s.len(),
    ensures
        cone.has(s[i]),
        wanted(aig, done, cone, targets, placed, s[i]),
    decreases i,
{
    let next = done.union(placed.dom());
    if i == 0 {
        assert(targets[targets.index_of(s[0])] == s[0]);
    } else {
        lemma_outside(aig, done, cone, targets, placed, s, i - 1);
        let u = s[i - 1];
        assert(aig.is_step(leaves(aig, next), s, i - 1));
        assert(!leaves(aig, next).contains(u));
        assert(!is_leaf(aig, next, u));
        assert(!is_leaf(aig, done, u));
        assert(!placed.contains_key(u));
        lemma_gate_fanin(aig, u, s[i]);
        cone.lemma_leveled(aig, done, u);
        assert(wishes(aig, done, cone, placed, u, s[i]));
    }
}

/// The rows are made use of.
pub(crate) proof fn lemma_well_filled(
    aig: AIG,
    done: Set<usize>,
    cone: Cone,
    targets: Seq<usize>,
    first: Plan,
    hier: Seq<Vec<usize>>,
    count: Map<usize, usize>,
)
    requires
        aig.drivers_wf(),
        cone.wf(aig, done, targets),
        cone.order@.to_set() == cone_set(aig, done, targets),
        forall|i: int| 0 <= i < targets.len() ==> cone.has(#[trigger] targets[i]),
        grid_ok(aig, done, cone, hier, count, 1),
        first.ok(aig, done, cone, targets, Map::empty()),
        all_filled(aig, done, cone, targets, set_items(first.necessary).len() as int, hier, count, 1),
    ensures
        well_filled(aig, done, targets, hier),
{
    let n = set_items(first.necessary).len() as int;
    lemma_first_row(aig, done, cone, targets, first);
    lemma_counted(hier, count);
    assert(held(hier) =~= count.dom());
    cone.order@.unique_seq_to_set();
    reveal(well_filled);
    reveal(all_filled);
    assert forall|l: int| 2 <= l <= 13 implies #[trigger] level_used(aig, done, targets, hier, l) by {
        assert(level_filled(aig, done, cone, targets, n, hier, count, l));
        reveal(level_filled);
        if forall|v: usize| #[trigger]
            cone.has(v) && cone.lvl(v) == l && wanted(aig, done, cone, targets, count, v) ==> count.contains_key(v) {
            assert forall|v: usize| #[trigger]
                in_gate_cone(aig, done.union(held(hier)), targets, v) && depth(aig, done, v) == l implies held(
                hier,
            ).contains(v) by {
                let next = done.union(held(hier));
                let t = choose|t: usize| #[trigger] targets.contains(t) && aig.reaches(leaves(aig, next), t, v);
                let s = choose|s: Seq<usize>| #[trigger]
                    aig.is_walk(leaves(aig, next), s) && s[0] == t && s.last() == v;
                lemma_outside(aig, done, cone, targets, count, s, s.len() - 1);
                lemma_depth(aig, done, cone, v);
            }
        }
    }
}

/// Deep logic is folded.
pub(crate) proof fn lemma_is_folded(
    aig: AIG,
    done: Set<usize>,
    cone: Cone,
    targets: Seq<usize>,
    first: Plan,
    c0: Map<usize, usize>,
    hier: Seq<Vec<usize>>,
    count: Map<usize, usize>,
)
    requires
        aig.drivers_wf(),
        cone.wf(aig, done, targets),
        cone.order@.to_set() == cone_set(aig, done, targets),
        forall|i: int| 0 <= i < targets.len() ==> cone.has(#[trigger] targets[i]),
        grid_ok(aig, done, cone, hier, count, 1),
        first.ok(aig, done, cone, targets, Map::empty()),
        forall|x: usize| #[trigger] c0.contains_key(x) ==> count.contains_key(x),
        forall|l: int|
            2 <= l <= 12 && #[trigger] goes_deep(
                aig,
                done,
                cone,
                targets,
                set_items(first.necessary).len() as int,
                l,
            ) ==> reached(cone, c0, l),
    ensures
        is_folded(aig, done, targets, hier),
{
    let n = set_items(first.necessary).len() as int;
    lemma_first_row(aig, done, cone, targets, first);
    lemma_counted(hier, count);
    cone.order@.unique_seq_to_set();
    reveal(is_folded);
    assert forall|l: int| 2 <= l <= 12 && #[trigger] is_deep(aig, done, targets, l) implies holds_deep(
        aig,
        done,
        hier,
        l,
    ) by {
        let v = choose|v: usize| #[trigger] in_gate_cone(aig, done, targets, v) && depth(aig, done, v) >= l;
        let t = choose|t: usize| #[trigger] targets.contains(t) && aig.reaches(leaves(aig, done), t, v);
        let s = choose|s: Seq<usize>| #[trigger] aig.is_walk(leaves(aig, done), s) && s[0] == t && s.last() == v;
        assert(done.union(Map::<usize, usize>::empty().dom()) =~= done);
        lemma_outside(aig, done, cone, targets, Map::empty(), s, s.len() - 1);
        lemma_depth(aig, done, cone, v);
        assert(goes_deep(aig, done, cone, targets, n, l)) by {
            reveal(goes_deep);
        }
        let w = choose|w: usize| #[trigger] c0.contains_key(w) && cone.has(w) && cone.lvl(w) >= l;
        lemma_depth(aig, done, cone, w);
        assert(count.contains_key(w));
        assert(held(hier).contains(w));
    }
}

/// A solo target of level 2 or more is the one target of its cone.
pub(crate) proof fn lemma_solo(aig: AIG, done: Set<usize>, cone: Cone, targets: Seq<usize>, max_level: usize)
    requires
        aig.drivers_wf(),
        cone.wf(aig, done, targets),
        cone.order@.to_set() == cone_set(aig, done, targets),
        forall|i: int| 0 <= i < targets.len() ==> cone.has(#[trigger] targets[i]),
        is_solo(aig, done, targets),
        depth(aig, done, targets[0]) >= 2,
        forall|v: usize| #[trigger] cone.has(v) ==> cone.lvl(v) <= max_level,
        max_level == 0 || exists|v: usize| #[trigger] cone.has(v) && cone.lvl(v) == max_level,
    ensures
        is_lone(aig, done, cone, targets),
        max_level == cone.lvl(targets[0]),
{
    reveal(is_solo);
    let t = targets[0];
    assert(cone.has(targets[0]));
    lemma_depth(aig, done, cone, t);
    cone.order@.unique_seq_to_set();
    assert(is_lone(aig, done, cone, targets)) by {
        reveal(is_lone);
        assert forall|v: usize| #[trigger] cone.has(v) && !is_leaf(aig, done, v) && v != t implies exists|u: usize|
            #[trigger] wishes(aig, done, cone, Map::empty(), u, v) by {
            cone.lemma_spans(aig, done, targets, v);
            assert(in_cone(aig, done, targets, v));
            let x = choose|x: usize| #[trigger] targets.contains(x) && aig.reaches(leaves(aig, done), x, v);
            let s = choose|s: Seq<usize>| #[trigger] aig.is_walk(leaves(aig, done), s) && s[0] == x && s.last() == v;
            assert(done.union(Map::<usize, usize>::empty().dom()) =~= done);
            assert(x == t);
            lemma_outside(aig, done, cone, targets, Map::empty(), s, s.len() - 1);
        }
    }
    let v = choose|v: usize| #[trigger] cone.has(v) && cone.lvl(v) == max_level;
    if v != t {
        super::fill::lemma_lone_top(aig, done, cone, targets, v);
    }
}

/// A solo target of depth 0 or 1 is shallow.
pub(crate) proof fn lemma_solo_shallow(aig: AIG, done: Set<usize>, cone: Cone, targets: Seq<usize>)
    requires
        aig.drivers_wf(),
        cone.wf(aig, done, targets),
        forall|i: int| 0 <= i < targets.len() ==> cone.has(#[trigger] targets[i]),
        is_solo(aig, done, targets),
        depth(aig, done, targets[0]) <= 1,
    ensures
        super::stage::shallow(aig, done, targets),
{
    reveal(is_solo);
    let t = targets[0];
    assert(cone.has(targets[0]));
    lemma_depth(aig, done, cone, t);
    assert forall|v: usize| #[trigger] in_cone(aig, done, targets, v) implies is_leaf(aig, done, v) || is_base_gate(
        aig,
        done,
        v,
    ) by {
        cone.lemma_spans(aig, done, targets, v);
        if !is_leaf(aig, done, v) {
            assert(in_gate_cone(aig, done, targets, v));
            let x = choose|x: usize| #[trigger] targets.contains(x) && aig.reaches(leaves(aig, done), x, v);
            let s = choose|s: Seq<usize>| #[trigger] aig.is_walk(leaves(aig, done), s) && s[0] == x && s.last() == v;
            assert(x == t);
            cone.lemma_level_one(aig, done, t);
            if s.len() > 1 {
                assert(aig.is_step(leaves(aig, done), s, 0));
                assert(!leaves(aig, done).contains(s[0]));
                lemma_gate_fanin(aig, t, s[1]);
                cone.lemma_leveled(aig, done, t);
                assert(is_leaf(aig, done, s[1]));
                if s.len() > 2 {
                    assert(aig.is_step(leaves(aig, done), s, 1));
                    assert(!leaves(aig, done).contains(s[1]));
                }
                assert(s[1] == v);
            }
        }
    }
}

} // verus!
