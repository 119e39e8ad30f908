//! Which pins of a cone are still wanted, and which of them the first row of
//! gates has to provide.

use super::cone::{is_leaf, Cone};
use crate::aig::{DriverType, AIG};
use crate::collections::{map_get, map_view, set_at, set_contains, set_add, set_items, set_len, set_new};
use indexmap::{IndexMap, IndexSet};
use vstd::prelude::*;

verus! {

/// Does the wish for a pin that is not placed yet pass on to what its gate
/// conjoins?
pub open spec fn passes_on(
    aig: AIG,
    done: Set<usize>,
    cone: Cone,
    placed: Map<usize, usize>,
    rl: Seq<usize>,
    v: usize,
) -> bool {
    !is_leaf(aig, done, v) && !placed.contains_key(v) && rl[cone.pos(v)] != usize::MAX ==> (
    aig.drivers@[v as int] matches DriverType::AndGate(a, b) ==> rl[cone.pos((a / 2) as usize)] != usize::MAX
        && rl[cone.pos((b / 2) as usize)] != usize::MAX)
}

/// Is `v` one of two pins that are conjoined at `u`?
pub open spec fn is_operand(aig: AIG, u: usize, v: usize) -> bool {
    aig.drivers@[u as int] matches DriverType::AndGate(a, b) && (v == a / 2 || v == b / 2)
}

/// Is `u` a gate of the cone that is not placed yet and conjoins `v`?
pub open spec fn wishes(aig: AIG, done: Set<usize>, cone: Cone, placed: Map<usize, usize>, u: usize, v: usize) -> bool {
    cone.has(u) && !is_leaf(aig, done, u) && !placed.contains_key(u) && is_operand(aig, u, v)
}

/// Is the pin a target, or conjoined by a gate that is not placed yet?
pub open spec fn wanted(
    aig: AIG,
    done: Set<usize>,
    cone: Cone,
    targets: Seq<usize>,
    placed: Map<usize, usize>,
    v: usize,
) -> bool {
    targets.contains(v) || exists|u: usize| #[trigger] wishes(aig, done, cone, placed, u, v)
}

/// Raises the number of steps of a gate's operand.
fn raise(rl: &mut Vec<usize>, at: usize, steps: usize)
    requires
        at < old(rl)@.len(),
        steps != usize::MAX,
    ensures
        final(rl)@.len() == old(rl)@.len(),
        forall|k: int| 0 <= k < old(rl)@.len() && k != at ==> #[trigger] final(rl)@[k] == old(rl)@[k],
        final(rl)@[at as int] == steps || final(rl)@[at as int] == old(rl)@[at as int],
        final(rl)@[at as int] != usize::MAX,
{
    if rl[at] == usize::MAX || rl[at] < steps {
        rl[at] = steps;
    }
}

/// Computes the maximum number of steps from each pin to a target, over pins
/// that are not placed yet except for the first one; `usize::MAX` if no target
/// wants the pin.
///
/// The count of a gate that nothing wants starts over at its operands.
pub(crate) fn compute_reverse_level(
    cone: &Cone,
    targets: &IndexSet<usize>,
    realized: &IndexSet<usize>,
    count: &IndexMap<usize, usize>,
    aig: &AIG,
) -> (rl: Vec<usize>)
    requires
        aig.drivers_wf(),
        cone.graded(*aig, set_items(*realized).to_set()),
        forall|i: int| 0 <= i < set_items(*targets).len() ==> cone.has(#[trigger] set_items(*targets)[i]),
    ensures
        rl@.len() == cone.order@.len(),
        forall|i: int|
            0 <= i < set_items(*targets).len() ==> rl@[cone.pos(#[trigger] set_items(*targets)[i])] != usize::MAX,
        forall|v: usize| #[trigger]
            cone.has(v) ==> passes_on(*aig, set_items(*realized).to_set(), *cone, map_view(*count), rl@, v),
        forall|v: usize| #[trigger]
            cone.has(v) ==> (rl@[cone.pos(v)] != usize::MAX <==> wanted(
                *aig,
                set_items(*realized).to_set(),
                *cone,
                set_items(*targets),
                map_view(*count),
                v,
            )),
{
    let ghost done = set_items(*realized).to_set();
    let ghost tgt = set_items(*targets);
    let n = cone.order.len();
    let mut rl: Vec<usize> = vec![usize::MAX; n];
    let m = set_len(targets);
    let mut t: usize = 0;
    while t < m
        invariant
            cone.indexed(),
            n == cone.order@.len(),
            tgt == set_items(*targets),
            m == tgt.len(),
            t <= m,
            rl@.len() == n,
            forall|i: int| 0 <= i < tgt.len() ==> cone.has(#[trigger] tgt[i]),
            forall|k: int| 0 <= k < n ==> #[trigger] rl@[k] == usize::MAX || rl@[k] == 0,
            forall|i: int| 0 <= i < t ==> rl@[cone.pos(#[trigger] tgt[i])] != usize::MAX,
            forall|v: usize| #[trigger] cone.has(v) && rl@[cone.pos(v)] != usize::MAX ==> tgt.contains(v),
        decreases m - t,
    {
        let ghost rl0 = rl@;
        proof {
            assert(tgt.contains(tgt[t as int]));
            assert(cone.order@[cone.pos(tgt[t as int])] == tgt[t as int]);
        }
        if let Some(p) = map_get(&cone.index, set_at(targets, t)) {
            rl[p] = 0;
        }
        t += 1;
    }
    let mut i: usize = n;
    while i > 0
        invariant
            aig.drivers_wf(),
            done == set_items(*realized).to_set(),
            tgt == set_items(*targets),
            cone.graded(*aig, done),
            n == cone.order@.len(),
            i <= n,
            rl@.len() == n,
            forall|i: int| 0 <= i < tgt.len() ==> cone.has(#[trigger] tgt[i]),
            forall|k: int| 0 <= k < n ==> #[trigger] rl@[k] == usize::MAX || rl@[k] <= n - 1 - k,
            forall|i: int| 0 <= i < tgt.len() ==> rl@[cone.pos(#[trigger] tgt[i])] != usize::MAX,
            forall|k: int|
                i <= k < n ==> passes_on(*aig, done, *cone, map_view(*count), rl@, #[trigger] cone.order@[k]),
            forall|v: usize| #[trigger]
                cone.has(v) && rl@[cone.pos(v)] != usize::MAX ==> wanted(*aig, done, *cone, tgt, map_view(*count), v),
            forall|k: int, v: usize|
                i <= k < n && #[trigger] wishes(*aig, done, *cone, map_view(*count), cone.order@[k], v)
                    ==> rl@[cone.pos(v)] != usize::MAX,
        decreases i,
    {
        i -= 1;
        let v = cone.order[i];
        let ghost rl0 = rl@;
        proof {
            assert(cone.has(cone.order@[i as int]) && cone.pos(cone.order@[i as int]) == i);
            cone.lemma_leveled(*aig, done, v);
        }
        if !set_contains(realized, v) && map_get(count, v).is_none() {
            let steps: usize = rl[i].wrapping_add(1);
            assert(steps <= n - i);
            if let DriverType::AndGate(a, b) = aig.drivers[v] {
                if a >= 2 {
                    if let Some(p) = map_get(&cone.index, a / 2) {
                        raise(&mut rl, p, steps);
                    }
                }
                if b >= 2 {
                    if let Some(p) = map_get(&cone.index, b / 2) {
                        raise(&mut rl, p, steps);
                    }
                }
            }
        }
        proof {
            assert(forall|k: int| 0 <= k < n && rl0[k] != usize::MAX ==> #[trigger] rl@[k] != usize::MAX);
            assert(forall|k: int| i <= k < n ==> #[trigger] rl@[k] == rl0[k]);
            assert forall|k: int| i <= k < n implies passes_on(
                *aig,
                done,
                *cone,
                map_view(*count),
                rl@,
                #[trigger] cone.order@[k],
            ) by {
                assert(cone.has(cone.order@[k]) && cone.pos(cone.order@[k]) == k);
                cone.lemma_leveled(*aig, done, cone.order@[k]);
                if k > i {
                    assert(passes_on(*aig, done, *cone, map_view(*count), rl0, cone.order@[k]));
                }
            }
            assert forall|k: int, w: usize|
                i <= k < n && #[trigger] wishes(*aig, done, *cone, map_view(*count), cone.order@[k], w)
                    implies rl@[cone.pos(
                w,
            )] != usize::MAX by {
                cone.lemma_leveled(*aig, done, cone.order@[k]);
                assert(cone.has(w));
                if k > i {
                    assert(rl0[cone.pos(w)] != usize::MAX);
                }
            }
            assert forall|w: usize| #[trigger] cone.has(w) && rl@[cone.pos(w)] != usize::MAX implies wanted(
                *aig,
                done,
                *cone,
                tgt,
                map_view(*count),
                w,
            ) by {
                if rl0[cone.pos(w)] == usize::MAX {
                    assert(cone.order@[cone.pos(w)] == w);
                    assert(wishes(*aig, done, *cone, map_view(*count), v, w));
                }
            }
        }
    }
    proof {
        assert forall|v: usize| #[trigger] cone.has(v) implies (rl@[cone.pos(v)] != usize::MAX <==> wanted(
            *aig,
            done,
            *cone,
            tgt,
            map_view(*count),
            v,
        )) by {
            if tgt.contains(v) {
                assert(tgt[tgt.index_of(v)] == v);
            } else if wanted(*aig, done, *cone, tgt, map_view(*count), v) {
                let u = choose|u: usize| #[trigger] wishes(*aig, done, *cone, map_view(*count), u, v);
                assert(wishes(*aig, done, *cone, map_view(*count), cone.order@[cone.pos(u)], v));
            }
        }
        assert forall|v: usize| #[trigger] cone.has(v) implies passes_on(
            *aig,
            done,
            *cone,
            map_view(*count),
            rl@,
            v,
        ) by {
            assert(passes_on(*aig, done, *cone, map_view(*count), rl@, cone.order@[cone.pos(v)]));
        }
    }
    rl
}

/// Does the wish for `u` make the first row of gates provide `nd`?
///
/// A gate of level 1 that is wanted has to stand there itself. A wanted pin of
/// level 0 has to if it is a target. A wanted gate of a higher level needs its
/// operands of level 0 there.
pub open spec fn asks_for(
    aig: AIG,
    cone: Cone,
    targets: Seq<usize>,
    placed: Map<usize, usize>,
    rl: Seq<usize>,
    u: usize,
    nd: usize,
) -> bool {
    &&& cone.has(u)
    &&& !placed.contains_key(u)
    &&& rl[cone.pos(u)] != usize::MAX
    &&& if cone.lvl(u) == 0 {
        targets.contains(u) && nd == u
    } else if cone.lvl(u) == 1 {
        nd == u
    } else {
        &&& aig.drivers@[u as int] matches DriverType::AndGate(a, b) && (nd == a / 2 || nd == b / 2)
        &&& cone.lvl(nd) == 0
        &&& !placed.contains_key(nd)
    }
}

/// Has the first row of gates to provide the pin?
pub open spec fn is_necessary(
    aig: AIG,
    cone: Cone,
    targets: Seq<usize>,
    placed: Map<usize, usize>,
    rl: Seq<usize>,
    nd: usize,
) -> bool {
    exists|u: usize| #[trigger] asks_for(aig, cone, targets, placed, rl, u, nd)
}

/// A necessary pin is a pin of the cone of level 0 or 1 that is not placed yet.
pub(crate) proof fn lemma_necessary(
    aig: AIG,
    done: Set<usize>,
    cone: Cone,
    targets: Seq<usize>,
    placed: Map<usize, usize>,
    rl: Seq<usize>,
    nd: usize,
)
    requires
        aig.drivers_wf(),
        cone.graded(aig, done),
        is_necessary(aig, cone, targets, placed, rl, nd),
    ensures
        cone.has(nd),
        cone.lvl(nd) <= 1,
        !placed.contains_key(nd),
{
    let u = choose|u: usize| #[trigger] asks_for(aig, cone, targets, placed, rl, u, nd);
    cone.lemma_leveled(aig, done, u);
}

/// The pins that have to be implemented in the first row of gates in addition
/// to what is placed already.
pub(crate) fn compute_lvl1_necessary_nodes(
    cone: &Cone,
    rl: &Vec<usize>,
    aig: &AIG,
    targets: &IndexSet<usize>,
    count: &IndexMap<usize, usize>,
    Ghost(done): Ghost<Set<usize>>,
) -> (r: IndexSet<usize>)
    requires
        aig.drivers_wf(),
        cone.graded(*aig, done),
        rl@.len() == cone.order@.len(),
    ensures
        set_items(r).no_duplicates(),
        forall|nd: usize| #[trigger]
            set_items(r).contains(nd) <==> is_necessary(
                *aig,
                *cone,
                set_items(*targets),
                map_view(*count),
                rl@,
                nd,
            ),
{
    let ghost tgt = set_items(*targets);
    let ghost placed = map_view(*count);
    let mut r = set_new();
    let n = cone.order.len();
    let mut i: usize = 0;
    while i < n
        invariant
            aig.drivers_wf(),
            tgt == set_items(*targets),
            placed == map_view(*count),
            cone.graded(*aig, done),
            rl@.len() == n,
            n == cone.order@.len(),
            i <= n,
            set_items(r).no_duplicates(),
            forall|nd: usize| #[trigger]
                set_items(r).contains(nd) <==> exists|k: int|
                    0 <= k < i && #[trigger] asks_for(*aig, *cone, tgt, placed, rl@, cone.order@[k], nd),
        decreases n - i,
    {
        let v = cone.order[i];
        let ghost r0 = set_items(r);
        proof {
            assert(cone.has(cone.order@[i as int]) && cone.pos(cone.order@[i as int]) == i);
            cone.lemma_leveled(*aig, done, v);
        }
        let ghost mut added = Set::<usize>::empty();
        if map_get(count, v).is_none() && rl[i] != usize::MAX {
            if cone.level[i] == 0 {
                if set_contains(targets, v) {
                    set_add(&mut r, v);
                    proof {
                        added = added.insert(v);
                    }
                }
            } else if cone.level[i] == 1 {
                set_add(&mut r, v);
                proof {
                    added = added.insert(v);
                }
            } else {
                if let DriverType::AndGate(a, b) = aig.drivers[v] {
                    if cone.level_of(a / 2) == 0 && map_get(count, a / 2).is_none() {
                        set_add(&mut r, a / 2);
                        proof {
                            added = added.insert((a / 2) as usize);
                        }
                    }
                    if cone.level_of(b / 2) == 0 && map_get(count, b / 2).is_none() {
                        set_add(&mut r, b / 2);
                        proof {
                            added = added.insert((b / 2) as usize);
                        }
                    }
                }
            }
        }
        proof {
            assert(forall|nd: usize| #[trigger] set_items(r).contains(nd) <==> r0.contains(nd) || added.contains(nd));
            assert(forall|nd: usize| #[trigger]
                added.contains(nd) <==> asks_for(*aig, *cone, tgt, placed, rl@, cone.order@[i as int], nd));
            assert forall|nd: usize| #[trigger]
                set_items(r).contains(nd) <==> exists|k: int|
                    0 <= k < i + 1 && #[trigger] asks_for(*aig, *cone, tgt, placed, rl@, cone.order@[k], nd) by {
                if added.contains(nd) {
                    assert(asks_for(*aig, *cone, tgt, placed, rl@, cone.order@[i as int], nd));
                }
                if r0.contains(nd) {
                    let k = choose|k: int|
                        0 <= k < i && #[trigger] asks_for(*aig, *cone, tgt, placed, rl@, cone.order@[k], nd);
                    assert(asks_for(*aig, *cone, tgt, placed, rl@, cone.order@[k], nd));
                }
            }
        }
        i += 1;
    }
    proof {
        assert forall|nd: usize| #[trigger]
            set_items(r).contains(nd) <==> is_necessary(*aig, *cone, tgt, placed, rl@, nd) by {
            if is_necessary(*aig, *cone, tgt, placed, rl@, nd) {
                let u = choose|u: usize| #[trigger] asks_for(*aig, *cone, tgt, placed, rl@, u, nd);
                assert(asks_for(*aig, *cone, tgt, placed, rl@, cone.order@[cone.pos(u)], nd));
            }
        }
    }
    r
}

} // verus!
