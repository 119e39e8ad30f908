//! Which targets have to wait for a macro phase.

use super::cone::in_cone;
use super::rounds::are_pins;
use super::stage::lemma_push_contains;
use crate::aig::{pin_set, trail_of, AIG};
use crate::collections::{set_add, set_at, set_contains, set_items, set_len, set_new, set_to_vec};
use indexmap::IndexSet;
use vstd::prelude::*;

verus! {

/// Does the pin depend on one that is pending?
pub open spec fn waits(aig: AIG, done: Set<usize>, pending: Seq<usize>, u: usize) -> bool {
    exists|q: usize| #[trigger] pending.contains(q) && aig.reaches(done, u, q)
}

/// A pin waits if it is pending, or if a fan-in that is followed waits.
proof fn lemma_waits(aig: AIG, done: Set<usize>, pending: Seq<usize>, u: usize)
    ensures
        waits(aig, done, pending, u) <==> pending.contains(u) || (!done.contains(u) && exists|w: usize| #[trigger]
            aig.fanin(u).contains(w) && waits(aig, done, pending, w)),
{
    if waits(aig, done, pending, u) && !pending.contains(u) {
        let q = choose|q: usize| #[trigger] pending.contains(q) && aig.reaches(done, u, q);
        let s = choose|s: Seq<usize>| #[trigger] aig.is_walk(done, s) && s[0] == u && s.last() == q;
        assert(s.len() > 1);
        assert(aig.is_step(done, s, 0));
        let t = s.subrange(1, s.len() as int);
        assert forall|i: int| 0 <= i < t.len() - 1 implies #[trigger] aig.is_step(done, t, i) by {
            assert(aig.is_step(done, s, i + 1));
        }
        assert(aig.is_walk(done, t) && t[0] == s[1] && t.last() == q);
        assert(aig.reaches(done, s[1], q));
        assert(aig.fanin(u).contains(s[1]));
    }
    if pending.contains(u) {
        aig.lemma_reaches_self(done, u);
    }
    if !done.contains(u) && exists|w: usize| #[trigger] aig.fanin(u).contains(w) && waits(aig, done, pending, w) {
        let w = choose|w: usize| #[trigger] aig.fanin(u).contains(w) && waits(aig, done, pending, w);
        let q = choose|q: usize| #[trigger] pending.contains(q) && aig.reaches(done, w, q);
        aig.lemma_reaches_step(done, u, w, q);
    }
}

/// Is one of the pins in the set?
fn any_in(pins: &Vec<usize>, s: &IndexSet<usize>) -> (r: bool)
    ensures
        r == exists|w: usize| #[trigger] pins@.contains(w) && set_items(*s).contains(w),
{
    let mut i: usize = 0;
    while i < pins.len()
        invariant
            i <= pins@.len(),
            forall|k: int| 0 <= k < i ==> !set_items(*s).contains(#[trigger] pins@[k]),
        decreases pins@.len() - i,
    {
        if set_contains(s, pins[i]) {
            assert(pins@.contains(pins@[i as int]));
            return true;
        }
        i += 1;
    }
    assert forall|w: usize| #[trigger] pins@.contains(w) implies !set_items(*s).contains(w) by {
        assert(!set_items(*s).contains(pins@[pins@.index_of(w)]));
    }
    false
}

/// Those elements of a sequence that are in a set, in order.
pub open spec fn those_in(s: Seq<usize>, of: Set<usize>) -> Seq<usize>
    decreases s.len(),
{
    if s.len() == 0 {
        Seq::empty()
    } else {
        let rest = those_in(s.drop_last(), of);
        if of.contains(s.last()) {
            rest.push(s.last())
        } else {
            rest
        }
    }
}

/// What is in another set is among the elements.
proof fn lemma_those_in(s: Seq<usize>, of: Set<usize>)
    ensures
        forall|x: usize| #[trigger] those_in(s, of).contains(x) <==> s.contains(x) && of.contains(x),
    decreases s.len(),
{
    if s.len() > 0 {
        let before = s.drop_last();
        lemma_those_in(before, of);
        assert(s =~= before.push(s.last()));
        lemma_push_contains(before, s.last());
        lemma_push_contains(those_in(before, of), s.last());
    }
}

/// Sets with the same elements among those of a sequence.
proof fn lemma_those_same(s: Seq<usize>, a: Set<usize>, b: Set<usize>)
    requires
        forall|x: usize| #[trigger] s.contains(x) ==> (a.contains(x) <==> b.contains(x)),
    ensures
        those_in(s, a) == those_in(s, b),
    decreases s.len(),
{
    if s.len() > 0 {
        let before = s.drop_last();
        assert(s[s.len() - 1] == s.last());
        assert(s.contains(s.last()));
        assert forall|x: usize| #[trigger] before.contains(x) implies (a.contains(x) <==> b.contains(x)) by {
            assert(s[before.index_of(x)] == x);
            assert(s.contains(x));
        }
        lemma_those_same(before, a, b);
    }
}

/// The pins that wait for what is pending.
pub open spec fn waiting_pins(aig: AIG, done: Set<usize>, pending: Seq<usize>) -> Set<usize> {
    Set::new(|u: usize| waits(aig, done, pending, u))
}

/// The targets and what they depend on, in the order of a depth-first traversal.
pub open spec fn visited_pins(aig: AIG, done: Set<usize>, targets: Seq<usize>) -> Seq<usize> {
    aig.visit_all(done, trail_of(Seq::empty(), Seq::empty()), targets, (aig.num_aigpins + 1) as nat).left
}

/// The order in which the targets and what they depend on can be visited.
pub(crate) fn visit_order(aig: &AIG, targets: &IndexSet<usize>, realized_inputs: &IndexSet<usize>) -> (order: Vec<
    usize,
>)
    requires
        aig.walkable(),
        aig.acyclic(set_items(*realized_inputs).to_set()),
        are_pins(*aig, set_items(*targets)),
    ensures
        order@.no_duplicates(),
        are_pins(*aig, order@),
        aig.is_topological(set_items(*realized_inputs).to_set(), order@),
        order@ == visited_pins(*aig, set_items(*realized_inputs).to_set(), set_items(*targets)),
        forall|v: usize| #[trigger]
            order@.contains(v) <==> in_cone(
                *aig,
                set_items(*realized_inputs).to_set(),
                set_items(*targets),
                v,
            ),
{
    let ghost done = set_items(*realized_inputs).to_set();
    let ghost tgt = set_items(*targets);
    let endpoints = set_to_vec(targets);
    let order = aig.topo_traverse_generic(Some(&endpoints), Some(realized_inputs));
    proof {
        assert(pin_set(Some(realized_inputs)) == done);
        assert forall|v: usize| #[trigger] order@.contains(v) <==> in_cone(*aig, done, tgt, v) by {
            if order@.contains(v) {
                let u = choose|u: usize| #[trigger]
                    aig.is_endpoint(Some(&endpoints), u) && aig.reaches(done, u, v);
                assert(tgt.contains(u));
            }
            if in_cone(*aig, done, tgt, v) {
                let t = choose|t: usize| #[trigger] tgt.contains(t) && aig.reaches(done, t, v);
                assert(aig.is_endpoint(Some(&endpoints), t));
            }
        }
        assert forall|i: int| 0 <= i < order@.len() implies #[trigger] order@[i] <= aig.num_aigpins by {
            assert(order@.contains(order@[i]));
        }
    }
    order
}

/// The elements of a set that are in another one, in order.
pub(crate) fn set_meet(a: &IndexSet<usize>, b: &IndexSet<usize>) -> (r: IndexSet<usize>)
    ensures
        forall|x: usize| #[trigger]
            set_items(r).contains(x) <==> set_items(*a).contains(x) && set_items(*b).contains(x),
        set_items(r) == those_in(set_items(*a), set_items(*b).to_set()),
{
    let ghost s = set_items(*a);
    let n = set_len(a);
    let mut r = set_new();
    let mut i: usize = 0;
    while i < n
        invariant
            s == set_items(*a),
            n == s.len(),
            i <= n,
            forall|x: usize| #[trigger]
                set_items(r).contains(x) <==> s.take(i as int).contains(x) && set_items(*b).contains(x),
            s.no_duplicates(),
            set_items(r) == those_in(s.take(i as int), set_items(*b).to_set()),
        decreases n - i,
    {
        let v = set_at(a, i);
        proof {
            assert(s.take(i + 1) =~= s.take(i as int).push(v));
            lemma_push_contains(s.take(i as int), v);
            assert(s.take(i + 1).drop_last() =~= s.take(i as int));
            assert(!s.take(i as int).contains(v)) by {
                if s.take(i as int).contains(v) {
                    let k = s.take(i as int).index_of(v);
                    assert(s[k] == s[i as int]);
                }
            }
        }
        if set_contains(b, v) {
            set_add(&mut r, v);
        }
        i += 1;
    }
    assert(s.take(n as int) =~= s);
    r
}

/// Which targets cannot be built yet because they depend on a macro output
/// whose phase has not run?
///
/// A boomerang stage works on all outstanding targets. It would otherwise pick
/// up a target that depends on an output that is not evaluated yet, and pass
/// that output on as if it were there.
pub fn targets_blocked_by_pending(
    aig: &AIG,
    targets: &IndexSet<usize>,
    realized_inputs: &IndexSet<usize>,
    pending: &IndexSet<usize>,
) -> (r: IndexSet<usize>)
    requires
        aig.walkable(),
        aig.acyclic(set_items(*realized_inputs).to_set()),
        are_pins(*aig, set_items(*targets)),
    ensures
        forall|t: usize| #[trigger]
            set_items(r).contains(t) <==> set_items(*targets).contains(t) && waits(
                *aig,
                set_items(*realized_inputs).to_set(),
                set_items(*pending),
                t,
            ),
        set_items(r) == those_in(
            set_items(*targets),
            waiting_pins(*aig, set_items(*realized_inputs).to_set(), set_items(*pending)),
        ),
{
    if set_len(pending) == 0 {
        proof {
            let none = waiting_pins(*aig, set_items(*realized_inputs).to_set(), set_items(*pending));
            lemma_those_in(set_items(*targets), none);
            let left = those_in(set_items(*targets), none);
            if left.len() > 0 {
                assert(left.contains(left[0]));
            }
            assert(left =~= Seq::<usize>::empty());
        }
        return set_new();
    }
    let ghost done = set_items(*realized_inputs).to_set();
    let ghost pend = set_items(*pending);
    let ghost tgt = set_items(*targets);
    let order = visit_order(aig, targets, realized_inputs);
    let mut taint = set_new();
    let mut i: usize = 0;
    while i < order.len()
        invariant
            aig.walkable(),
            done == set_items(*realized_inputs).to_set(),
            pend == set_items(*pending),
            order@.no_duplicates(),
            are_pins(*aig, order@),
            aig.is_topological(done, order@),
            i <= order@.len(),
            forall|v: usize| #[trigger]
                set_items(taint).contains(v) <==> order@.take(i as int).contains(v) && waits(*aig, done, pend, v),
        decreases order@.len() - i,
    {
        let pin = order[i];
        let ghost t0 = set_items(taint);
        let ghost seen = order@.take(i as int);
        proof {
            assert(order@.take(i + 1) =~= seen.push(pin));
            lemma_push_contains(seen, pin);
            assert(order@[i as int] <= aig.num_aigpins);
            lemma_waits(*aig, done, pend, pin);
        }
        if set_contains(pending, pin) {
            set_add(&mut taint, pin);
        } else if !set_contains(realized_inputs, pin) {
            let fanin = aig.fanin_pins(pin);
            let t = any_in(&fanin, &taint);
            proof {
                assert forall|w: usize| #[trigger] aig.fanin(pin).contains(w) implies seen.contains(w) by {
                    assert(aig.fanin(order@[i as int]).contains(w));
                }
                assert(t == waits(*aig, done, pend, pin)) by {
                    if t {
                        let w = choose|w: usize| #[trigger] fanin@.contains(w) && t0.contains(w);
                        assert(aig.fanin(pin).contains(w));
                    }
                    if waits(*aig, done, pend, pin) {
                        let w = choose|w: usize| #[trigger] aig.fanin(pin).contains(w) && waits(*aig, done, pend, w);
                        assert(seen.contains(w));
                        assert(fanin@.contains(w) && t0.contains(w));
                    }
                }
            }
            if t {
                set_add(&mut taint, pin);
            }
        }
        i += 1;
    }
    let r = set_meet(targets, &taint);
    proof {
        assert(order@.take(order@.len() as int) =~= order@);
        assert forall|t: usize| #[trigger]
            set_items(r).contains(t) <==> tgt.contains(t) && waits(*aig, done, pend, t) by {
            if tgt.contains(t) {
                aig.lemma_reaches_self(done, t);
                assert(in_cone(*aig, done, tgt, t));
                assert(order@.contains(t));
            }
        }
        let late = waiting_pins(*aig, done, pend);
        assert forall|x: usize| #[trigger] tgt.contains(x) implies (set_items(taint).to_set().contains(x)
            <==> late.contains(x)) by {
            aig.lemma_reaches_self(done, x);
            assert(in_cone(*aig, done, tgt, x));
            assert(order@.contains(x));
            assert(set_items(taint).contains(x) <==> waits(*aig, done, pend, x));
        }
        lemma_those_same(tgt, set_items(taint).to_set(), late);
    }
    r
}

/// The pins that are realized already and that deferred targets depend on.
///
/// Withholding a target stops the stages from carrying these forward, so they
/// have to be kept addressable otherwise.
pub fn realized_leaves_of(
    aig: &AIG,
    targets: &IndexSet<usize>,
    realized_inputs: &IndexSet<usize>,
) -> (r: IndexSet<usize>)
    requires
        aig.walkable(),
        aig.acyclic(set_items(*realized_inputs).to_set()),
        are_pins(*aig, set_items(*targets)),
    ensures
        forall|v: usize| #[trigger]
            set_items(r).contains(v) <==> set_items(*realized_inputs).contains(v) && in_cone(
                *aig,
                set_items(*realized_inputs).to_set(),
                set_items(*targets),
                v,
            ),
        set_items(r) == those_in(
            visited_pins(*aig, set_items(*realized_inputs).to_set(), set_items(*targets)),
            set_items(*realized_inputs).to_set(),
        ),
{
    let order = visit_order(aig, targets, realized_inputs);
    let mut r = set_new();
    let mut i: usize = 0;
    while i < order.len()
        invariant
            i <= order@.len(),
            forall|v: usize| #[trigger]
                set_items(r).contains(v) <==> order@.take(i as int).contains(v) && set_items(
                    *realized_inputs,
                ).contains(v),
            order@.no_duplicates(),
            set_items(r) == those_in(order@.take(i as int), set_items(*realized_inputs).to_set()),
        decreases order@.len() - i,
    {
        let pin = order[i];
        proof {
            assert(order@.take(i + 1).drop_last() =~= order@.take(i as int));
            assert(order@.take(i + 1).last() == pin);
            assert(!order@.take(i as int).contains(pin)) by {
                if order@.take(i as int).contains(pin) {
                    let k = order@.take(i as int).index_of(pin);
                    assert(order@[k] == order@[i as int]);
                }
            }
            assert(order@.take(i + 1) =~= order@.take(i as int).push(pin));
            lemma_push_contains(order@.take(i as int), pin);
        }
        if set_contains(realized_inputs, pin) {
            set_add(&mut r, pin);
        }
        i += 1;
    }
    assert(order@.take(order@.len() as int) =~= order@);
    r
}

} // verus!
