//! Grouping the macros of a partition into evaluation phases.

use super::blocked::{targets_blocked_by_pending, visit_order, waits};
use super::cone::in_cone;
use super::rounds::are_pins;
use super::stage::lemma_push_contains;
use crate::aig::{DriverType, AIG};
use crate::collections::{map_get, map_view, set_add, set_at, set_contains, set_items, set_len, set_new};
use crate::macros::{lemma_state_slots_in_range, live_pins, MacroInst, MacroKind, C4_IN_CI, C4_OUT_CO, MACRO_MAX_LANES};
use crate::sorting::{lemma_same_distinct, lemma_same_items, sort_triples, triple_le};
use indexmap::IndexSet;
use vstd::prelude::*;

verus! {

/// The macro at a position.
pub open spec fn mac(aig: AIG, m: usize) -> MacroInst {
    aig.macros.vals()[m as int]
}

/// The position of the macro that drives a pin.
pub open spec fn producer(aig: AIG, pin: usize) -> Option<usize> {
    if map_view(aig.aigpin2macro).contains_key(pin) {
        Some(map_view(aig.aigpin2macro)[pin])
    } else {
        None
    }
}

/// Every pin that is said to be driven by a macro leads to one.
pub open spec fn producers_ok(aig: AIG) -> bool {
    forall|pin: usize|
        map_view(aig.aigpin2macro).contains_key(pin) ==> #[trigger] map_view(aig.aigpin2macro)[pin]
            < aig.macros.vals().len()
}

/// Has the macro to be evaluated part-way through a partition for the targets?
///
/// Its output is then one of the pins that they depend on, and not one that is
/// there already.
pub open spec fn in_macro_cone(aig: AIG, done: Set<usize>, targets: Seq<usize>, m: usize) -> bool {
    exists|pin: usize| #[trigger]
        in_cone(aig, done, targets, pin) && !done.contains(pin) && producer(aig, pin) == Some(m) && !(mac(
            aig,
            m,
        ).kind is Dsp48e2)
}

/// The pin at the carry input of a macro.
pub open spec fn carry_pin(aig: AIG, m: usize) -> usize {
    (mac(aig, m).inputs@[C4_IN_CI as int] / 2) as usize
}

/// Does the carry of one CARRY4 go into another one?
pub open spec fn carry_feeds(aig: AIG, p: usize, m: usize) -> bool {
    &&& mac(aig, m).kind is Carry4
    &&& mac(aig, p).kind is Carry4
    &&& carry_pin(aig, m) != 0
    &&& producer(aig, carry_pin(aig, m)) == Some(p)
    &&& mac(aig, p).outputs@[C4_OUT_CO + 3] == carry_pin(aig, m)
}

/// Is lane `l` of a phase the head of its carry chain?
pub open spec fn spec_chain_start(aig: AIG, wave: Seq<usize>, l: int) -> bool {
    ||| l == 0
    ||| l % 32 == 0
    ||| wave[l] == usize::MAX
    ||| wave[l - 1] == usize::MAX
    ||| !(mac(aig, wave[l]).kind is Carry4)
    ||| !(mac(aig, wave[l - 1]).kind is Carry4)
    ||| carry_pin(aig, wave[l]) == 0
    ||| mac(aig, wave[l - 1]).outputs@[C4_OUT_CO + 3] != carry_pin(aig, wave[l])
}

/// All macros have all their slots, and their positions are in range.
pub open spec fn wave_ok(aig: AIG, wave: Seq<usize>) -> bool {
    forall|i: int| 0 <= i < wave.len() ==> #[trigger] wave[i] < aig.macros.vals().len() || wave[i] == usize::MAX
}

/// Is lane `l` of a phase the head of its carry chain?
///
/// True unless the lane before it is a CARRY4 whose `CO[3]` drives this lane's
/// `CI`. A warp scan never crosses a boundary of 32 lanes.
pub fn is_chain_start(aig: &AIG, wave: &Vec<usize>, l: usize) -> (b: bool)
    requires
        aig.macros_wf(),
        wave_ok(*aig, wave@),
        l < wave@.len(),
    ensures
        b == spec_chain_start(*aig, wave@, l as int),
{
    if l == 0 || l % 32 == 0 {
        return true;
    }
    let me = wave[l];
    let prev = wave[l - 1];
    if me == usize::MAX || prev == usize::MAX {
        return true;
    }
    assert(wave@[l as int] < aig.macros.vals().len());
    assert(wave@[l - 1] < aig.macros.vals().len());
    let m = aig.macros.value(me);
    let p = aig.macros.value(prev);
    assert(mac(*aig, me).wf());
    assert(mac(*aig, prev).wf());
    if !matches!(m.kind, MacroKind::Carry4) || !matches!(p.kind, MacroKind::Carry4) {
        return true;
    }
    let ci: usize = m.inputs[C4_IN_CI] / 2;
    !(ci != 0 && p.outputs[C4_OUT_CO + 3] == ci)
}

/// The macros that have to be evaluated, in the order in which their outputs
/// come.
fn macros_in_order(aig: &AIG, order: &Vec<usize>, realized: &IndexSet<usize>) -> (r: IndexSet<usize>)
    requires
        aig.macros_wf(),
        producers_ok(*aig),
    ensures
        set_items(r).no_duplicates(),
        set_items(r).len() <= order@.len(),
        forall|m: usize| #[trigger]
            set_items(r).contains(m) <==> exists|k: int|
                0 <= k < order@.len() && !set_items(*realized).contains(#[trigger] order@[k]) && producer(
                    *aig,
                    order@[k],
                ) == Some(m) && !(mac(*aig, m).kind is Dsp48e2),
{
    let mut r = set_new();
    let mut i: usize = 0;
    while i < order.len()
        invariant
            aig.macros_wf(),
            producers_ok(*aig),
            i <= order@.len(),
            set_items(r).no_duplicates(),
            set_items(r).len() <= i,
            forall|m: usize| #[trigger]
                set_items(r).contains(m) <==> exists|k: int|
                    0 <= k < i && !set_items(*realized).contains(#[trigger] order@[k]) && producer(*aig, order@[k])
                        == Some(m) && !(mac(*aig, m).kind is Dsp48e2),
        decreases order@.len() - i,
    {
        let pin = order[i];
        let ghost r0 = set_items(r);
        let ghost mut hit: Option<usize> = None;
        if !set_contains(realized, pin) {
            if let Some(macro_i) = map_get(&aig.aigpin2macro, pin) {
                let m = aig.macros.value(macro_i);
                if m.kind.needs_mid_partition_eval() {
                    set_add(&mut r, macro_i);
                    proof {
                        hit = Some(macro_i);
                    }
                }
            }
        }
        proof {
            assert forall|m: usize| #[trigger]
                set_items(r).contains(m) <==> exists|k: int|
                    0 <= k < i + 1 && !set_items(*realized).contains(#[trigger] order@[k]) && producer(
                        *aig,
                        order@[k],
                    ) == Some(m) && !(mac(*aig, m).kind is Dsp48e2) by {
                if hit == Some(m) {
                    assert(order@[i as int] == pin);
                }
                if r0.contains(m) {
                    let k = choose|k: int|
                        0 <= k < i && !set_items(*realized).contains(#[trigger] order@[k]) && producer(*aig, order@[k])
                            == Some(m) && !(mac(*aig, m).kind is Dsp48e2);
                    assert(order@[k] == order@[k]);
                }
            }
        }
        i += 1;
    }
    r
}

/// Every output of a macro is a pin that is driven by it, and every pin that
/// is said to be driven by a macro is one of its outputs.
pub open spec fn outputs_ok(aig: AIG) -> bool {
    &&& forall|p: usize, s: int|
        p < aig.macros.vals().len() && 0 <= s < mac(aig, p).outputs@.len() && #[trigger] mac(aig, p).outputs@[s] != 0
            ==> {
            let o = mac(aig, p).outputs@[s];
            &&& o <= aig.num_aigpins
            &&& aig.drivers@[o as int] == DriverType::Macro(aig.macros.keys()[p as int], s as usize)
            &&& producer(aig, o) == Some(p)
        }
    &&& forall|pin: usize|
        #![trigger producer(aig, pin)]
        producer(aig, pin) matches Some(p) ==> p < aig.macros.vals().len() && mac(aig, p).outputs@.contains(pin)
            && pin != 0
}

/// Every input of a macro, and its clock enable, is a pin.
pub open spec fn macro_inputs_ok(aig: AIG) -> bool {
    &&& forall|p: usize, s: int|
        p < aig.macros.vals().len() && 0 <= s < mac(aig, p).inputs@.len() ==> #[trigger] mac(aig, p).inputs@[s] / 2
            <= aig.num_aigpins
    &&& forall|p: usize|
        p < aig.macros.vals().len() ==> #[trigger] mac(aig, p).clk_en_iv / 2 <= aig.num_aigpins
}

/// The number of slots that have to be there when a macro is evaluated: its
/// inputs and, if it commits its state then, the clock enable.
pub open spec fn dep_slots(kind: MacroKind) -> int {
    if kind is Srlc32e {
        kind.spec_num_inputs() + 1
    } else {
        kind.spec_num_inputs() as int
    }
}

/// The pin at an input slot of a macro; the clock enable comes behind them.
pub open spec fn slot_pin(aig: AIG, m: usize, s: int) -> usize {
    if s < mac(aig, m).kind.spec_num_inputs() {
        (mac(aig, m).inputs@[s] / 2) as usize
    } else {
        (mac(aig, m).clk_en_iv / 2) as usize
    }
}

/// Does the pin depend on an output that evaluating the macro produces?
pub open spec fn reaches_output(aig: AIG, done: Set<usize>, pin: usize, p: usize) -> bool {
    exists|q: usize| #[trigger] mac(aig, p).mid_outputs().contains(q) && aig.reaches(done, pin, q)
}

/// Does an input slot of `m` depend on an output of `p`, through any logic?
pub open spec fn slot_waits(aig: AIG, done: Set<usize>, m: usize, s: int, p: usize) -> bool {
    &&& 0 <= s < dep_slots(mac(aig, m).kind)
    &&& slot_pin(aig, m, s) != 0
    &&& reaches_output(aig, done, slot_pin(aig, m, s), p)
}

/// Has the macro an output that is still to be produced?
spec fn is_pending(aig: AIG, cone: Seq<usize>, placed: Seq<usize>, p: usize) -> bool {
    cone.contains(p) && !placed.contains(p)
}

/// Do the inputs of the macro, but for the carry of a link of a chain, depend on
/// placed macros alone?
spec fn is_ready(aig: AIG, done: Set<usize>, cone: Seq<usize>, placed: Seq<usize>, m: usize, link: bool) -> bool {
    forall|s: int, p: usize|
        is_pending(aig, cone, placed, p) && !(link && s == C4_IN_CI) ==> !#[trigger] slot_waits(aig, done, m, s, p)
}

/// The outputs of the macros that are not placed.
fn pending_outputs(aig: &AIG, cone: &IndexSet<usize>, placed: &IndexSet<usize>) -> (r: IndexSet<usize>)
    requires
        aig.macros_wf(),
        forall|i: int| 0 <= i < set_items(*cone).len() ==> #[trigger] set_items(*cone)[i] < aig.macros.vals().len(),
    ensures
        forall|q: usize| #[trigger]
            set_items(r).contains(q) <==> exists|p: usize| #[trigger]
                is_pending(*aig, set_items(*cone), set_items(*placed), p) && mac(*aig, p).mid_outputs().contains(q),
{
    let ghost c = set_items(*cone);
    let ghost pl = set_items(*placed);
    let n = set_len(cone);
    let mut r = set_new();
    let mut i: usize = 0;
    while i < n
        invariant
            aig.macros_wf(),
            c == set_items(*cone),
            pl == set_items(*placed),
            n == c.len(),
            i <= n,
            forall|i: int| 0 <= i < c.len() ==> #[trigger] c[i] < aig.macros.vals().len(),
            forall|q: usize| #[trigger]
                set_items(r).contains(q) <==> exists|k: int|
                    0 <= k < i && !pl.contains(#[trigger] c[k]) && mac(*aig, c[k]).mid_outputs().contains(q),
        decreases n - i,
    {
        let m = set_at(cone, i);
        let ghost r0 = set_items(r);
        let known = set_contains(placed, m);
        if !known {
            assert(mac(*aig, m).wf());
            let pins = aig.macros.value(m).mid_partition_outputs();
            add_all(&mut r, &pins);
        }
        proof {
            assert forall|q: usize| #[trigger]
                set_items(r).contains(q) <==> exists|k: int|
                    0 <= k < i + 1 && !pl.contains(#[trigger] c[k]) && mac(*aig, c[k]).mid_outputs().contains(q) by {
                if r0.contains(q) {
                    let k = choose|k: int|
                        0 <= k < i && !pl.contains(#[trigger] c[k]) && mac(*aig, c[k]).mid_outputs().contains(q);
                    assert(!pl.contains(c[k]));
                }
                if !known && mac(*aig, m).mid_outputs().contains(q) {
                    assert(!pl.contains(c[i as int]));
                }
            }
        }
        i += 1;
    }
    proof {
        assert forall|q: usize| #[trigger]
            set_items(r).contains(q) <==> exists|p: usize| #[trigger]
                is_pending(*aig, c, pl, p) && mac(*aig, p).mid_outputs().contains(q) by {
            if set_items(r).contains(q) {
                let k = choose|k: int|
                    0 <= k < n && !pl.contains(#[trigger] c[k]) && mac(*aig, c[k]).mid_outputs().contains(q);
                assert(is_pending(*aig, c, pl, c[k]));
            }
            if exists|p: usize| #[trigger] is_pending(*aig, c, pl, p) && mac(*aig, p).mid_outputs().contains(q) {
                let p = choose|p: usize| #[trigger]
                    is_pending(*aig, c, pl, p) && mac(*aig, p).mid_outputs().contains(q);
                assert(c[c.index_of(p)] == p);
            }
        }
    }
    r
}

/// The pins at the inputs of some macros.
fn input_pins_of(aig: &AIG, cone: &IndexSet<usize>) -> (r: IndexSet<usize>)
    requires
        aig.macros_wf(),
        macro_inputs_ok(*aig),
        forall|i: int| 0 <= i < set_items(*cone).len() ==> #[trigger] set_items(*cone)[i] < aig.macros.vals().len(),
    ensures
        are_pins(*aig, set_items(r)),
        forall|m: usize, s: int|
            set_items(*cone).contains(m) && 0 <= s < dep_slots(mac(*aig, m).kind) ==> set_items(r).contains(
                #[trigger] slot_pin(*aig, m, s),
            ),
{
    let ghost c = set_items(*cone);
    let n = set_len(cone);
    let mut r = set_new();
    let mut i: usize = 0;
    while i < n
        invariant
            aig.macros_wf(),
            macro_inputs_ok(*aig),
            c == set_items(*cone),
            n == c.len(),
            i <= n,
            forall|i: int| 0 <= i < c.len() ==> #[trigger] c[i] < aig.macros.vals().len(),
            forall|x: usize| #[trigger] set_items(r).contains(x) ==> x <= aig.num_aigpins,
            forall|k: int, s: int|
                0 <= k < i && 0 <= s < dep_slots(mac(*aig, c[k]).kind) ==> set_items(r).contains(
                    #[trigger] slot_pin(*aig, c[k], s),
                ),
        decreases n - i,
    {
        let m = set_at(cone, i);
        assert(mac(*aig, m).wf());
        let mi = aig.macros.value(m);
        let ns = mi.kind.num_inputs();
        let mut s: usize = 0;
        while s < ns
            invariant
                aig.macros_wf(),
                macro_inputs_ok(*aig),
                c == set_items(*cone),
                i < c.len(),
                m == c[i as int],
                m < aig.macros.vals().len(),
                *mi == mac(*aig, m),
                mi.wf(),
                ns == mi.kind.spec_num_inputs(),
                s <= ns,
                forall|x: usize| #[trigger] set_items(r).contains(x) ==> x <= aig.num_aigpins,
                forall|k: int, s: int|
                    0 <= k < i && 0 <= s < dep_slots(mac(*aig, c[k]).kind) ==> set_items(r).contains(
                        #[trigger] slot_pin(*aig, c[k], s),
                    ),
                forall|t: int| 0 <= t < s ==> set_items(r).contains(#[trigger] slot_pin(*aig, m, t)),
            decreases ns - s,
        {
            assert(mac(*aig, m).inputs@[s as int] / 2 <= aig.num_aigpins);
            set_add(&mut r, mi.inputs[s] / 2);
            s += 1;
        }
        assert(mac(*aig, m).clk_en_iv / 2 <= aig.num_aigpins);
        set_add(&mut r, mi.clk_en_iv / 2);
        i += 1;
    }
    proof {
        assert forall|k: int| 0 <= k < set_items(r).len() implies #[trigger] set_items(r)[k] <= aig.num_aigpins by {
            assert(set_items(r).contains(set_items(r)[k]));
        }
        assert forall|m: usize, s: int|
            c.contains(m) && 0 <= s < dep_slots(mac(*aig, m).kind) implies set_items(r).contains(
            #[trigger] slot_pin(*aig, m, s),
        ) by {
            assert(slot_pin(*aig, c[c.index_of(m)], s) == slot_pin(*aig, m, s));
        }
    }
    r
}

/// Is every pin that waits for a macro which is not placed in the set?
spec fn blocks(
    aig: AIG,
    done: Set<usize>,
    cone: Seq<usize>,
    placed: Seq<usize>,
    blocked: Seq<usize>,
) -> bool {
    forall|m: usize, s: int|
        cone.contains(m) && 0 <= s < dep_slots(mac(aig, m).kind) ==> (blocked.contains(
            #[trigger] slot_pin(aig, m, s),
        ) <==> exists|p: usize| #[trigger]
            is_pending(aig, cone, placed, p) && reaches_output(aig, done, slot_pin(aig, m, s), p))
}

/// The input pins that wait for macros which are not placed.
fn find_blocked(
    aig: &AIG,
    cone: &IndexSet<usize>,
    placed: &IndexSet<usize>,
    realized: &IndexSet<usize>,
) -> (r: IndexSet<usize>)
    requires
        aig.walkable(),
        macro_inputs_ok(*aig),
        aig.acyclic(set_items(*realized).to_set()),
        forall|i: int| 0 <= i < set_items(*cone).len() ==> #[trigger] set_items(*cone)[i] < aig.macros.vals().len(),
    ensures
        blocks(*aig, set_items(*realized).to_set(), set_items(*cone), set_items(*placed), set_items(r)),
{
    let pending = pending_outputs(aig, cone, placed);
    let pins = input_pins_of(aig, cone);
    let r = targets_blocked_by_pending(aig, &pins, realized, &pending);
    proof {
        let done = set_items(*realized).to_set();
        let c = set_items(*cone);
        let pl = set_items(*placed);
        let pd = set_items(pending);
        assert forall|m: usize, s: int|
            c.contains(m) && 0 <= s < dep_slots(mac(*aig, m).kind) implies (set_items(r).contains(
            #[trigger] slot_pin(*aig, m, s),
        ) <==> exists|p: usize| #[trigger]
            is_pending(*aig, c, pl, p) && reaches_output(*aig, done, slot_pin(*aig, m, s), p)) by {
            let x = slot_pin(*aig, m, s);
            assert(set_items(pins).contains(x));
            if waits(*aig, done, pd, x) {
                let q = choose|q: usize| #[trigger] pd.contains(q) && aig.reaches(done, x, q);
                let p = choose|p: usize| #[trigger]
                    is_pending(*aig, c, pl, p) && mac(*aig, p).mid_outputs().contains(q);
                assert(reaches_output(*aig, done, x, p));
            }
            if exists|p: usize| #[trigger] is_pending(*aig, c, pl, p) && reaches_output(*aig, done, x, p) {
                let p = choose|p: usize| #[trigger]
                    is_pending(*aig, c, pl, p) && reaches_output(*aig, done, x, p);
                let q = choose|q: usize| #[trigger]
                    mac(*aig, p).mid_outputs().contains(q) && aig.reaches(done, x, q);
                assert(pd.contains(q));
                assert(waits(*aig, done, pd, x));
            }
        }
    }
    r
}

/// Do the inputs of a macro, but for the carry of a link, depend on placed
/// macros alone?
fn check_ready(
    aig: &AIG,
    m: usize,
    link: bool,
    blocked: &IndexSet<usize>,
    Ghost(done): Ghost<Set<usize>>,
    Ghost(cone): Ghost<Seq<usize>>,
    Ghost(placed): Ghost<Seq<usize>>,
) -> (b: bool)
    requires
        aig.macros_wf(),
        m < aig.macros.vals().len(),
        cone.contains(m),
        blocks(*aig, done, cone, placed, set_items(*blocked)),
    ensures
        b == is_ready(*aig, done, cone, placed, m, link),
{
    let mi = aig.macros.value(m);
    assert(mac(*aig, m).wf());
    let n = mi.kind.num_inputs();
    let mut s: usize = 0;
    while s < n
        invariant
            aig.macros_wf(),
            m < aig.macros.vals().len(),
            *mi == mac(*aig, m),
            mi.wf(),
            n == mi.kind.spec_num_inputs(),
            cone.contains(m),
            blocks(*aig, done, cone, placed, set_items(*blocked)),
            s <= n,
            forall|t: int, p: usize|
                0 <= t < s && is_pending(*aig, cone, placed, p) && !(link && t == C4_IN_CI) ==> !#[trigger] slot_waits(
                    *aig,
                    done,
                    m,
                    t,
                    p,
                ),
        decreases n - s,
    {
        let pin: usize = mi.inputs[s] / 2;
        assert(pin == slot_pin(*aig, m, s as int));
        if pin != 0 && !(link && s == C4_IN_CI) && set_contains(blocked, pin) {
            proof {
                let p = choose|p: usize| #[trigger]
                    is_pending(*aig, cone, placed, p) && reaches_output(*aig, done, pin, p);
                assert(slot_waits(*aig, done, m, s as int, p));
            }
            return false;
        }
        proof {
            assert forall|t: int, p: usize|
                0 <= t < s + 1 && is_pending(*aig, cone, placed, p) && !(link && t == C4_IN_CI)
                    implies !#[trigger] slot_waits(
                    *aig,
                    done,
                    m,
                    t,
                    p,
                ) by {
                if t == s && slot_waits(*aig, done, m, t, p) {
                    assert(is_pending(*aig, cone, placed, p) && reaches_output(*aig, done, pin, p));
                }
            }
        }
        s += 1;
    }
    let pin: usize = mi.clk_en_iv / 2;
    if matches!(mi.kind, MacroKind::Srlc32e) && pin != 0 && set_contains(blocked, pin) {
        proof {
            assert(pin == slot_pin(*aig, m, n as int));
            let p = choose|p: usize| #[trigger]
                is_pending(*aig, cone, placed, p) && reaches_output(*aig, done, pin, p);
            assert(slot_waits(*aig, done, m, n as int, p));
        }
        return false;
    }
    proof {
        assert forall|t: int, p: usize|
            is_pending(*aig, cone, placed, p) && !(link && t == C4_IN_CI) implies !#[trigger] slot_waits(
                *aig,
                done,
                m,
                t,
                p,
            ) by {
            if t == n && slot_waits(*aig, done, m, t, p) {
                assert(pin == slot_pin(*aig, m, t));
                assert(is_pending(*aig, cone, placed, p) && reaches_output(*aig, done, pin, p));
            }
        }
    }
    true
}

/// Does the carry of one CARRY4 go into another one?
fn check_carry_feeds(aig: &AIG, p: usize, m: usize) -> (b: bool)
    requires
        aig.macros_wf(),
        p < aig.macros.vals().len(),
        m < aig.macros.vals().len(),
    ensures
        b == carry_feeds(*aig, p, m),
{
    let a = aig.macros.value(p);
    let b = aig.macros.value(m);
    assert(mac(*aig, p).wf());
    assert(mac(*aig, m).wf());
    if !matches!(a.kind, MacroKind::Carry4) || !matches!(b.kind, MacroKind::Carry4) {
        return false;
    }
    let ci: usize = b.inputs[C4_IN_CI] / 2;
    if ci == 0 || a.outputs[C4_OUT_CO + 3] != ci {
        return false;
    }
    match map_get(&aig.aigpin2macro, ci) {
        Some(x) => x == p,
        None => false,
    }
}

/// A macro that can follow the last one of a chain, if there is one.
fn find_link(
    aig: &AIG,
    cone: &IndexSet<usize>,
    seen: &IndexSet<usize>,
    blocked: &IndexSet<usize>,
    cur: usize,
    Ghost(done): Ghost<Set<usize>>,
    Ghost(placed): Ghost<Seq<usize>>,
) -> (r: Option<usize>)
    requires
        aig.macros_wf(),
        cur < aig.macros.vals().len(),
        forall|i: int| 0 <= i < set_items(*cone).len() ==> #[trigger] set_items(*cone)[i] < aig.macros.vals().len(),
        blocks(*aig, done, set_items(*cone), placed, set_items(*blocked)),
    ensures
        r matches Some(n) ==> set_items(*cone).contains(n) && !set_items(*seen).contains(n) && carry_feeds(
            *aig,
            cur,
            n,
        ) && is_ready(*aig, done, set_items(*cone), placed, n, true),
        r is None ==> forall|n: usize| #[trigger]
            set_items(*cone).contains(n) && !set_items(*seen).contains(n) && carry_feeds(*aig, cur, n) ==> !is_ready(
                *aig,
                done,
                set_items(*cone),
                placed,
                n,
                true,
            ),
{
    let ghost c = set_items(*cone);
    let len = set_len(cone);
    let mut i: usize = 0;
    while i < len
        invariant
            aig.macros_wf(),
            cur < aig.macros.vals().len(),
            c == set_items(*cone),
            len == c.len(),
            i <= len,
            forall|i: int| 0 <= i < c.len() ==> #[trigger] c[i] < aig.macros.vals().len(),
            blocks(*aig, done, c, placed, set_items(*blocked)),
            forall|k: int|
                0 <= k < i && !set_items(*seen).contains(#[trigger] c[k]) && carry_feeds(*aig, cur, c[k]) ==> !is_ready(
                    *aig,
                    done,
                    c,
                    placed,
                    c[k],
                    true,
                ),
        decreases len - i,
    {
        let n = set_at(cone, i);
        assert(c.contains(n));
        if !set_contains(seen, n) && check_carry_feeds(aig, cur, n) && check_ready(
            aig,
            n,
            true,
            blocked,
            Ghost(done),
            Ghost(c),
            Ghost(placed),
        ) {
            return Some(n);
        }
        i += 1;
    }
    proof {
        assert forall|n: usize| #[trigger]
            c.contains(n) && !set_items(*seen).contains(n) && carry_feeds(*aig, cur, n) implies !is_ready(
            *aig,
            done,
            c,
            placed,
            n,
            true,
        ) by {
            assert(c[c.index_of(n)] == n);
        }
    }
    None
}

/// Does the carry of every macro go into the one behind it?
spec fn is_chain(aig: AIG, c: Seq<usize>) -> bool {
    &&& 1 <= c.len() <= 32
    &&& forall|k: int| 0 <= k < c.len() - 1 ==> #[trigger] succeeds(aig, c, k)
}

spec fn succeeds(aig: AIG, c: Seq<usize>, k: int) -> bool {
    carry_feeds(aig, c[k], c[k + 1])
}

/// Can the chain be extended by none of the macros that are not yet seen?
spec fn is_maximal(
    aig: AIG,
    done: Set<usize>,
    cone: Seq<usize>,
    placed: Seq<usize>,
    seen: Seq<usize>,
    c: Seq<usize>,
) -> bool {
    c.len() == 32 || forall|n: usize| #[trigger]
        cone.contains(n) && !seen.contains(n) && carry_feeds(aig, c.last(), n) ==> c.contains(n) || !is_ready(
            aig,
            done,
            cone,
            placed,
            n,
            true,
        )
}

/// Are the macros of a chain ready?
spec fn chain_ready(
    aig: AIG,
    done: Set<usize>,
    cone: Seq<usize>,
    placed: Seq<usize>,
    c: Seq<usize>,
) -> bool {
    forall|k: int| 0 <= k < c.len() ==> is_ready(aig, done, cone, placed, #[trigger] c[k], k > 0)
}

/// Follows the carry from a macro as long as what it leads to is ready, up to
/// the width of a warp.
fn grow_chain(
    aig: &AIG,
    cone: &IndexSet<usize>,
    seen: &mut IndexSet<usize>,
    blocked: &IndexSet<usize>,
    head: usize,
    Ghost(done): Ghost<Set<usize>>,
    Ghost(placed): Ghost<Seq<usize>>,
) -> (c: Vec<usize>)
    requires
        aig.macros_wf(),
        forall|i: int| 0 <= i < set_items(*cone).len() ==> #[trigger] set_items(*cone)[i] < aig.macros.vals().len(),
        blocks(*aig, done, set_items(*cone), placed, set_items(*blocked)),
        set_items(*cone).contains(head),
        !set_items(*old(seen)).contains(head),
        is_ready(*aig, done, set_items(*cone), placed, head, false),
    ensures
        is_chain(*aig, c@),
        c@[0] == head,
        c@.no_duplicates(),
        forall|k: int|
            0 <= k < c@.len() ==> set_items(*cone).contains(#[trigger] c@[k]) && !set_items(*old(seen)).contains(c@[k]),
        chain_ready(*aig, done, set_items(*cone), placed, c@),
        is_maximal(*aig, done, set_items(*cone), placed, set_items(*old(seen)), c@),
        forall|m: usize| #[trigger]
            set_items(*final(seen)).contains(m) <==> set_items(*old(seen)).contains(m) || c@.contains(m),
        set_items(*old(seen)).is_prefix_of(set_items(*final(seen))),
{
    let ghost cn = set_items(*cone);
    let ghost s0 = set_items(*seen);
    let mut c: Vec<usize> = Vec::new();
    c.push(head);
    set_add(seen, head);
    assert(c@ =~= seq![head]);
    let mut more = true;
    while more && c.len() < MACRO_MAX_LANES
        invariant
            aig.macros_wf(),
            cn == set_items(*cone),
            s0 == set_items(*old(seen)),
            forall|i: int| 0 <= i < cn.len() ==> #[trigger] cn[i] < aig.macros.vals().len(),
            blocks(*aig, done, cn, placed, set_items(*blocked)),
            is_chain(*aig, c@),
            c@[0] == head,
            c@.no_duplicates(),
            forall|k: int| 0 <= k < c@.len() ==> cn.contains(#[trigger] c@[k]) && !s0.contains(c@[k]),
            chain_ready(*aig, done, cn, placed, c@),
            !more ==> is_maximal(*aig, done, cn, placed, s0, c@),
            forall|m: usize| #[trigger] set_items(*seen).contains(m) <==> s0.contains(m) || c@.contains(m),
            s0.is_prefix_of(set_items(*seen)),
        decreases (if more { 1int } else { 0int }), 32 - c@.len(),
    {
        let cur = c[c.len() - 1];
        assert(cn.contains(c@[c@.len() - 1]));
        assert(cn[cn.index_of(cur)] < aig.macros.vals().len());
        match find_link(aig, cone, seen, blocked, cur, Ghost(done), Ghost(placed)) {
            None => {
                more = false;
            },
            Some(n) => {
                let ghost c0 = c@;
                assert(!c0.contains(n));
                c.push(n);
                set_add(seen, n);
                proof {
                    lemma_push_contains(c0, n);
                    assert forall|k: int| 0 <= k < c@.len() - 1 implies #[trigger] succeeds(*aig, c@, k) by {
                        if k < c0.len() - 1 {
                            assert(succeeds(*aig, c0, k));
                        }
                    }
                    assert forall|k: int| 0 <= k < c@.len() implies is_ready(
                        *aig,
                        done,
                        cn,
                        placed,
                        #[trigger] c@[k],
                        k > 0,
                    ) by {
                        if k < c0.len() {
                            assert(c@[k] == c0[k]);
                        }
                    }
                }
            },
        }
    }
    c
}

/// Is the macro in one of the chains?
spec fn in_chains(chains: Seq<Vec<usize>>, m: usize) -> bool {
    exists|i: int| 0 <= i < chains.len() && (#[trigger] chains[i])@.contains(m)
}

/// Are two places in the chains the same if they hold the same macro?
spec fn same_place(chains: Seq<Vec<usize>>, i: int, k: int, j: int, l: int) -> bool {
    0 <= i < chains.len() && 0 <= k < chains[i]@.len() && 0 <= j < chains.len() && 0 <= l < chains[j]@.len()
        && chains[i]@[k] == chains[j]@[l] ==> i == j && k == l
}

/// Chains without common macros, and the macros in them.
spec fn chains_ok(aig: AIG, chains: Seq<Vec<usize>>, placed: Seq<usize>) -> bool {
    &&& forall|i: int| 0 <= i < chains.len() ==> is_chain(aig, (#[trigger] chains[i])@)
    &&& forall|m: usize| #[trigger] placed.contains(m) <==> in_chains(chains, m)
    &&& forall|i: int, k: int, j: int, l: int| #[trigger] same_place(chains, i, k, j, l)
}

proof fn lemma_chain_added(
    aig: AIG,
    chains: Seq<Vec<usize>>,
    p0: Seq<usize>,
    c: Vec<usize>,
    p1: Seq<usize>,
)
    requires
        chains_ok(aig, chains, p0),
        is_chain(aig, c@),
        c@.no_duplicates(),
        forall|k: int| 0 <= k < c@.len() ==> !p0.contains(#[trigger] c@[k]),
        forall|m: usize| #[trigger] p1.contains(m) <==> p0.contains(m) || c@.contains(m),
    ensures
        chains_ok(aig, chains.push(c), p1),
{
    let all = chains.push(c);
    assert forall|i: int| 0 <= i < all.len() implies is_chain(aig, (#[trigger] all[i])@) by {
        if i < chains.len() {
            assert(all[i] == chains[i]);
        }
    }
    assert forall|m: usize| #[trigger] p1.contains(m) <==> in_chains(all, m) by {
        if p0.contains(m) {
            let i = choose|i: int| 0 <= i < chains.len() && (#[trigger] chains[i])@.contains(m);
            assert(all[i]@.contains(m));
        }
        if c@.contains(m) {
            assert(all[chains.len() as int]@.contains(m));
        }
        if in_chains(all, m) && !c@.contains(m) {
            let i = choose|i: int| 0 <= i < all.len() && (#[trigger] all[i])@.contains(m);
            assert(chains[i]@.contains(m));
            assert(in_chains(chains, m));
        }
    }
    assert forall|i: int, k: int, j: int, l: int| #[trigger] same_place(all, i, k, j, l) by {
        if 0 <= i < all.len() && 0 <= k < all[i]@.len() && 0 <= j < all.len() && 0 <= l < all[j]@.len()
            && all[i]@[k] == all[j]@[l] {
            let x = all[i]@[k];
            let n = chains.len();
            if i < n && j < n {
                assert(same_place(chains, i, k, j, l));
            } else if i < n {
                assert(chains[i]@.contains(x));
                assert(in_chains(chains, x));
                assert(!p0.contains(c@[l]));
            } else if j < n {
                assert(chains[j]@.contains(x));
                assert(in_chains(chains, x));
                assert(!p0.contains(c@[k]));
            }
        }
    }
}

/// Adds the elements of a vector to a set.
pub(crate) fn add_all(s: &mut IndexSet<usize>, v: &Vec<usize>)
    ensures
        set_items(*old(s)).is_prefix_of(set_items(*final(s))),
        forall|x: usize| #[trigger]
            set_items(*final(s)).contains(x) <==> set_items(*old(s)).contains(x) || v@.contains(x),
{
    let ghost s0 = set_items(*s);
    let mut i: usize = 0;
    while i < v.len()
        invariant
            i <= v@.len(),
            s0.is_prefix_of(set_items(*s)),
            forall|x: usize| #[trigger]
                set_items(*s).contains(x) <==> s0.contains(x) || v@.take(i as int).contains(x),
        decreases v@.len() - i,
    {
        proof {
            assert(v@.take(i + 1) =~= v@.take(i as int).push(v@[i as int]));
            lemma_push_contains(v@.take(i as int), v@[i as int]);
        }
        set_add(s, v[i]);
        i += 1;
    }
    assert(v@.take(v@.len() as int) =~= v@);
}

/// Is the macro in a chain of a level below the given one?
spec fn below_level(chains: Seq<Vec<usize>>, levels: Seq<usize>, l: int, m: usize) -> bool {
    exists|i: int| 0 <= i < chains.len() && levels[i] < l && (#[trigger] chains[i])@.contains(m)
}

/// Does the input of a macro in the cone depend on one that is in no level below
/// the given one?
#[verifier::opaque]
spec fn waits_beyond(
    aig: AIG,
    done: Set<usize>,
    cone: Seq<usize>,
    chains: Seq<Vec<usize>>,
    levels: Seq<usize>,
    l: int,
    m: usize,
    link: bool,
) -> bool {
    exists|s: int, p: usize|
        cone.contains(p) && !below_level(chains, levels, l, p) && !(link && s == C4_IN_CI) && #[trigger] slot_waits(
            aig,
            done,
            m,
            s,
            p,
        )
}

/// What a macro that waits waits for.
proof fn lemma_wait_of(
    aig: AIG,
    done: Set<usize>,
    cone: Seq<usize>,
    chains: Seq<Vec<usize>>,
    levels: Seq<usize>,
    l: int,
    m: usize,
    link: bool,
) -> (r: (int, usize))
    requires
        waits_beyond(aig, done, cone, chains, levels, l, m, link),
    ensures
        cone.contains(r.1),
        !below_level(chains, levels, l, r.1),
        !(link && r.0 == C4_IN_CI),
        slot_waits(aig, done, m, r.0, r.1),
{
    reveal(waits_beyond);
    choose|s: int, p: usize|
        cone.contains(p) && !below_level(chains, levels, l, p) && !(link && s == C4_IN_CI) && #[trigger] slot_waits(
            aig,
            done,
            m,
            s,
            p,
        )
}

/// A macro that does not wait depends on the levels below alone.
proof fn lemma_no_wait(
    aig: AIG,
    done: Set<usize>,
    cone: Seq<usize>,
    chains: Seq<Vec<usize>>,
    levels: Seq<usize>,
    l: int,
    m: usize,
    link: bool,
    s: int,
    p: usize,
)
    requires
        !waits_beyond(aig, done, cone, chains, levels, l, m, link),
        cone.contains(p),
        !(link && s == C4_IN_CI),
        slot_waits(aig, done, m, s, p),
    ensures
        below_level(chains, levels, l, p),
{
    reveal(waits_beyond);
}

/// Can chain `i` not be extended by a macro of the cone?
spec fn goes_on(
    aig: AIG,
    done: Set<usize>,
    cone: Seq<usize>,
    chains: Seq<Vec<usize>>,
    levels: Seq<usize>,
    i: int,
) -> bool {
    chains[i]@.len() == 32 || forall|n: usize| #[trigger]
        cone.contains(n) && carry_feeds(aig, chains[i]@.last(), n) ==> (exists|j: int|
            0 <= j <= i && (#[trigger] chains[j])@.contains(n)) || waits_beyond(
            aig,
            done,
            cone,
            chains,
            levels,
            levels[i] as int,
            n,
            true,
        )
}

/// Is chain `i` rightly in its level: are its macros ready, was its head not
/// ready one level before, and does it go on as far as it can?
spec fn level_ok(
    aig: AIG,
    done: Set<usize>,
    cone: Seq<usize>,
    chains: Seq<Vec<usize>>,
    levels: Seq<usize>,
    i: int,
) -> bool {
    &&& forall|k: int|
        0 <= k < chains[i]@.len() ==> !waits_beyond(
            aig,
            done,
            cone,
            chains,
            levels,
            levels[i] as int,
            #[trigger] chains[i]@[k],
            k > 0,
        )
    &&& levels[i] > 0 ==> waits_beyond(aig, done, cone, chains, levels, levels[i] - 1, chains[i]@[0], false)
    &&& goes_on(aig, done, cone, chains, levels, i)
}

/// Are the chains rightly in their levels?
spec fn levels_ok(
    aig: AIG,
    done: Set<usize>,
    cone: Seq<usize>,
    chains: Seq<Vec<usize>>,
    levels: Seq<usize>,
    l: int,
) -> bool {
    &&& levels.len() == chains.len()
    &&& forall|i: int| 0 <= i < levels.len() ==> #[trigger] levels[i] <= l
    &&& forall|i: int, j: int| 0 <= i < j < levels.len() ==> #[trigger] levels[i] <= #[trigger] levels[j]
    &&& forall|i: int| 0 <= i < chains.len() ==> #[trigger] level_ok(aig, done, cone, chains, levels, i)
}

/// A further chain that is in no lower level changes nothing about the others.
proof fn lemma_below_kept(
    chains: Seq<Vec<usize>>,
    levels: Seq<usize>,
    c: Vec<usize>,
    v: usize,
    l: int,
    m: usize,
)
    requires
        levels.len() == chains.len(),
        l <= v,
    ensures
        below_level(chains.push(c), levels.push(v), l, m) <==> below_level(chains, levels, l, m),
{
    let all = chains.push(c);
    let more = levels.push(v);
    if below_level(chains, levels, l, m) {
        let i = choose|i: int| 0 <= i < chains.len() && levels[i] < l && (#[trigger] chains[i])@.contains(m);
        assert(all[i]@.contains(m) && more[i] < l);
    }
    if below_level(all, more, l, m) {
        let i = choose|i: int| 0 <= i < all.len() && more[i] < l && (#[trigger] all[i])@.contains(m);
        assert(i < chains.len());
        assert(chains[i]@.contains(m) && levels[i] < l);
    }
}

proof fn lemma_waits_kept(
    aig: AIG,
    done: Set<usize>,
    cone: Seq<usize>,
    chains: Seq<Vec<usize>>,
    levels: Seq<usize>,
    c: Vec<usize>,
    v: usize,
    l: int,
    m: usize,
    link: bool,
)
    requires
        levels.len() == chains.len(),
        l <= v,
    ensures
        waits_beyond(aig, done, cone, chains.push(c), levels.push(v), l, m, link) <==> waits_beyond(
            aig,
            done,
            cone,
            chains,
            levels,
            l,
            m,
            link,
        ),
{
    reveal(waits_beyond);
    assert forall|p: usize| below_level(chains.push(c), levels.push(v), l, p) <==> #[trigger] below_level(
        chains,
        levels,
        l,
        p,
    ) by {
        lemma_below_kept(chains, levels, c, v, l, p);
    }
}

proof fn lemma_level_added(
    aig: AIG,
    done: Set<usize>,
    cone: Seq<usize>,
    chains: Seq<Vec<usize>>,
    levels: Seq<usize>,
    c: Vec<usize>,
    v: usize,
    placed: Seq<usize>,
    seen: Seq<usize>,
)
    requires
        levels_ok(aig, done, cone, chains, levels, v as int),
        is_chain(aig, c@),
        forall|p: usize| #[trigger] placed.contains(p) <==> below_level(chains, levels, v as int, p),
        chain_ready(aig, done, cone, placed, c@),
        is_maximal(aig, done, cone, placed, seen, c@),
        forall|m: usize| #[trigger] seen.contains(m) <==> in_chains(chains, m),
        v > 0 ==> waits_beyond(aig, done, cone, chains, levels, v - 1, c@[0], false),
    ensures
        levels_ok(aig, done, cone, chains.push(c), levels.push(v), v as int),
{
    let all = chains.push(c);
    let more = levels.push(v);
    let n = chains.len() as int;
    assert forall|i: int, j: int| 0 <= i < j < more.len() implies #[trigger] more[i] <= #[trigger] more[j] by {
        assert(more[i] == levels[i]);
        if j < n {
            assert(levels[i] <= levels[j]);
        }
    }
    assert forall|i: int| 0 <= i < all.len() implies #[trigger] level_ok(aig, done, cone, all, more, i) by {
        if i < n {
            assert(all[i] == chains[i]);
            assert(more[i] == levels[i]);
            assert(level_ok(aig, done, cone, chains, levels, i));
            assert forall|k: int| 0 <= k < all[i]@.len() implies !waits_beyond(
                aig,
                done,
                cone,
                all,
                more,
                more[i] as int,
                #[trigger] all[i]@[k],
                k > 0,
            ) by {
                lemma_waits_kept(aig, done, cone, chains, levels, c, v, more[i] as int, chains[i]@[k], k > 0);
                assert(!waits_beyond(aig, done, cone, chains, levels, levels[i] as int, chains[i]@[k], k > 0));
            }
            if more[i] > 0 {
                lemma_waits_kept(aig, done, cone, chains, levels, c, v, more[i] - 1, chains[i]@[0], false);
            }
            assert(goes_on(aig, done, cone, all, more, i)) by {
                if all[i]@.len() != 32 {
                    assert forall|x: usize| #[trigger] cone.contains(x) && carry_feeds(aig, all[i]@.last(), x) implies (
                    exists|j: int| 0 <= j <= i && (#[trigger] all[j])@.contains(x)) || waits_beyond(
                        aig,
                        done,
                        cone,
                        all,
                        more,
                        more[i] as int,
                        x,
                        true,
                    ) by {
                        lemma_waits_kept(aig, done, cone, chains, levels, c, v, more[i] as int, x, true);
                        if exists|j: int| 0 <= j <= i && (#[trigger] chains[j])@.contains(x) {
                            let j = choose|j: int| 0 <= j <= i && (#[trigger] chains[j])@.contains(x);
                            assert(all[j]@.contains(x));
                        }
                    }
                }
            }
        } else {
            assert forall|x: usize, link: bool| is_ready(aig, done, cone, placed, x,
                link) <==> !#[trigger] waits_beyond(
                aig,
                done,
                cone,
                all,
                more,
                v as int,
                x,
                link,
            ) by {
                lemma_waits_kept(aig, done, cone, chains, levels, c, v, v as int, x, link);
                lemma_ready_here(aig, done, cone, chains, levels, v as int, placed, x, link);
            }
            if v > 0 {
                lemma_waits_kept(aig, done, cone, chains, levels, c, v, v - 1, c@[0], false);
            }
            assert(goes_on(aig, done, cone, all, more, i)) by {
                if c@.len() != 32 {
                    assert forall|x: usize| #[trigger] cone.contains(x) && carry_feeds(aig, all[i]@.last(), x) implies (
                    exists|j: int| 0 <= j <= i && (#[trigger] all[j])@.contains(x)) || waits_beyond(
                        aig,
                        done,
                        cone,
                        all,
                        more,
                        more[i] as int,
                        x,
                        true,
                    ) by {
                        if seen.contains(x) {
                            let j = choose|j: int| 0 <= j < chains.len() && (#[trigger] chains[j])@.contains(x);
                            assert(all[j]@.contains(x));
                        } else if c@.contains(x) {
                            assert(all[i]@.contains(x));
                        } else {
                            assert(!is_ready(aig, done, cone, placed, x, true));
                        }
                    }
                }
            }
        }
    }
}

proof fn lemma_ready_here(
    aig: AIG,
    done: Set<usize>,
    cone: Seq<usize>,
    chains: Seq<Vec<usize>>,
    levels: Seq<usize>,
    l: int,
    placed: Seq<usize>,
    m: usize,
    link: bool,
)
    requires
        forall|p: usize| #[trigger] placed.contains(p) <==> below_level(chains, levels, l, p),
    ensures
        is_ready(aig, done, cone, placed, m, link) <==> !waits_beyond(aig, done, cone, chains, levels, l, m, link),
{
    if waits_beyond(aig, done, cone, chains, levels, l, m, link) {
        let (s, p) = lemma_wait_of(aig, done, cone, chains, levels, l, m, link);
        assert(!placed.contains(p));
        assert(is_pending(aig, cone, placed, p));
    }
    if !is_ready(aig, done, cone, placed, m, link) {
        let (s, p) = choose|s: int, p: usize|
            is_pending(aig, cone, placed, p) && !(link && s == C4_IN_CI) && #[trigger] slot_waits(aig, done, m, s, p);
        assert(!below_level(chains, levels, l, p));
        if !waits_beyond(aig, done, cone, chains, levels, l, m, link) {
            lemma_no_wait(aig, done, cone, chains, levels, l, m, link, s, p);
        }
    }
}

/// Adds the chains of one level: those of macros whose inputs depend on the
/// levels before it alone.
fn fill_level(
    aig: &AIG,
    cone: &IndexSet<usize>,
    realized: &IndexSet<usize>,
    seen: &mut IndexSet<usize>,
    chains: &mut Vec<Vec<usize>>,
    levels: &mut Vec<usize>,
    level: usize,
)
    requires
        aig.walkable(),
        macro_inputs_ok(*aig),
        aig.acyclic(set_items(*realized).to_set()),
        forall|i: int| 0 <= i < set_items(*cone).len() ==> #[trigger] set_items(*cone)[i] < aig.macros.vals().len(),
        chains_ok(*aig, old(chains)@, set_items(*old(seen))),
        levels_ok(
            *aig,
            set_items(*realized).to_set(),
            set_items(*cone),
            old(chains)@,
            old(levels)@,
            level as int,
        ),
        forall|i: int| 0 <= i < old(levels)@.len() ==> #[trigger] old(levels)@[i] < level,
        forall|m: usize| #[trigger] set_items(*old(seen)).contains(m) ==> set_items(*cone).contains(m),
        level > 0 ==> forall|m: usize| #[trigger]
            set_items(*cone).contains(m) && !set_items(*old(seen)).contains(m) ==> waits_beyond(
                *aig,
                set_items(*realized).to_set(),
                set_items(*cone),
                old(chains)@,
                old(levels)@,
                level - 1,
                m,
                false,
            ),
    ensures
        chains_ok(*aig, final(chains)@, set_items(*final(seen))),
        levels_ok(
            *aig,
            set_items(*realized).to_set(),
            set_items(*cone),
            final(chains)@,
            final(levels)@,
            level as int,
        ),
        forall|m: usize| #[trigger] set_items(*final(seen)).contains(m) ==> set_items(*cone).contains(m),
        set_items(*old(seen)).is_prefix_of(set_items(*final(seen))),
        forall|m: usize| #[trigger]
            set_items(*cone).contains(m) && !set_items(*final(seen)).contains(m) ==> waits_beyond(
                *aig,
                set_items(*realized).to_set(),
                set_items(*cone),
                final(chains)@,
                final(levels)@,
                level as int,
                m,
                false,
            ),
        forall|p: usize| #[trigger]
            set_items(*old(seen)).contains(p) <==> below_level(final(chains)@, final(levels)@, level as int, p),
{
    let ghost done = set_items(*realized).to_set();
    let ghost c = set_items(*cone);
    let ghost s0 = set_items(*seen);
    let blocked = find_blocked(aig, cone, seen, realized);
    proof {
        assert forall|p: usize| #[trigger] s0.contains(p) <==> below_level(chains@, levels@, level as int, p) by {
            if s0.contains(p) {
                assert(in_chains(chains@, p));
                let i = choose|i: int| 0 <= i < chains@.len() && (#[trigger] chains@[i])@.contains(p);
                assert(levels@[i] < level);
            }
            if below_level(chains@, levels@, level as int, p) {
                assert(in_chains(chains@, p));
            }
        }
    }
    let n = set_len(cone);
    let mut i: usize = 0;
    while i < n
        invariant
            aig.walkable(),
            c == set_items(*cone),
            done == set_items(*realized).to_set(),
            s0 == set_items(*old(seen)),
            n == c.len(),
            i <= n,
            forall|i: int| 0 <= i < c.len() ==> #[trigger] c[i] < aig.macros.vals().len(),
            blocks(*aig, done, c, s0, set_items(blocked)),
            chains_ok(*aig, chains@, set_items(*seen)),
            levels_ok(*aig, done, c, chains@, levels@, level as int),
            forall|m: usize| #[trigger] set_items(*seen).contains(m) ==> c.contains(m),
            s0.is_prefix_of(set_items(*seen)),
            forall|p: usize| #[trigger] s0.contains(p) <==> below_level(chains@, levels@, level as int, p),
            level > 0 ==> forall|m: usize| #[trigger]
                c.contains(m) && !s0.contains(m) ==> waits_beyond(
                    *aig,
                    done,
                    c,
                    chains@,
                    levels@,
                    level - 1,
                    m,
                    false,
                ),
            forall|k: int|
                0 <= k < i ==> set_items(*seen).contains(#[trigger] c[k]) || !is_ready(*aig, done, c, s0, c[k], false),
        decreases n - i,
    {
        let m = set_at(cone, i);
        assert(c.contains(m));
        let ghost sn = set_items(*seen);
        let ghost ch0 = chains@;
        let ghost lv0 = levels@;
        let known = set_contains(seen, m);
        if !known && check_ready(aig, m, false, &blocked, Ghost(done), Ghost(c), Ghost(s0)) {
            let chain = grow_chain(aig, cone, seen, &blocked, m, Ghost(done), Ghost(s0));
            proof {
                let s1 = set_items(*seen);
                assert(!s0.contains(m)) by {
                    if s0.contains(m) {
                        assert(sn[s0.index_of(m)] == m);
                    }
                }
                lemma_chain_added(*aig, ch0, sn, chain, s1);
                lemma_level_added(*aig, done, c, ch0, lv0, chain, level, s0, sn);
                assert forall|p: usize| #[trigger] s0.contains(p) <==> below_level(
                    ch0.push(chain),
                    lv0.push(level),
                    level as int,
                    p,
                ) by {
                    lemma_below_kept(ch0, lv0, chain, level, level as int, p);
                }
                if level > 0 {
                    assert forall|x: usize| #[trigger] c.contains(x) && !s0.contains(x) implies waits_beyond(
                        *aig,
                        done,
                        c,
                        ch0.push(chain),
                        lv0.push(level),
                        level - 1,
                        x,
                        false,
                    ) by {
                        lemma_waits_kept(*aig, done, c, ch0, lv0, chain, level, level - 1, x, false);
                    }
                }
                assert forall|k: int| 0 <= k < i + 1 implies s1.contains(#[trigger] c[k]) || !is_ready(
                    *aig,
                    done,
                    c,
                    s0,
                    c[k],
                    false,
                ) by {
                    if k == i {
                        assert(chain@.contains(chain@[0]));
                    } else {
                        assert(sn.contains(c[k]) || !is_ready(*aig, done, c, s0, c[k], false));
                    }
                }
                assert forall|x: usize| #[trigger] s1.contains(x) implies c.contains(x) by {
                    if chain@.contains(x) {
                        assert(c.contains(chain@[chain@.index_of(x)]));
                    }
                }
            }
            chains.push(chain);
            levels.push(level);
        }
        i += 1;
    }
    proof {
        assert forall|m: usize| #[trigger] c.contains(m) && !set_items(*seen).contains(m) implies waits_beyond(
            *aig,
            done,
            c,
            chains@,
            levels@,
            level as int,
            m,
            false,
        ) by {
            assert(c[c.index_of(m)] == m);
            lemma_ready_here(*aig, done, c, chains@, levels@, level as int, s0, m, false);
        }
    }
}

/// Is lane `x` of phase `w` there?
pub open spec fn is_lane(waves: Seq<Vec<usize>>, w: int, x: int) -> bool {
    0 <= w < waves.len() && 0 <= x < waves[w]@.len()
}

/// Does the phase hold the chain in consecutive lanes?
pub open spec fn sits(waves: Seq<Vec<usize>>, w: int, o: int, c: Seq<usize>) -> bool {
    &&& 0 <= w < waves.len()
    &&& 0 <= o
    &&& o + c.len() <= waves[w]@.len()
    &&& waves[w]@.subrange(o, o + c.len()) == c
}

/// Does some phase hold the chain in consecutive lanes?
pub open spec fn seated(waves: Seq<Vec<usize>>, c: Seq<usize>) -> bool {
    exists|w: int, o: int| #[trigger] sits(waves, w, o, c)
}

/// Are two lanes the same if they hold the same macro?
pub open spec fn same_lane(waves: Seq<Vec<usize>>, w: int, x: int, v: int, y: int) -> bool {
    is_lane(waves, w, x) && is_lane(waves, v, y) && waves[w]@[x] == waves[v]@[y] ==> w == v && x == y
}

/// Does the lane stand before another one, in its phase or in an earlier one?
pub open spec fn lane_before(v: int, y: int, w: int, l: int) -> bool {
    v < w || (v == w && y < l)
}

/// If two chains of one level stand one before the other, does the head of the
/// first come first?
spec fn heads_sorted(
    chains: Seq<Vec<usize>>,
    levels: Seq<usize>,
    waves: Seq<Vec<usize>>,
    i: int,
    w: int,
    o: int,
    j: int,
    v: int,
    q: int,
) -> bool {
    0 <= i < chains.len() && 0 <= j < chains.len() && sits(waves, w, o, chains[i]@) && sits(waves, v, q, chains[j]@)
        && levels[i] == levels[j] && lane_before(w, o, v, q) ==> chains[i]@[0] < chains[j]@[0]
}

/// Is the macro one of the chains' that come first?
spec fn in_first(chains: Seq<Vec<usize>>, keys: Seq<(usize, usize, usize)>, t: int, m: usize) -> bool {
    exists|k: int| 0 <= k < t && (#[trigger] chains[keys[k].2 as int])@.contains(m)
}

/// Do two phases that follow each other in one level not fit into one?
pub open spec fn crowded(waves: Seq<Vec<usize>>, level: Seq<usize>, w: int) -> bool {
    0 <= w < waves.len() - 1 && level[w] == level[w + 1] ==> waves[w]@.len() + waves[w + 1]@.len() > MACRO_MAX_LANES
}

/// The first `t` chains are packed into phases, at the lanes `loc`; the phases
/// hold chains of the depths `wd`.
spec fn packed_first(
    chains: Seq<Vec<usize>>,
    keys: Seq<(usize, usize, usize)>,
    t: int,
    waves: Seq<Vec<usize>>,
    wd: Seq<usize>,
    loc: Seq<(int, int)>,
) -> bool {
    &&& loc.len() == t
    &&& wd.len() == waves.len()
    &&& forall|k: int|
        0 <= k < t ==> sits(waves, (#[trigger] loc[k]).0, loc[k].1, chains[keys[k].2 as int]@) && wd[loc[k].0]
            == keys[k].0
    &&& forall|w: int, v: int| 0 <= w < v < wd.len() ==> #[trigger] wd[w] <= #[trigger] wd[v]
    &&& t > 0 ==> waves.len() > 0 && wd.last() == keys[t - 1].0
    &&& forall|w: int| 0 <= w < waves.len() ==> 1 <= (#[trigger] waves[w])@.len() <= 32
    &&& forall|w: int, x: int| #[trigger] is_lane(waves, w, x) ==> in_first(chains, keys, t, waves[w]@[x])
    &&& forall|w: int, x: int, v: int, y: int| #[trigger] same_lane(waves, w, x, v, y)
    &&& forall|w: int| #[trigger] crowded(waves, wd, w)
    &&& forall|k: int, l: int|
        0 <= k < l < t ==> lane_before((#[trigger] loc[k]).0, loc[k].1, (#[trigger] loc[l]).0, loc[l].1)
}

/// Adding a chain to the lanes that are taken.
proof fn lemma_pack_step(
    aig: AIG,
    chains: Seq<Vec<usize>>,
    placed: Seq<usize>,
    keys: Seq<(usize, usize, usize)>,
    t: int,
    w0: Seq<Vec<usize>>,
    wd0: Seq<usize>,
    loc0: Seq<(int, int)>,
    w1: Seq<Vec<usize>>,
    wd1: Seq<usize>,
    at: int,
)
    requires
        chains_ok(aig, chains, placed),
        0 <= t < keys.len(),
        forall|k: int| 0 <= k < keys.len() ==> (#[trigger] keys[k]).2 < chains.len(),
        forall|k: int, l: int| 0 <= k < l < keys.len() ==> (#[trigger] keys[k]).2 != (#[trigger] keys[l]).2,
        forall|k: int, l: int| 0 <= k < l < keys.len() ==> (#[trigger] keys[k]).0 <= (#[trigger] keys[l]).0,
        packed_first(chains, keys, t, w0, wd0, loc0),
        ({
            let c = chains[keys[t].2 as int]@;
            ||| w1.len() == w0.len() + 1 && (forall|w: int| 0 <= w < w0.len() ==> #[trigger] w1[w] == w0[w])
                && w1.last()@ == c && wd1 == wd0.push(keys[t].0) && at == 0 && (w0.len() > 0 && wd0.last() == keys[t].0
                ==> w0.last()@.len() + c.len() > 32)
            ||| w0.len() > 0 && w1.len() == w0.len() && (forall|w: int|
                0 <= w < w0.len() - 1 ==> #[trigger] w1[w] == w0[w]) && w1.last()@ == w0.last()@ + c && wd1 == wd0
                && wd0.last() == keys[t].0 && at == w0.last()@.len() && w0.last()@.len() + c.len() <= 32
        }),
    ensures
        packed_first(chains, keys, t + 1, w1, wd1, loc0.push((w1.len() - 1, at))),
{
    let c = chains[keys[t].2 as int]@;
    let loc = loc0.push((w1.len() - 1, at));
    let last = w1.len() - 1;
    assert(is_chain(aig, c));
    assert forall|k: int| 0 <= k < t + 1 implies sits(w1, (#[trigger] loc[k]).0, loc[k].1, chains[keys[k].2 as int]@)
        && wd1[loc[k].0] == keys[k].0 by {
        let ck = chains[keys[k].2 as int]@;
        if k < t {
            assert(loc[k] == loc0[k]);
            assert(sits(w0, loc0[k].0, loc0[k].1, ck));
            let (w, o) = loc0[k];
            assert(w1[w]@.subrange(o, o + ck.len()) =~= w0[w]@.subrange(o, o + ck.len()));
        } else {
            assert(w1[last]@.subrange(at, at + c.len()) =~= c);
        }
    }
    assert forall|w: int, v: int| 0 <= w < v < wd1.len() implies #[trigger] wd1[w] <= #[trigger] wd1[v] by {
        if wd1.len() > wd0.len() && v == last {
            if t > 0 {
                assert(keys[t - 1].0 <= keys[t].0);
                if w < wd0.len() - 1 {
                    assert(wd0[w] <= wd0[wd0.len() - 1]);
                }
            } else {
                assert(is_lane(w0, 0, 0));
                assert(in_first(chains, keys, t, w0[0]@[0]));
            }
        } else {
            assert(wd0[w] <= wd0[v]);
        }
    }
    assert forall|w: int| 0 <= w < w1.len() implies 1 <= (#[trigger] w1[w])@.len() <= 32 by {
        if w < w0.len() {
            assert(1 <= w0[w]@.len() <= 32);
        }
    }
    assert forall|w: int, x: int| #[trigger] is_lane(w1, w, x) implies in_first(chains, keys, t + 1, w1[w]@[x]) by {
        let m = w1[w]@[x];
        if w < last || (w1.len() == w0.len() && x < at) {
            assert(is_lane(w0, w, x));
            assert(w0[w]@[x] == m);
            let k = choose|k: int| 0 <= k < t && (#[trigger] chains[keys[k].2 as int])@.contains(m);
            assert(chains[keys[k].2 as int]@.contains(m));
        } else {
            assert(c[x - at] == m);
            assert(chains[keys[t].2 as int]@.contains(m));
        }
    }
    assert forall|w: int, x: int, v: int, y: int| #[trigger] same_lane(w1, w, x, v, y) by {
        if is_lane(w1, w, x) && is_lane(w1, v, y) && w1[w]@[x] == w1[v]@[y] {
            let m = w1[w]@[x];
            let old_x = w < last || (w1.len() == w0.len() && x < at);
            let old_y = v < last || (w1.len() == w0.len() && y < at);
            if old_x && old_y {
                assert(same_lane(w0, w, x, v, y));
                assert(is_lane(w0, w, x) && is_lane(w0, v, y));
            } else if !old_x && !old_y {
                assert(c[x - at] == m && c[y - at] == m);
                assert(same_place(chains, keys[t].2 as int, x - at, keys[t].2 as int, y - at));
            } else if old_x {
                assert(is_lane(w0, w, x));
                lemma_not_in_first(aig, chains, placed, keys, t, m, y - at);
            } else {
                assert(is_lane(w0, v, y));
                lemma_not_in_first(aig, chains, placed, keys, t, m, x - at);
            }
        }
    }
    assert forall|w: int| #[trigger] crowded(w1, wd1, w) by {
        assert(crowded(w0, wd0, w));
    }
    assert forall|k: int, l: int| 0 <= k < l < t + 1 implies lane_before(
        (#[trigger] loc[k]).0,
        loc[k].1,
        (#[trigger] loc[l]).0,
        loc[l].1,
    ) by {
        assert(loc[k] == loc0[k]);
        if l < t {
            assert(loc[l] == loc0[l]);
        } else {
            assert(sits(w0, loc0[k].0, loc0[k].1, chains[keys[k].2 as int]@));
            assert(is_chain(aig, chains[keys[k].2 as int]@));
        }
    }
}

proof fn lemma_not_in_first(
    aig: AIG,
    chains: Seq<Vec<usize>>,
    placed: Seq<usize>,
    keys: Seq<(usize, usize, usize)>,
    t: int,
    m: usize,
    y: int,
)
    requires
        chains_ok(aig, chains, placed),
        0 <= t < keys.len(),
        forall|k: int| 0 <= k < keys.len() ==> (#[trigger] keys[k]).2 < chains.len(),
        forall|k: int, l: int| 0 <= k < l < keys.len() ==> (#[trigger] keys[k]).2 != (#[trigger] keys[l]).2,
        0 <= y < chains[keys[t].2 as int]@.len(),
        chains[keys[t].2 as int]@[y] == m,
    ensures
        !in_first(chains, keys, t, m),
{
    if in_first(chains, keys, t, m) {
        let k = choose|k: int| 0 <= k < t && (#[trigger] chains[keys[k].2 as int])@.contains(m);
        let x = chains[keys[k].2 as int]@.index_of(m);
        assert(same_place(chains, keys[k].2 as int, x, keys[t].2 as int, y));
    }
}

/// Groups chains into phases by the depth of their heads, so that chains of
/// one depth share a phase as far as the lanes of a warp suffice.
fn pack_waves(
    chains: &Vec<Vec<usize>>,
    levels: &Vec<usize>,
    Ghost(aig): Ghost<AIG>,
    Ghost(placed): Ghost<Seq<usize>>,
) -> (r: (Vec<Vec<usize>>, Ghost<Seq<usize>>))
    requires
        chains_ok(aig, chains@, placed),
        levels@.len() == chains@.len(),
    ensures
        forall|w: int| 0 <= w < r.0@.len() ==> 1 <= (#[trigger] r.0@[w])@.len() <= 32,
        forall|w: int, x: int, v: int, y: int| #[trigger] same_lane(r.0@, w, x, v, y),
        forall|w: int, x: int| #[trigger] is_lane(r.0@, w, x) ==> placed.contains(r.0@[w]@[x]),
        forall|i: int| 0 <= i < chains@.len() ==> seated(r.0@, (#[trigger] chains@[i])@),
        r.1@.len() == r.0@.len(),
        forall|w: int, v: int| 0 <= w < v < r.1@.len() ==> #[trigger] r.1@[w] <= #[trigger] r.1@[v],
        forall|i: int, w: int, o: int|
            0 <= i < chains@.len() && #[trigger] sits(r.0@, w, o, chains@[i]@) ==> r.1@[w] == levels@[i],
        forall|w: int| #[trigger] crowded(r.0@, r.1@, w),
        forall|i: int, w: int, o: int, j: int, v: int, q: int| #[trigger]
            heads_sorted(chains@, levels@, r.0@, i, w, o, j, v, q),
{
    let n = chains.len();
    let mut keys: Vec<(usize, usize, usize)> = Vec::new();
    let mut i: usize = 0;
    while i < n
        invariant
            n == chains@.len(),
            i <= n,
            levels@.len() == n,
            chains_ok(aig, chains@, placed),
            keys@.len() == i,
            forall|k: int|
                0 <= k < i ==> (#[trigger] keys@[k]).2 == k && keys@[k].0 == levels@[k] && keys@[k].1 == chains@[k]@[0],
        decreases n - i,
    {
        assert(is_chain(aig, chains@[i as int]@));
        let head = chains[i][0];
        keys.push((levels[i], head, i));
        i += 1;
    }
    let ghost unsorted = keys@;
    sort_triples(&mut keys);
    proof {
        lemma_same_items(keys@, unsorted);
        assert(unsorted.no_duplicates());
        lemma_same_distinct(keys@, unsorted);
        assert forall|k: int| 0 <= k < keys@.len() implies (#[trigger] keys@[k]).2 < chains@.len() && keys@[k].0
            == levels@[keys@[k].2 as int] && unsorted[keys@[k].2 as int] == keys@[k] by {
            assert(keys@.contains(keys@[k]));
            let l = unsorted.index_of(keys@[k]);
            assert(unsorted[l].2 == l);
        }
        assert forall|k: int, l: int| 0 <= k < l < keys@.len() implies (#[trigger] keys@[k]).2 != (
        #[trigger] keys@[l]).2 by {
            if keys@[k].2 == keys@[l].2 {
                assert(keys@[k] == keys@[l]);
            }
        }
        assert forall|k: int, l: int| 0 <= k < l < keys@.len() implies (#[trigger] keys@[k]).0 <= (
        #[trigger] keys@[l]).0 by {
            assert(triple_le(keys@[k], keys@[l]));
        }
    }
    let mut waves: Vec<Vec<usize>> = Vec::new();
    let ghost mut wd: Seq<usize> = Seq::empty();
    let ghost mut loc: Seq<(int, int)> = Seq::empty();
    let mut cur_depth: usize = usize::MAX;
    let mut t: usize = 0;
    while t < n
        invariant
            n == chains@.len(),
            t <= n,
            keys@.len() == n,
            chains_ok(aig, chains@, placed),
            forall|k: int| 0 <= k < keys@.len() ==> (#[trigger] keys@[k]).2 < chains@.len(),
            forall|k: int, l: int| 0 <= k < l < keys@.len() ==> (#[trigger] keys@[k]).2 != (#[trigger] keys@[l]).2,
            forall|k: int, l: int| 0 <= k < l < keys@.len() ==> (#[trigger] keys@[k]).0 <= (#[trigger] keys@[l]).0,
            packed_first(chains@, keys@, t as int, waves@, wd, loc),
            waves@.len() > 0 ==> t > 0 && cur_depth == wd.last(),
        decreases n - t,
    {
        let ghost w0 = waves@;
        let ghost wd0 = wd;
        let ghost mut at: int = 0;
        let d_t = keys[t].0;
        let chain = &chains[keys[t].2];
        assert(is_chain(aig, chains@[keys@[t as int].2 as int]@));
        let mut more: Vec<usize> = chain.clone();
        assert(more@ =~= chain@);
        match waves.pop() {
            None => {
                waves.push(more);
                cur_depth = d_t;
                proof {
                    wd = wd0.push(d_t);
                }
            },
            Some(mut last) => {
                if d_t != cur_depth || last.len() + chain.len() > MACRO_MAX_LANES {
                    waves.push(last);
                    waves.push(more);
                    cur_depth = d_t;
                    proof {
                        wd = wd0.push(d_t);
                    }
                } else {
                    proof {
                        at = w0.last()@.len() as int;
                    }
                    last.append(&mut more);
                    waves.push(last);
                }
            },
        }
        proof {
            lemma_pack_step(aig, chains@, placed, keys@, t as int, w0, wd0, loc, waves@, wd, at);
            loc = loc.push((waves@.len() - 1, at));
        }
        t += 1;
    }
    proof {
        assert forall|i: int, w: int, o: int, j: int, v: int, q: int| #[trigger]
            heads_sorted(chains@, levels@, waves@, i, w, o, j, v, q) by {
            if 0 <= i < chains@.len() && 0 <= j < chains@.len() && sits(waves@, w, o, chains@[i]@) && sits(
                waves@,
                v,
                q,
                chains@[j]@,
            ) && levels@[i] == levels@[j] && lane_before(w, o, v, q) {
                assert(unsorted.contains(unsorted[i]) && unsorted.contains(unsorted[j]));
                assert(keys@.contains(unsorted[i]) && keys@.contains(unsorted[j]));
                let a = keys@.index_of(unsorted[i]);
                let b = keys@.index_of(unsorted[j]);
                assert(keys@[a].2 == i && keys@[b].2 == j);
                assert(is_chain(aig, chains@[i]@) && is_chain(aig, chains@[j]@));
                assert(sits(waves@, loc[a].0, loc[a].1, chains@[i]@));
                assert(sits(waves@, loc[b].0, loc[b].1, chains@[j]@));
                lemma_sits_once(aig, chains@, placed, waves@, i, w, o, loc[a].0, loc[a].1);
                lemma_sits_once(aig, chains@, placed, waves@, j, v, q, loc[b].0, loc[b].1);
                if b < a {
                    assert(lane_before(loc[b].0, loc[b].1, loc[a].0, loc[a].1));
                }
                assert(a < b);
                assert(triple_le(keys@[a], keys@[b]));
                assert(same_place(chains@, i, 0, j, 0));
            }
        }
        assert forall|w: int, x: int| #[trigger] is_lane(waves@, w, x) implies placed.contains(waves@[w]@[x]) by {
            let m = waves@[w]@[x];
            assert(in_first(chains@, keys@, n as int, m));
            let k = choose|k: int| 0 <= k < n && (#[trigger] chains@[keys@[k].2 as int])@.contains(m);
            assert(in_chains(chains@, m));
        }
        assert forall|i: int| 0 <= i < chains@.len() implies seated(waves@, (#[trigger] chains@[i])@) by {
            assert(unsorted.contains(unsorted[i]));
            assert(keys@.contains(unsorted[i]));
            let k = keys@.index_of(unsorted[i]);
            assert(keys@[k].2 == i);
            assert(sits(waves@, loc[k].0, loc[k].1, chains@[keys@[k].2 as int]@));
        }
        assert forall|i: int, w: int, o: int|
            0 <= i < chains@.len() && #[trigger] sits(waves@, w, o, chains@[i]@) implies wd[w] == levels@[i] by {
            assert(unsorted.contains(unsorted[i]));
            assert(keys@.contains(unsorted[i]));
            let k = keys@.index_of(unsorted[i]);
            assert(keys@[k].2 == i);
            assert(sits(waves@, loc[k].0, loc[k].1, chains@[keys@[k].2 as int]@));
            lemma_sits_once(aig, chains@, placed, waves@, i, w, o, loc[k].0, loc[k].1);
        }
    }
    (waves, Ghost(wd))
}

proof fn lemma_sits_once(
    aig: AIG,
    chains: Seq<Vec<usize>>,
    placed: Seq<usize>,
    waves: Seq<Vec<usize>>,
    i: int,
    w: int,
    o: int,
    v: int,
    q: int,
)
    requires
        chains_ok(aig, chains, placed),
        forall|w: int, x: int, v: int, y: int| #[trigger] same_lane(waves, w, x, v, y),
        0 <= i < chains.len(),
        sits(waves, w, o, chains[i]@),
        sits(waves, v, q, chains[i]@),
    ensures
        w == v,
        o == q,
{
    let c = chains[i]@;
    assert(is_chain(aig, c));
    assert(waves[w]@.subrange(o, o + c.len())[0] == c[0]);
    assert(waves[v]@.subrange(q, q + c.len())[0] == c[0]);
    assert(same_lane(waves, w, o, v, q));
}

/// Has the input slot to be there when the macro is evaluated?
pub open spec fn is_needed_slot(kind: MacroKind, slot: usize) -> bool {
    ||| kind is Srlc32e && kind.spec_state_fanin().contains(slot)
    ||| exists|o: usize|
        o < kind.spec_num_outputs() && #[trigger] kind.spec_needs_eval(o) && kind.spec_comb_fanin(o).contains(slot)
}

/// Does the phase gather the pin for one of its lanes?
pub open spec fn gathers(aig: AIG, wave: Seq<usize>, pin: usize) -> bool {
    exists|l: int, s: usize| #[trigger] gathers_at(aig, wave, l, s, pin)
}

/// Does the phase gather the pin for a slot of a lane?
///
/// The carry of a lane that does not head its chain is not gathered.
pub open spec fn gathers_at(aig: AIG, wave: Seq<usize>, l: int, s: usize, pin: usize) -> bool {
    &&& 0 <= l < wave.len()
    &&& s < mac(aig, wave[l]).kind.spec_num_inputs()
    &&& is_needed_slot(mac(aig, wave[l]).kind, s)
    &&& spec_chain_start(aig, wave, l) || s != C4_IN_CI
    &&& pin != 0
    &&& mac(aig, wave[l]).inputs@[s as int] / 2 == pin
}

/// Is the macro in a phase before the given one?
pub open spec fn stands_before(waves: Seq<Vec<usize>>, w: int, p: usize) -> bool {
    exists|v: int, y: int| #[trigger] is_lane(waves, v, y) && v < w && waves[v]@[y] == p
}

/// Do the macros of a phase depend, through any logic, on macros of earlier
/// phases alone, but for carries that come from the lane before?
pub open spec fn waves_ordered(aig: AIG, done: Set<usize>, targets: Seq<usize>, waves: Seq<Vec<usize>>) -> bool {
    forall|w: int, l: int, s: int, p: usize|
        is_lane(waves, w, l) && in_macro_cone(aig, done, targets, p) && #[trigger] slot_waits(
            aig,
            done,
            waves[w]@[l],
            s,
            p,
        ) && (spec_chain_start(aig, waves[w]@, l) || s != C4_IN_CI) ==> stands_before(waves, w, p)
}

/// Does the macro depend on one in a phase of the given level?
pub open spec fn waits_for_level(
    aig: AIG,
    done: Set<usize>,
    waves: Seq<Vec<usize>>,
    level: Seq<usize>,
    k: int,
    m: usize,
) -> bool {
    exists|s: int, v: int, y: int|
        #![trigger slot_waits(aig, done, m, s, waves[v]@[y])]
        is_lane(waves, v, y) && level[v] == k && slot_waits(aig, done, m, s, waves[v]@[y])
}

/// If two heads of chains in phases of one level stand one before the other, is
/// the first the macro with the lower position?
pub open spec fn heads_rise(
    aig: AIG,
    waves: Seq<Vec<usize>>,
    level: Seq<usize>,
    w: int,
    x: int,
    v: int,
    y: int,
) -> bool {
    is_lane(waves, w, x) && is_lane(waves, v, y) && spec_chain_start(aig, waves[w]@, x) && spec_chain_start(
        aig,
        waves[v]@,
        y,
    ) && level[w] == level[v] && lane_before(w, x, v, y) ==> waves[w]@[x] < waves[v]@[y]
}

/// Are the phases as early as they can be?
///
/// They come in levels. The head of every chain depends on a macro of the level
/// before its own, and phases of one level are joined as far as the lanes of a
/// warp suffice.
pub open spec fn leveled(aig: AIG, done: Set<usize>, waves: Seq<Vec<usize>>, level: Seq<usize>) -> bool {
    &&& level.len() == waves.len()
    &&& forall|w: int, v: int| 0 <= w < v < level.len() ==> #[trigger] level[w] <= #[trigger] level[v]
    &&& forall|w: int| #[trigger] crowded(waves, level, w)
    &&& forall|w: int, l: int| #[trigger]
        is_lane(waves, w, l) && level[w] > 0 && spec_chain_start(aig, waves[w]@, l) ==> waits_for_level(
            aig,
            done,
            waves,
            level,
            level[w] - 1,
            waves[w]@[l],
        )
    &&& forall|w: int, x: int, v: int, y: int| #[trigger] heads_rise(aig, waves, level, w, x, v, y)
}

/// Does the carry of a macro that has to be evaluated go into this one?
pub open spec fn links_in_cone(aig: AIG, done: Set<usize>, targets: Seq<usize>, m: usize) -> bool {
    exists|p: usize| #[trigger] in_macro_cone(aig, done, targets, p) && carry_feeds(aig, p, m)
}

/// Is this a carry chain that starts with no carry of another macro, and
/// nowhere branches?
pub open spec fn is_plain_chain(aig: AIG, done: Set<usize>, targets: Seq<usize>, c: Seq<usize>) -> bool {
    &&& 1 <= c.len() <= MACRO_MAX_LANES
    &&& forall|k: int| 0 <= k < c.len() ==> in_macro_cone(aig, done, targets, #[trigger] c[k])
    &&& !links_in_cone(aig, done, targets, c[0])
    &&& forall|k: int, m: usize|
        0 <= k < c.len() - 1 && in_macro_cone(aig, done, targets, m) && #[trigger] carry_feeds(aig, c[k], m) ==> m
            == c[k + 1]
    &&& forall|k: int| #![trigger c[k]] 0 <= k < c.len() - 1 ==> carry_feeds(aig, c[k], c[k + 1])
}

/// Do the links of the chain wait for nothing, but for their carries, that its
/// head does not wait for?
pub open spec fn links_follow(aig: AIG, done: Set<usize>, targets: Seq<usize>, c: Seq<usize>) -> bool {
    forall|k: int, s: int, p: usize|
        0 <= k < c.len() && s != C4_IN_CI && in_macro_cone(aig, done, targets, p) && #[trigger] slot_waits(
            aig,
            done,
            c[k],
            s,
            p,
        ) ==> exists|t: int| #[trigger] slot_waits(aig, done, c[0], t, p)
}

/// The phases in which the macros that the targets depend on are evaluated.
pub open spec fn waves_ok(aig: AIG, done: Set<usize>, targets: Seq<usize>, waves: Seq<Vec<usize>>) -> bool {
    // A phase has the lanes of one warp at most.
    &&& forall|w: int| 0 <= w < waves.len() ==> 1 <= (#[trigger] waves[w])@.len() <= MACRO_MAX_LANES
    // Every macro that is needed has exactly one lane.
    &&& forall|w: int, x: int, v: int, y: int| #[trigger] same_lane(waves, w, x, v, y)
    &&& forall|w: int, x: int| #[trigger]
        is_lane(waves, w, x) ==> in_macro_cone(aig, done, targets, waves[w]@[x])
    &&& forall|m: usize| #[trigger] in_macro_cone(aig, done, targets, m) ==> seated(waves, seq![m])
    // Phases can run one after another.
    &&& waves_ordered(aig, done, targets, waves)
    // No phase is later than it has to be.
    &&& exists|level: Seq<usize>| #[trigger] leveled(aig, done, waves, level)
    // A carry chain takes consecutive lanes of one phase.
    &&& forall|c: Seq<usize>| #[trigger]
        is_plain_chain(aig, done, targets, c) && links_follow(aig, done, targets, c) ==> seated(waves, c)
}

/// Have dependencies among the macros that the targets depend on no cycle?
pub open spec fn macros_ranked(aig: AIG, done: Set<usize>, targets: Seq<usize>, rank: spec_fn(usize) -> nat) -> bool {
    forall|m: usize, s: int, p: usize|
        in_macro_cone(aig, done, targets, m) && in_macro_cone(aig, done, targets, p) && #[trigger] slot_waits(
            aig,
            done,
            m,
            s,
            p,
        ) ==> rank(p) < rank(m)
}

/// What makes a graph with macros fit for scheduling.
pub open spec fn macro_pins_ok(aig: AIG) -> bool {
    producers_ok(aig) && outputs_ok(aig)
}

/// A part of a chain that is seated is seated.
proof fn lemma_seated_part(waves: Seq<Vec<usize>>, c: Seq<usize>, s: Seq<usize>, at: int)
    requires
        seated(waves, c),
        0 <= at,
        at + s.len() <= c.len(),
        s == c.subrange(at, at + s.len()),
    ensures
        seated(waves, s),
{
    let (w, o) = choose|w: int, o: int| #[trigger] sits(waves, w, o, c);
    assert(waves[w]@.subrange(o + at, o + at + s.len()) =~= s) by {
        assert forall|k: int| 0 <= k < s.len() implies waves[w]@[o + at + k] == s[k] by {
            assert(waves[w]@.subrange(o, o + c.len())[at + k] == c[at + k]);
        }
    }
    assert(sits(waves, w, o + at, s));
}

proof fn lemma_macro_cone(aig: AIG, done: Set<usize>, targets: Seq<usize>, order: Seq<usize>, c: Seq<usize>)
    requires
        forall|v: usize| #[trigger] order.contains(v) <==> in_cone(aig, done, targets, v),
        forall|m: usize| #[trigger]
            c.contains(m) <==> exists|k: int|
                0 <= k < order.len() && !done.contains(#[trigger] order[k]) && producer(aig, order[k]) == Some(m) && !(
                mac(aig, m).kind is Dsp48e2),
    ensures
        forall|m: usize| #[trigger] c.contains(m) <==> in_macro_cone(aig, done, targets, m),
{
    assert forall|m: usize| #[trigger] c.contains(m) <==> in_macro_cone(aig, done, targets, m) by {
        if c.contains(m) {
            let k = choose|k: int|
                0 <= k < order.len() && !done.contains(#[trigger] order[k]) && producer(aig, order[k]) == Some(m) && !(
                mac(aig, m).kind is Dsp48e2);
            assert(order.contains(order[k]));
            assert(in_cone(aig, done, targets, order[k]));
        }
        if in_macro_cone(aig, done, targets, m) {
            let pin = choose|pin: usize| #[trigger]
                in_cone(aig, done, targets, pin) && !done.contains(pin) && producer(aig, pin) == Some(m) && !(mac(
                    aig,
                    m,
                ).kind is Dsp48e2);
            assert(order.contains(pin));
            let k = order.index_of(pin);
            assert(!done.contains(order[k]));
        }
    }
}

/// Where dependencies have no cycle, not all macros that are left wait for each
/// other.
proof fn lemma_not_stuck(
    aig: AIG,
    done: Set<usize>,
    targets: Seq<usize>,
    cone: Seq<usize>,
    chains: Seq<Vec<usize>>,
    levels: Seq<usize>,
    l: int,
    seen: Seq<usize>,
    rank: spec_fn(usize) -> nat,
    m: usize,
)
    requires
        macros_ranked(aig, done, targets, rank),
        forall|m: usize| #[trigger] cone.contains(m) <==> in_macro_cone(aig, done, targets, m),
        forall|m: usize| #[trigger]
            cone.contains(m) && !seen.contains(m) ==> waits_beyond(aig, done, cone, chains, levels, l, m, false),
        forall|p: usize| #[trigger] seen.contains(p) <==> below_level(chains, levels, l, p),
        cone.contains(m),
    ensures
        seen.contains(m),
    decreases rank(m),
{
    if !seen.contains(m) {
        let (s, p) = lemma_wait_of(aig, done, cone, chains, levels, l, m, false);
        assert(!seen.contains(p));
        lemma_not_stuck(aig, done, targets, cone, chains, levels, l, seen, rank, p);
    }
}

/// Where all macros that are left wait for each other, there is a cycle.
proof fn lemma_stuck(
    aig: AIG,
    done: Set<usize>,
    targets: Seq<usize>,
    cone: Seq<usize>,
    chains: Seq<Vec<usize>>,
    levels: Seq<usize>,
    l: int,
    seen: Seq<usize>,
)
    requires
        cone.no_duplicates(),
        seen.len() < cone.len(),
        forall|m: usize| #[trigger] cone.contains(m) <==> in_macro_cone(aig, done, targets, m),
        forall|m: usize| #[trigger]
            cone.contains(m) && !seen.contains(m) ==> waits_beyond(aig, done, cone, chains, levels, l, m, false),
        forall|p: usize| #[trigger] seen.contains(p) <==> below_level(chains, levels, l, p),
    ensures
        !(exists|rank: spec_fn(usize) -> nat| #[trigger] macros_ranked(aig, done, targets, rank)),
{
    if exists|rank: spec_fn(usize) -> nat| #[trigger] macros_ranked(aig, done, targets, rank) {
        let rank = choose|rank: spec_fn(usize) -> nat| #[trigger] macros_ranked(aig, done, targets, rank);
        let m = lemma_missing(cone, seen);
        lemma_not_stuck(aig, done, targets, cone, chains, levels, l, seen, rank, m);
    }
}

/// Groups the macros that have to be evaluated part-way through a partition
/// for the targets into dependency waves.
///
/// Every macro in a wave depends only on ordinary logic and on macros in
/// earlier waves. Carry chains take consecutive lanes of one wave; the carry
/// then comes from the lane before. A chain is split where a link depends on
/// more than its head, and at the width of a warp.
///
/// There is `None` if macros depend on each other in a cycle.
pub fn order_macro_waves(
    aig: &AIG,
    targets: &IndexSet<usize>,
    realized_inputs: &IndexSet<usize>,
) -> (r: Option<Vec<Vec<usize>>>)
    requires
        aig.walkable(),
        macro_pins_ok(*aig),
        macro_inputs_ok(*aig),
        aig.acyclic(Set::empty()),
        are_pins(*aig, set_items(*targets)),
    ensures
        r matches Some(waves) ==> waves_ok(
            *aig,
            set_items(*realized_inputs).to_set(),
            set_items(*targets),
            waves@,
        ),
        r is Some <==> exists|rank: spec_fn(usize) -> nat| #[trigger]
            macros_ranked(*aig, set_items(*realized_inputs).to_set(), set_items(*targets), rank),
{
    let ghost done = set_items(*realized_inputs).to_set();
    let ghost tgt = set_items(*targets);
    proof {
        super::rounds::lemma_acyclic_more(*aig, Set::empty(), done);
    }
    let order = visit_order(aig, targets, realized_inputs);
    let cone = macros_in_order(aig, &order, realized_inputs);
    let ghost c = set_items(cone);
    proof {
        lemma_macro_cone(*aig, done, tgt, order@, c);
        assert forall|i: int| 0 <= i < c.len() implies #[trigger] c[i] < aig.macros.vals().len() by {
            assert(c.contains(c[i]));
            assert(in_macro_cone(*aig, done, tgt, c[i]));
            let pin = choose|pin: usize| #[trigger]
                in_cone(*aig, done, tgt, pin) && !done.contains(pin) && producer(*aig, pin) == Some(c[i]) && !(mac(
                    *aig,
                    c[i],
                ).kind is Dsp48e2);
            assert(map_view(aig.aigpin2macro)[pin] < aig.macros.vals().len());
        }
    }
    let _ = aig.macros.len();
    let n = set_len(&cone);
    let mut seen = set_new();
    let mut chains: Vec<Vec<usize>> = Vec::new();
    let mut levels: Vec<usize> = Vec::new();
    let mut level: usize = 0;
    while set_len(&seen) < n
        invariant
            aig.walkable(),
            macro_inputs_ok(*aig),
            aig.acyclic(done),
            done == set_items(*realized_inputs).to_set(),
            tgt == set_items(*targets),
            c == set_items(cone),
            n == c.len(),
            c.no_duplicates(),
            forall|i: int| 0 <= i < c.len() ==> #[trigger] c[i] < aig.macros.vals().len(),
            forall|m: usize| #[trigger] c.contains(m) <==> in_macro_cone(*aig, done, tgt, m),
            chains_ok(*aig, chains@, set_items(seen)),
            levels_ok(*aig, done, c, chains@, levels@, level as int),
            forall|i: int| 0 <= i < levels@.len() ==> #[trigger] levels@[i] < level,
            forall|m: usize| #[trigger] set_items(seen).contains(m) ==> c.contains(m),
            level > 0 ==> forall|m: usize| #[trigger]
                c.contains(m) && !set_items(seen).contains(m) ==> waits_beyond(
                    *aig,
                    done,
                    c,
                    chains@,
                    levels@,
                    level - 1,
                    m,
                    false,
                ),
            level <= set_items(seen).len(),
        decreases n - set_items(seen).len(),
    {
        let before = set_len(&seen);
        let ghost s0 = set_items(seen);
        fill_level(aig, &cone, realized_inputs, &mut seen, &mut chains, &mut levels, level);
        let after = set_len(&seen);
        if after == before {
            proof {
                let s1 = set_items(seen);
                assert(s1 =~= s0);
                lemma_stuck(*aig, done, tgt, c, chains@, levels@, level as int, s1);
            }
            return None;
        }
        proof {
            super::stage::lemma_sub_len(set_items(seen), c);
        }
        level += 1;
    }
    proof {
        super::stage::lemma_sub_len(set_items(seen), c);
        assert forall|m: usize| #[trigger] c.contains(m) implies set_items(seen).contains(m) by {
            lemma_all_there(set_items(seen), c, m);
        }
    }
    let (waves, Ghost(wd)) = pack_waves(&chains, &levels, Ghost(*aig), Ghost(set_items(seen)));
    proof {
        lemma_waves_ok(*aig, done, tgt, c, chains@, levels@, level as int, set_items(seen), waves@, wd);
        law_waves_leave_no_cycle(*aig, done, tgt, waves@);
    }
    Some(waves)
}

/// A longer sequence of distinct elements has one that a shorter one has not.
proof fn lemma_missing(c: Seq<usize>, s: Seq<usize>) -> (m: usize)
    requires
        c.no_duplicates(),
        s.len() < c.len(),
    ensures
        c.contains(m),
        !s.contains(m),
{
    if forall|m: usize| #[trigger] c.contains(m) ==> s.contains(m) {
        super::stage::lemma_sub_len(c, s);
    }
    choose|m: usize| #[trigger] c.contains(m) && !s.contains(m)
}

/// As many distinct elements of a sequence are all of them.
proof fn lemma_all_there(s: Seq<usize>, c: Seq<usize>, m: usize)
    requires
        s.no_duplicates(),
        c.no_duplicates(),
        s.len() >= c.len(),
        forall|x: usize| #[trigger] s.contains(x) ==> c.contains(x),
        c.contains(m),
    ensures
        s.contains(m),
{
    if !s.contains(m) {
        let t = s.push(m);
        lemma_push_contains(s, m);
        super::stage::lemma_sub_len(t, c);
    }
}

/// Where a macro of the chains stands.
proof fn lemma_place_of(
    aig: AIG,
    chains: Seq<Vec<usize>>,
    seen: Seq<usize>,
    waves: Seq<Vec<usize>>,
    i: int,
    k: int,
) -> (r: (int, int))
    requires
        chains_ok(aig, chains, seen),
        0 <= i < chains.len(),
        0 <= k < chains[i]@.len(),
        forall|i: int| 0 <= i < chains.len() ==> seated(waves, (#[trigger] chains[i])@),
    ensures
        sits(waves, r.0, r.1, chains[i]@),
        is_lane(waves, r.0, r.1 + k),
        waves[r.0]@[r.1 + k] == chains[i]@[k],
{
    let c = chains[i]@;
    assert(seated(waves, chains[i]@));
    let (w, o) = choose|w: int, o: int| #[trigger] sits(waves, w, o, c);
    assert(waves[w]@.subrange(o, o + c.len())[k] == c[k]);
    (w, o)
}

/// Which macro of the chains stands in a lane.
proof fn lemma_chain_of(
    aig: AIG,
    chains: Seq<Vec<usize>>,
    seen: Seq<usize>,
    waves: Seq<Vec<usize>>,
    w: int,
    x: int,
) -> (r: (int, int))
    requires
        chains_ok(aig, chains, seen),
        forall|i: int| 0 <= i < chains.len() ==> seated(waves, (#[trigger] chains[i])@),
        forall|w: int, x: int, v: int, y: int| #[trigger] same_lane(waves, w, x, v, y),
        forall|w: int, x: int| #[trigger] is_lane(waves, w, x) ==> seen.contains(waves[w]@[x]),
        is_lane(waves, w, x),
    ensures
        0 <= r.0 < chains.len(),
        0 <= r.1 < chains[r.0]@.len(),
        chains[r.0]@[r.1] == waves[w]@[x],
        sits(waves, w, x - r.1, chains[r.0]@),
{
    let m = waves[w]@[x];
    assert(in_chains(chains, m));
    let i = choose|i: int| 0 <= i < chains.len() && (#[trigger] chains[i])@.contains(m);
    let k = chains[i]@.index_of(m);
    let (v, o) = lemma_place_of(aig, chains, seen, waves, i, k);
    assert(same_lane(waves, w, x, v, o + k));
    (i, k)
}

proof fn lemma_waves_ok(
    aig: AIG,
    done: Set<usize>,
    targets: Seq<usize>,
    c: Seq<usize>,
    chains: Seq<Vec<usize>>,
    levels: Seq<usize>,
    l: int,
    seen: Seq<usize>,
    waves: Seq<Vec<usize>>,
    wd: Seq<usize>,
)
    requires
        aig.walkable(),
        macro_pins_ok(aig),
        aig.macros.vals().len() <= usize::MAX,
        forall|i: int| 0 <= i < c.len() ==> #[trigger] c[i] < aig.macros.vals().len(),
        forall|m: usize| #[trigger] c.contains(m) <==> in_macro_cone(aig, done, targets, m),
        forall|m: usize| #[trigger] c.contains(m) <==> seen.contains(m),
        chains_ok(aig, chains, seen),
        levels_ok(aig, done, c, chains, levels, l),
        forall|w: int| 0 <= w < waves.len() ==> 1 <= (#[trigger] waves[w])@.len() <= 32,
        forall|w: int, x: int, v: int, y: int| #[trigger] same_lane(waves, w, x, v, y),
        forall|w: int, x: int| #[trigger] is_lane(waves, w, x) ==> seen.contains(waves[w]@[x]),
        forall|i: int| 0 <= i < chains.len() ==> seated(waves, (#[trigger] chains[i])@),
        wd.len() == waves.len(),
        forall|w: int, v: int| 0 <= w < v < wd.len() ==> #[trigger] wd[w] <= #[trigger] wd[v],
        forall|i: int, w: int, o: int|
            0 <= i < chains.len() && #[trigger] sits(waves, w, o, chains[i]@) ==> wd[w] == levels[i],
        forall|w: int| #[trigger] crowded(waves, wd, w),
        forall|i: int, w: int, o: int, j: int, v: int, q: int| #[trigger]
            heads_sorted(chains, levels, waves, i, w, o, j, v, q),
    ensures
        waves_ok(aig, done, targets, waves),
{
    assert forall|w: int, x: int| #[trigger] is_lane(waves, w, x) implies in_macro_cone(
        aig,
        done,
        targets,
        waves[w]@[x],
    ) by {
        assert(c.contains(waves[w]@[x]));
    }
    assert forall|m: usize| #[trigger] in_macro_cone(aig, done, targets, m) implies seated(waves, seq![m]) by {
        assert(c.contains(m));
        assert(in_chains(chains, m));
        let i = choose|i: int| 0 <= i < chains.len() && (#[trigger] chains[i])@.contains(m);
        let k = chains[i]@.index_of(m);
        assert(seated(waves, chains[i]@));
        assert(chains[i]@.subrange(k, k + 1) =~= seq![m]);
        lemma_seated_part(waves, chains[i]@, seq![m], k);
    }
    assert(waves_ordered(aig, done, targets, waves)) by {
        assert forall|w: int, x: int, s: int, p: usize|
            is_lane(waves, w, x) && in_macro_cone(aig, done, targets, p) && #[trigger] slot_waits(
                aig,
                done,
                waves[w]@[x],
                s,
                p,
            ) && (spec_chain_start(aig, waves[w]@, x) || s != C4_IN_CI) implies stands_before(waves, w, p) by {
            lemma_waited_before(aig, done, c, chains, levels, l, seen, waves, wd, w, x, s, p);
        }
    }
    assert(leveled(aig, done, waves, wd)) by {
        assert forall|w: int, x: int| #[trigger]
            is_lane(waves, w, x) && wd[w] > 0 && spec_chain_start(aig, waves[w]@, x) implies waits_for_level(
            aig,
            done,
            waves,
            wd,
            wd[w] - 1,
            waves[w]@[x],
        ) by {
            lemma_head_waits(aig, done, c, chains, levels, l, seen, waves, wd, w, x);
        }
        assert forall|w: int, x: int, v: int, y: int| #[trigger] heads_rise(aig, waves, wd, w, x, v, y) by {
            if is_lane(waves, w, x) && is_lane(waves, v, y) && spec_chain_start(aig, waves[w]@, x) && spec_chain_start(
                aig,
                waves[v]@,
                y,
            ) && wd[w] == wd[v] && lane_before(w, x, v, y) {
                let (i, k) = lemma_chain_of(aig, chains, seen, waves, w, x);
                let (j, h) = lemma_chain_of(aig, chains, seen, waves, v, y);
                if k > 0 {
                    lemma_link_not_head(aig, chains, seen, c, waves, i, k, w, x);
                }
                if h > 0 {
                    lemma_link_not_head(aig, chains, seen, c, waves, j, h, v, y);
                }
                assert(heads_sorted(chains, levels, waves, i, w, x, j, v, y));
            }
        }
    }
    assert forall|d: Seq<usize>| #[trigger]
        is_plain_chain(aig, done, targets, d) && links_follow(aig, done, targets, d) implies seated(waves, d) by {
        lemma_plain_seated(aig, done, targets, c, chains, levels, l, seen, waves, d);
    }
}

/// A link of a chain does not head it.
proof fn lemma_link_not_head(
    aig: AIG,
    chains: Seq<Vec<usize>>,
    seen: Seq<usize>,
    c: Seq<usize>,
    waves: Seq<Vec<usize>>,
    i: int,
    k: int,
    w: int,
    x: int,
)
    requires
        aig.macros_wf(),
        chains_ok(aig, chains, seen),
        aig.macros.vals().len() <= usize::MAX,
        forall|i: int| 0 <= i < c.len() ==> #[trigger] c[i] < aig.macros.vals().len(),
        forall|m: usize| #[trigger] c.contains(m) <==> seen.contains(m),
        forall|w: int| 0 <= w < waves.len() ==> 1 <= (#[trigger] waves[w])@.len() <= 32,
        is_lane(waves, w, x),
        0 <= i < chains.len(),
        0 < k < chains[i]@.len(),
        chains[i]@[k] == waves[w]@[x],
        sits(waves, w, x - k, chains[i]@),
    ensures
        !spec_chain_start(aig, waves[w]@, x),
{
    let d = chains[i]@;
    assert(is_chain(aig, chains[i]@));
    assert(succeeds(aig, d, k - 1));
    assert(waves[w]@.subrange(x - k, x - k + d.len())[k - 1] == d[k - 1]);
    assert(waves[w]@[x - 1] == d[k - 1]);
    assert(d.contains(d[k]) && d.contains(d[k - 1]));
    assert(in_chains(chains, d[k]) && in_chains(chains, d[k - 1]));
    assert(c.contains(d[k]) && c.contains(d[k - 1]));
    assert(c[c.index_of(d[k])] < aig.macros.vals().len());
    assert(c[c.index_of(d[k - 1])] < aig.macros.vals().len());
    assert(waves[w]@.len() <= 32);
}

proof fn lemma_waited_before(
    aig: AIG,
    done: Set<usize>,
    c: Seq<usize>,
    chains: Seq<Vec<usize>>,
    levels: Seq<usize>,
    l: int,
    seen: Seq<usize>,
    waves: Seq<Vec<usize>>,
    wd: Seq<usize>,
    w: int,
    x: int,
    s: int,
    p: usize,
)
    requires
        aig.walkable(),
        aig.macros.vals().len() <= usize::MAX,
        forall|i: int| 0 <= i < c.len() ==> #[trigger] c[i] < aig.macros.vals().len(),
        forall|m: usize| #[trigger] c.contains(m) <==> seen.contains(m),
        chains_ok(aig, chains, seen),
        levels_ok(aig, done, c, chains, levels, l),
        forall|w: int| 0 <= w < waves.len() ==> 1 <= (#[trigger] waves[w])@.len() <= 32,
        forall|w: int, x: int, v: int, y: int| #[trigger] same_lane(waves, w, x, v, y),
        forall|w: int, x: int| #[trigger] is_lane(waves, w, x) ==> seen.contains(waves[w]@[x]),
        forall|i: int| 0 <= i < chains.len() ==> seated(waves, (#[trigger] chains[i])@),
        wd.len() == waves.len(),
        forall|w: int, v: int| 0 <= w < v < wd.len() ==> #[trigger] wd[w] <= #[trigger] wd[v],
        forall|i: int, w: int, o: int|
            0 <= i < chains.len() && #[trigger] sits(waves, w, o, chains[i]@) ==> wd[w] == levels[i],
        is_lane(waves, w, x),
        spec_chain_start(aig, waves[w]@, x) || s != C4_IN_CI,
        c.contains(p),
        slot_waits(aig, done, waves[w]@[x], s, p),
    ensures
        stands_before(waves, w, p),
{
    let (i, k) = lemma_chain_of(aig, chains, seen, waves, w, x);
    let m = waves[w]@[x];
    if k > 0 {
        lemma_link_not_head(aig, chains, seen, c, waves, i, k, w, x);
    }
    assert(level_ok(aig, done, c, chains, levels, i));
    assert(!waits_beyond(aig, done, c, chains, levels, levels[i] as int, chains[i]@[k], k > 0));
    lemma_no_wait(aig, done, c, chains, levels, levels[i] as int, m, k > 0, s, p);
    let j = choose|j: int| 0 <= j < chains.len() && levels[j] < levels[i] && (#[trigger] chains[j])@.contains(p);
    let q = chains[j]@.index_of(p);
    let (v, o) = lemma_place_of(aig, chains, seen, waves, j, q);
    assert(wd[v] == levels[j]);
    assert(wd[w] == levels[i]);
    if w <= v {
        if w < v {
            assert(wd[w] <= wd[v]);
        }
    }
    assert(is_lane(waves, v, o + q));
}

proof fn lemma_head_waits(
    aig: AIG,
    done: Set<usize>,
    c: Seq<usize>,
    chains: Seq<Vec<usize>>,
    levels: Seq<usize>,
    l: int,
    seen: Seq<usize>,
    waves: Seq<Vec<usize>>,
    wd: Seq<usize>,
    w: int,
    x: int,
)
    requires
        aig.walkable(),
        aig.macros.vals().len() <= usize::MAX,
        forall|i: int| 0 <= i < c.len() ==> #[trigger] c[i] < aig.macros.vals().len(),
        forall|m: usize| #[trigger] c.contains(m) <==> seen.contains(m),
        chains_ok(aig, chains, seen),
        levels_ok(aig, done, c, chains, levels, l),
        forall|w: int| 0 <= w < waves.len() ==> 1 <= (#[trigger] waves[w])@.len() <= 32,
        forall|w: int, x: int, v: int, y: int| #[trigger] same_lane(waves, w, x, v, y),
        forall|w: int, x: int| #[trigger] is_lane(waves, w, x) ==> seen.contains(waves[w]@[x]),
        forall|i: int| 0 <= i < chains.len() ==> seated(waves, (#[trigger] chains[i])@),
        wd.len() == waves.len(),
        forall|i: int, w: int, o: int|
            0 <= i < chains.len() && #[trigger] sits(waves, w, o, chains[i]@) ==> wd[w] == levels[i],
        is_lane(waves, w, x),
        wd[w] > 0,
        spec_chain_start(aig, waves[w]@, x),
    ensures
        waits_for_level(aig, done, waves, wd, wd[w] - 1, waves[w]@[x]),
{
    let (i, k) = lemma_chain_of(aig, chains, seen, waves, w, x);
    let m = waves[w]@[x];
    if k > 0 {
        lemma_link_not_head(aig, chains, seen, c, waves, i, k, w, x);
    }
    assert(level_ok(aig, done, c, chains, levels, i));
    assert(levels[i] == wd[w]);
    let (s, p) = lemma_wait_of(aig, done, c, chains, levels, levels[i] - 1, m, false);
    assert(!waits_beyond(aig, done, c, chains, levels, levels[i] as int, chains[i]@[0], false));
    lemma_no_wait(aig, done, c, chains, levels, levels[i] as int, m, false, s, p);
    let j = choose|j: int| 0 <= j < chains.len() && levels[j] < levels[i] && (#[trigger] chains[j])@.contains(p);
    let q = chains[j]@.index_of(p);
    let (v, o) = lemma_place_of(aig, chains, seen, waves, j, q);
    assert(levels[j] == levels[i] - 1);
    assert(slot_waits(aig, done, m, s, waves[v]@[o + q]));
}

/// The carry of a CARRY4 is one of the outputs that evaluating it produces.
proof fn lemma_carry_waits(aig: AIG, done: Set<usize>, p: usize, m: usize)
    requires
        aig.macros_wf(),
        p < aig.macros.vals().len(),
        m < aig.macros.vals().len(),
        carry_feeds(aig, p, m),
    ensures
        slot_waits(aig, done, m, C4_IN_CI as int, p),
{
    let pin = carry_pin(aig, m);
    assert(mac(aig, p).wf());
    assert(mac(aig, m).wf());
    crate::macros::lemma_mid_output(mac(aig, p), 7);
    aig.lemma_reaches_self(done, pin);
}

/// A plain chain whose links follow its head is seated.
proof fn lemma_plain_seated(
    aig: AIG,
    done: Set<usize>,
    targets: Seq<usize>,
    c: Seq<usize>,
    chains: Seq<Vec<usize>>,
    levels: Seq<usize>,
    l: int,
    seen: Seq<usize>,
    waves: Seq<Vec<usize>>,
    d: Seq<usize>,
)
    requires
        aig.walkable(),
        macro_pins_ok(aig),
        forall|i: int| 0 <= i < c.len() ==> #[trigger] c[i] < aig.macros.vals().len(),
        forall|m: usize| #[trigger] c.contains(m) <==> in_macro_cone(aig, done, targets, m),
        forall|m: usize| #[trigger] c.contains(m) <==> seen.contains(m),
        chains_ok(aig, chains, seen),
        levels_ok(aig, done, c, chains, levels, l),
        forall|i: int| 0 <= i < chains.len() ==> seated(waves, (#[trigger] chains[i])@),
        is_plain_chain(aig, done, targets, d),
        links_follow(aig, done, targets, d),
    ensures
        seated(waves, d),
{
    assert(in_macro_cone(aig, done, targets, d[0]));
    assert(c.contains(d[0]));
    assert(in_chains(chains, d[0]));
    let i = choose|i: int| 0 <= i < chains.len() && (#[trigger] chains[i])@.contains(d[0]);
    let e = chains[i]@;
    let k = e.index_of(d[0]);
    assert(is_chain(aig, chains[i]@));
    if k > 0 {
        assert(succeeds(aig, e, k - 1));
        assert(e.contains(e[k - 1]));
        assert(in_chains(chains, e[k - 1]));
        assert(c.contains(e[k - 1]));
        assert(in_macro_cone(aig, done, targets, e[k - 1]) && carry_feeds(aig, e[k - 1], d[0]));
        assert(links_in_cone(aig, done, targets, d[0]));
    }
    lemma_plain_inside(aig, done, targets, c, chains, levels, l, seen, d, i, d.len() as int);
    assert(e.subrange(0, d.len() as int) =~= d);
    assert(seated(waves, chains[i]@));
    lemma_seated_part(waves, e, d, 0);
}

proof fn lemma_plain_inside(
    aig: AIG,
    done: Set<usize>,
    targets: Seq<usize>,
    c: Seq<usize>,
    chains: Seq<Vec<usize>>,
    levels: Seq<usize>,
    l: int,
    seen: Seq<usize>,
    d: Seq<usize>,
    i: int,
    n: int,
)
    requires
        aig.walkable(),
        forall|i: int| 0 <= i < c.len() ==> #[trigger] c[i] < aig.macros.vals().len(),
        forall|m: usize| #[trigger] c.contains(m) <==> in_macro_cone(aig, done, targets, m),
        forall|m: usize| #[trigger] c.contains(m) <==> seen.contains(m),
        chains_ok(aig, chains, seen),
        levels_ok(aig, done, c, chains, levels, l),
        is_plain_chain(aig, done, targets, d),
        links_follow(aig, done, targets, d),
        0 <= i < chains.len(),
        chains[i]@[0] == d[0],
        1 <= n <= d.len(),
    ensures
        chains[i]@.len() >= n,
        forall|k: int| 0 <= k < n ==> chains[i]@[k] == d[k],
    decreases n,
{
    let e = chains[i]@;
    assert(is_chain(aig, chains[i]@));
    if n > 1 {
        lemma_plain_inside(aig, done, targets, c, chains, levels, l, seen, d, i, n - 1);
        let a = d[n - 2];
        let b = d[n - 1];
        assert(e[n - 2] == d[n - 2]);
        assert(carry_feeds(aig, d[n - 2], d[n - 2 + 1]));
        assert(in_macro_cone(aig, done, targets, d[n - 1]) && in_macro_cone(aig, done, targets, d[n - 2]));
        assert(c.contains(a) && c.contains(b));
        assert(c[c.index_of(a)] < aig.macros.vals().len() && c[c.index_of(b)] < aig.macros.vals().len());
        if e.len() >= n {
            assert(succeeds(aig, e, n - 2));
            assert(e.contains(e[n - 1]));
            assert(in_chains(chains, e[n - 1]));
            assert(c.contains(e[n - 1]));
            assert(carry_feeds(aig, d[n - 2], e[n - 1]));
        } else {
            assert(level_ok(aig, done, c, chains, levels, i));
            assert(goes_on(aig, done, c, chains, levels, i));
            assert(e.last() == a);
            assert(c.contains(b) && carry_feeds(aig, e.last(), b));
            if waits_beyond(aig, done, c, chains, levels, levels[i] as int, b, true) {
                let (s, p) = lemma_wait_of(aig, done, c, chains, levels, levels[i] as int, b, true);
                assert(slot_waits(aig, done, d[n - 1], s, p));
                let t = choose|t: int| #[trigger] slot_waits(aig, done, d[0], t, p);
                assert(!waits_beyond(aig, done, c, chains, levels, levels[i] as int, chains[i]@[0], false));
                lemma_no_wait(aig, done, c, chains, levels, levels[i] as int, d[0], false, t, p);
            } else {
                let j = choose|j: int| 0 <= j <= i && (#[trigger] chains[j])@.contains(b);
                let f = chains[j]@;
                let y = f.index_of(b);
                assert(is_chain(aig, chains[j]@));
                assert(level_ok(aig, done, c, chains, levels, j));
                if y > 0 {
                    assert(succeeds(aig, f, y - 1));
                    assert(f[y - 1] == a);
                    assert(same_place(chains, j, y - 1, i, n - 2));
                } else {
                    lemma_carry_waits(aig, done, a, b);
                    assert(!waits_beyond(aig, done, c, chains, levels, levels[j] as int, chains[j]@[0], false));
                    lemma_no_wait(aig, done, c, chains, levels, levels[j] as int, b, false, C4_IN_CI as int, a);
                    let h = choose|h: int|
                        0 <= h < chains.len() && levels[h] < levels[j] && (#[trigger] chains[h])@.contains(a);
                    let z = chains[h]@.index_of(a);
                    assert(same_place(chains, h, z, i, n - 2));
                    if j < i {
                        assert(levels[j] <= levels[i]);
                    }
                }
            }
        }
    }
}

/// Waves run one after another: of the macros that are evaluated, one reads, in
/// what its evaluation and its state wait for, only those of earlier waves, but
/// for a carry that comes from the lane before.
pub proof fn law_waves_run_in_order(
    aig: AIG,
    done: Set<usize>,
    targets: Seq<usize>,
    waves: Seq<Vec<usize>>,
    w: int,
    l: int,
    pin: usize,
    q: usize,
)
    requires
        aig.macros_wf(),
        macro_pins_ok(aig),
        waves_ok(aig, done, targets, waves),
        is_lane(waves, w, l),
        ({
            let m = mac(aig, waves[w]@[l]);
            m.eval_pins().contains(pin) || (m.kind is Srlc32e && m.state_pins().contains(pin))
        }),
        producer(aig, pin) == Some(q),
        in_macro_cone(aig, done, targets, q),
        spec_chain_start(aig, waves[w]@, l) || pin != carry_pin(aig, waves[w]@[l]),
    ensures
        stands_before(waves, w, q),
{
    let x = waves[w]@[l];
    let m = mac(aig, x);
    assert(in_macro_cone(aig, done, targets, x));
    lemma_cone_macro(aig, done, targets, x);
    lemma_cone_macro(aig, done, targets, q);
    assert(m.wf());
    assert(mac(aig, q).wf());
    assert(mac(aig, q).outputs@.contains(pin));
    let o = mac(aig, q).outputs@.index_of(pin);
    lemma_needs_eval(mac(aig, q).kind, o as usize);
    crate::macros::lemma_mid_output(mac(aig, q), o);
    aig.lemma_reaches_self(done, pin);
    assert(reaches_output(aig, done, pin, q));
    let s: int = if m.eval_pins().contains(pin) {
        crate::macros::law_first_occurrences(m.eval_pins_below(m.kind.spec_num_outputs() as nat));
        lemma_eval_slot(m, m.kind.spec_num_outputs() as nat, pin)
    } else {
        lemma_state_slot(m, pin)
    };
    assert(slot_pin(aig, x, s) == pin);
    assert(slot_waits(aig, done, x, s, q));
    assert(s == C4_IN_CI && !spec_chain_start(aig, waves[w]@, l) ==> pin == carry_pin(aig, x));
}

/// A macro that a slot waits for stands in a lane before.
proof fn lemma_lane_before(
    aig: AIG,
    done: Set<usize>,
    targets: Seq<usize>,
    waves: Seq<Vec<usize>>,
    w: int,
    l: int,
    s: int,
    p: usize,
) -> (at: (int, int))
    requires
        aig.macros_wf(),
        macro_pins_ok(aig),
        waves_ok(aig, done, targets, waves),
        is_lane(waves, w, l),
        in_macro_cone(aig, done, targets, p),
        slot_waits(aig, done, waves[w]@[l], s, p),
    ensures
        is_lane(waves, at.0, at.1),
        waves[at.0]@[at.1] == p,
        lane_before(at.0, at.1, w, l),
    decreases l,
{
    let m = waves[w]@[l];
    if spec_chain_start(aig, waves[w]@, l) || s != C4_IN_CI {
        assert(stands_before(waves, w, p));
        choose|v: int, y: int| #[trigger] is_lane(waves, v, y) && v < w && waves[v]@[y] == p
    } else {
        let b = waves[w]@[l - 1];
        assert(is_lane(waves, w, l - 1));
        assert(in_macro_cone(aig, done, targets, b));
        lemma_cone_macro(aig, done, targets, m);
        lemma_cone_macro(aig, done, targets, b);
        lemma_cone_macro(aig, done, targets, p);
        assert(mac(aig, b).wf());
        assert(mac(aig, m).wf());
        assert(mac(aig, p).wf());
        let pin = carry_pin(aig, m);
        assert(slot_pin(aig, m, s) == pin);
        assert(mac(aig, b).outputs@[C4_OUT_CO + 3] == pin);
        assert(producer(aig, pin) == Some(b));
        let q = choose|q: usize| #[trigger] mac(aig, p).mid_outputs().contains(q) && aig.reaches(done, pin, q);
        let o = crate::macros::lemma_mid_slot(mac(aig, p), q);
        assert(producer(aig, mac(aig, p).outputs@[o]) == Some(p));
        if b == p {
            (w, l - 1)
        } else {
            let walk = choose|walk: Seq<usize>| #[trigger]
                aig.is_walk(done, walk) && walk[0] == pin && walk.last() == q;
            assert(walk.len() > 1);
            assert(aig.is_step(done, walk, 0));
            let next = walk.skip(1);
            assert forall|i: int| 0 <= i < next.len() - 1 implies #[trigger] aig.is_step(done, next, i) by {
                assert(aig.is_step(done, walk, i + 1));
            }
            assert(aig.is_walk(done, next));
            assert(aig.reaches(done, walk[1], q));
            aig.macros.lemma_wf();
            let cell = aig.macros.keys()[b as int];
            assert(aig.drivers@[pin as int] == DriverType::Macro(cell, (C4_OUT_CO + 3) as usize));
            assert(aig.macros.at(cell) == mac(aig, b));
            crate::macros::lemma_comb_slots_in_range(mac(aig, b).kind, (C4_OUT_CO + 3) as usize);
            let t = lemma_live_slot(
                mac(aig, b).inputs@,
                mac(aig, b).kind.spec_comb_fanin((C4_OUT_CO + 3) as usize),
                walk[1],
            );
            assert(slot_pin(aig, b, t) == walk[1]);
            assert(reaches_output(aig, done, walk[1], p));
            assert(slot_waits(aig, done, b, t, p));
            lemma_lane_before(aig, done, targets, waves, w, l - 1, t, p)
        }
    }
}

/// The lane of a macro.
spec fn lane_of(waves: Seq<Vec<usize>>, m: usize) -> (int, int) {
    choose|w: int, l: int| #[trigger] is_lane(waves, w, l) && waves[w]@[l] == m
}

/// The number of lanes before a macro's, if all phases had all lanes.
spec fn lane_rank(waves: Seq<Vec<usize>>, m: usize) -> nat {
    (lane_of(waves, m).0 * MACRO_MAX_LANES + lane_of(waves, m).1) as nat
}

/// The rank of the macro in a lane.
proof fn lemma_lane_rank(
    aig: AIG,
    done: Set<usize>,
    targets: Seq<usize>,
    waves: Seq<Vec<usize>>,
    w: int,
    l: int,
)
    requires
        waves_ok(aig, done, targets, waves),
        is_lane(waves, w, l),
    ensures
        lane_rank(waves, waves[w]@[l]) == w * MACRO_MAX_LANES + l,
{
    let at = lane_of(waves, waves[w]@[l]);
    assert(same_lane(waves, w, l, at.0, at.1));
}

/// Macros that can be grouped into waves do not depend on each other in a cycle.
pub proof fn law_waves_leave_no_cycle(aig: AIG, done: Set<usize>, targets: Seq<usize>, waves: Seq<Vec<usize>>)
    requires
        aig.macros_wf(),
        macro_pins_ok(aig),
        waves_ok(aig, done, targets, waves),
    ensures
        exists|rank: spec_fn(usize) -> nat| #[trigger] macros_ranked(aig, done, targets, rank),
{
    let rank = |m: usize| lane_rank(waves, m);
    assert forall|m: usize, s: int, p: usize|
        in_macro_cone(aig, done, targets, m) && in_macro_cone(aig, done, targets, p) && #[trigger] slot_waits(
            aig,
            done,
            m,
            s,
            p,
        ) implies rank(p) < rank(m) by {
        assert(seated(waves, seq![m]));
        let (w, l) = choose|w: int, l: int| #[trigger] sits(waves, w, l, seq![m]);
        assert(waves[w]@.subrange(l, l + 1)[0] == m);
        assert(is_lane(waves, w, l));
        let at = lemma_lane_before(aig, done, targets, waves, w, l, s, p);
        lemma_lane_rank(aig, done, targets, waves, w, l);
        lemma_lane_rank(aig, done, targets, waves, at.0, at.1);
        assert(1 <= waves[at.0]@.len() <= MACRO_MAX_LANES);
    }
    assert(macros_ranked(aig, done, targets, rank));
}

/// A macro that has to be evaluated is one of the graph.
pub(super) proof fn lemma_cone_macro(aig: AIG, done: Set<usize>, targets: Seq<usize>, m: usize)
    requires
        macro_pins_ok(aig),
        in_macro_cone(aig, done, targets, m),
    ensures
        m < aig.macros.vals().len(),
        !(mac(aig, m).kind is Dsp48e2),
{
    let pin = choose|pin: usize| #[trigger]
        in_cone(aig, done, targets, pin) && !done.contains(pin) && producer(aig, pin) == Some(m) && !(mac(
            aig,
            m,
        ).kind is Dsp48e2);
    assert(producer(aig, pin) == Some(m));
}

/// All outputs of carry chains and shift registers have to be evaluated.
proof fn lemma_needs_eval(kind: MacroKind, s: usize)
    requires
        !(kind is Dsp48e2),
        s < kind.spec_num_outputs(),
    ensures
        kind.spec_needs_eval(s),
{
    if kind is Carry4 {
        assert(kind.spec_comb_fanin(s)[0] == C4_IN_CI);
        assert(kind.spec_comb_fanin(s).len() != 0);
    }
}

/// A pin that evaluation waits for is at an input slot.
proof fn lemma_eval_slot(m: MacroInst, n: nat, pin: usize) -> (s: int)
    requires
        m.wf(),
        n <= m.kind.spec_num_outputs(),
        m.eval_pins_below(n).contains(pin),
    ensures
        0 <= s < m.kind.spec_num_inputs(),
        m.inputs@[s] / 2 == pin,
        pin != 0,
    decreases n,
{
    let o = (n - 1) as usize;
    let rest = m.eval_pins_below((n - 1) as nat);
    let all = m.eval_pins_below(n);
    let k = all.index_of(pin);
    if k < rest.len() {
        assert(rest[k] == pin);
        lemma_eval_slot(m, (n - 1) as nat, pin)
    } else {
        let more = m.comb_pins(o);
        assert(more[k - rest.len()] == pin);
        crate::macros::lemma_comb_slots_in_range(m.kind, o);
        lemma_live_slot(m.inputs@, m.kind.spec_comb_fanin(o), pin)
    }
}

/// A live pin is at one of the slots.
proof fn lemma_live_slot(inputs: Seq<usize>, slots: Seq<usize>, pin: usize) -> (s: int)
    requires
        live_pins(inputs, slots).contains(pin),
        forall|i: int| 0 <= i < slots.len() ==> #[trigger] slots[i] < inputs.len(),
    ensures
        0 <= s < inputs.len(),
        inputs[s] / 2 == pin,
        pin != 0,
    decreases slots.len(),
{
    let before = slots.drop_last();
    let rest = live_pins(inputs, before);
    let all = live_pins(inputs, slots);
    let k = all.index_of(pin);
    if k < rest.len() {
        assert(rest[k] == pin);
        assert forall|i: int| 0 <= i < before.len() implies #[trigger] before[i] < inputs.len() by {
            assert(slots[i] == before[i]);
        }
        lemma_live_slot(inputs, before, pin)
    } else {
        assert(slots[slots.len() - 1] < inputs.len());
        slots.last() as int
    }
}

/// A pin that the state of a shift register waits for is at one of its slots.
proof fn lemma_state_slot(m: MacroInst, pin: usize) -> (s: int)
    requires
        m.wf(),
        m.kind is Srlc32e,
        m.state_pins().contains(pin),
    ensures
        0 <= s < dep_slots(m.kind),
        pin == (if s < m.kind.spec_num_inputs() {
            m.inputs@[s] / 2
        } else {
            m.clk_en_iv / 2
        }),
        pin != 0,
{
    let slots = m.kind.spec_state_fanin();
    let live = live_pins(m.inputs@, slots);
    let all = m.state_pins();
    let k = all.index_of(pin);
    let n = all.len() - live.len();
    if k < n {
        m.kind.spec_num_inputs() as int
    } else {
        assert(live[k - n] == pin);
        lemma_state_slots_in_range(m.kind);
        lemma_live_slot(m.inputs@, slots, pin)
    }
}

} // verus!
