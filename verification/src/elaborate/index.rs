//! Finding macros by what they drive.

use super::cells::{slot_pin, find_slot_pin, BuildError, CellKind};
use super::elements::{element_fault, feeds_output, goes_into_element, lemma_gated_fault, lits_known, macro_ok};
use super::rules::{is_gated, lit_or, macro_drives, macro_out, macro_slot_ok, macros_ok};
use crate::aig::{defined, DriverType, AIG};
use crate::collections::{map_insert, map_new, map_view, Table};
use crate::macros::{lemma_comb_slots_in_range, MacroInst};
use crate::netlist::Netlist;
use indexmap::IndexMap;
use vstd::prelude::*;

verus! {

/// The positions of the first `n` macros that are endpoints.
pub open spec fn endpoint_macros(macros: Seq<MacroInst>, n: nat) -> Seq<usize>
    decreases n,
{
    if n == 0 {
        Seq::empty()
    } else {
        let rest = endpoint_macros(macros, (n - 1) as nat);
        if macros[n - 1].kind.spec_is_endpoint() {
            rest.push((n - 1) as usize)
        } else {
            rest
        }
    }
}

/// Does the map lead from each output of the first `n` macros to its macro?
pub open spec fn macro_index_ok(macros: Seq<MacroInst>, n: int, map: Map<usize, usize>) -> bool {
    &&& forall|i: int, s: int|
        0 <= i < n && 0 <= s < macros[i].outputs@.len() && #[trigger] macros[i].outputs@[s] != 0 ==> map.contains_key(
            macros[i].outputs@[s],
        ) && map[macros[i].outputs@[s]] == i
    &&& forall|pin: usize| #[trigger]
        map.contains_key(pin) ==> pin != 0 && map[pin] < n && macros[map[pin] as int].outputs@.contains(pin)
}

/// Are the outputs of macros different pins?
pub open spec fn outputs_apart(macros: Table<MacroInst>, drivers: Seq<DriverType>) -> bool {
    forall|i: int, s: int|
        0 <= i < macros.vals().len() && 0 <= s < macros.vals()[i].outputs@.len()
            && #[trigger] macros.vals()[i].outputs@[s] != 0 ==> macros.vals()[i].outputs@[s] < drivers.len()
            && s <= usize::MAX && drivers[macros.vals()[i].outputs@[s] as int] == DriverType::Macro(
            macros.keys()[i],
            s as usize,
        )
}

/// Finds the macros that are endpoints, and the macro that drives each output.
pub fn index_macros(aig: &AIG) -> (r: (Vec<usize>, IndexMap<usize, usize>))
    requires
        aig.macros.wf(),
        outputs_apart(aig.macros, aig.drivers@),
    ensures
        r.0@ == endpoint_macros(aig.macros.vals(), aig.macros.vals().len()),
        macro_index_ok(aig.macros.vals(), aig.macros.vals().len() as int, map_view(r.1)),
{
    let ghost vals = aig.macros.vals();
    let n = aig.macros.len();
    let mut stateful: Vec<usize> = Vec::new();
    let mut map = map_new();
    proof {
        aig.macros.lemma_wf();
    }
    let mut i: usize = 0;
    while i < n
        invariant
            aig.macros.wf(),
            aig.macros.keys().no_duplicates(),
            aig.macros.keys().len() == n,
            outputs_apart(aig.macros, aig.drivers@),
            vals == aig.macros.vals(),
            n == vals.len(),
            i <= n,
            stateful@ == endpoint_macros(vals, i as nat),
            macro_index_ok(vals, i as int, map_view(map)),
        decreases n - i,
    {
        let m = aig.macros.value(i);
        if m.kind.is_endpoint() {
            stateful.push(i);
        }
        let ghost map0 = map_view(map);
        let k = m.outputs.len();
        let mut s: usize = 0;
        while s < k
            invariant
                aig.macros.wf(),
                aig.macros.keys().no_duplicates(),
                aig.macros.keys().len() == n,
                outputs_apart(aig.macros, aig.drivers@),
                vals == aig.macros.vals(),
                n == vals.len(),
                i < n,
                *m == vals[i as int],
                k == m.outputs@.len(),
                s <= k,
                macro_index_ok(vals, i as int, map0),
                forall|pin: usize| #[trigger]
                    map_view(map).contains_key(pin) ==> pin != 0 && map_view(map)[pin] <= i && (if map_view(map)[pin]
                        < i {
                        map0.contains_key(pin) && map0[pin] == map_view(map)[pin]
                    } else {
                        m.outputs@.contains(pin)
                    }),
                forall|pin: usize| #[trigger] map0.contains_key(pin) ==> map_view(map).contains_key(pin),
                forall|pin: usize|
                    map0.contains_key(pin) && !m.outputs@.contains(pin) ==> #[trigger] map_view(map)[pin]
                        == map0[pin],
                forall|t: int|
                    0 <= t < s && #[trigger] m.outputs@[t] != 0 ==> map_view(map).contains_key(m.outputs@[t])
                        && map_view(map)[m.outputs@[t]] == i,
            decreases k - s,
        {
            let o = m.outputs[s];
            assert(m.outputs@.contains(o));
            if o != 0 {
                let _ = map_insert(&mut map, o, i);
            }
            s += 1;
        }
        proof {
            let map1 = map_view(map);
            assert forall|j: int, t: int|
                0 <= j < i + 1 && 0 <= t < vals[j].outputs@.len() && #[trigger] vals[j].outputs@[t] != 0
                    implies map1.contains_key(
            vals[j].outputs@[t]) && map1[vals[j].outputs@[t]] == j by {
                let o = vals[j].outputs@[t];
                if j < i {
                    assert(map0.contains_key(o) && map0[o] == j);
                    if m.outputs@.contains(o) {
                        let u = m.outputs@.index_of(o);
                        assert(vals[i as int].outputs@[u] == o);
                        assert(aig.drivers@[o as int] == DriverType::Macro(aig.macros.keys()[i as int], u as usize));
                        assert(aig.drivers@[o as int] == DriverType::Macro(aig.macros.keys()[j], t as usize));
                        assert(aig.macros.keys()[i as int] == aig.macros.keys()[j]);
                        assert(false);
                    }
                }
            }
            assert forall|pin: usize| #[trigger] map1.contains_key(pin) implies pin != 0 && map1[pin] < i + 1
                && vals[map1[pin] as int].outputs@.contains(pin) by {
                if map1[pin] < i {
                    assert(map0.contains_key(pin));
                }
            }
        }
        i += 1;
    }
    (stateful, map)
}

/// Outputs of macros are different pins.
pub(crate) proof fn lemma_outputs_apart(nl: Netlist, macros: Table<MacroInst>, drivers: Seq<DriverType>,
    lits: Seq<usize>, order: Seq<usize>)
    requires
        macros_ok(nl, macros, drivers, lits, order),
    ensures
        outputs_apart(macros, drivers),
        forall|i: int| 0 <= i < macros.vals().len() ==> (#[trigger] macros.vals()[i]).wf(),
{
    macros.lemma_wf();
    assert forall|i: int| 0 <= i < macros.vals().len() implies (#[trigger] macros.vals()[i]).wf() by {
        lemma_at_key(macros, i);
    }
    assert forall|i: int, s: int|
        0 <= i < macros.vals().len() && 0 <= s < macros.vals()[i].outputs@.len()
            && #[trigger] macros.vals()[i].outputs@[s] != 0 implies macros.vals()[i].outputs@[s] < drivers.len() && s
        <= usize::MAX && drivers[macros.vals()[i].outputs@[s] as int] == DriverType::Macro(
        macros.keys()[i],
        s as usize,
    ) by {
        lemma_at_key(macros, i);
        let c = macros.keys()[i];
        assert(macro_slot_ok(nl, drivers, lits, c, s, macros.at(c).outputs@[s]));
    }
}

/// The value at the position of a key.
pub(crate) proof fn lemma_at_key<V>(t: Table<V>, i: int)
    requires
        t.wf(),
        0 <= i < t.vals().len(),
    ensures
        t.has(t.keys()[i]),
        t.at(t.keys()[i]) == t.vals()[i],
{
    t.lemma_wf();
    let k = t.keys()[i];
    assert(t.keys().contains(k));
    assert(t.keys()[t.keys().index_of(k)] == k);
}

/// Are the literals that an output of a macro depends on defined?
spec fn slot_clean(m: MacroInst, slot: usize) -> bool {
    forall|k: int|
        0 <= k < m.kind.spec_comb_fanin(slot).len() ==> defined(
            m.inputs@[#[trigger] m.kind.spec_comb_fanin(slot)[k] as int],
        )
}

/// Checks that no used output of a macro depends on a gated clock.
pub(crate) fn check_macro_inputs(aig: &AIG, nl: &Netlist, Ghost(order): Ghost<Seq<usize>>) -> (r: Result<
    (),
    BuildError,
>)
    requires
        nl.wf(),
        aig.pins_wf(*nl),
        macros_ok(*nl, aig.macros, aig.drivers@, aig.pin2aigpin_iv@, order),
        forall|c: usize| #[trigger]
            aig.macros.has(c) ==> macro_ok(*nl, aig.drivers@, aig.pin2aigpin_iv@, c, aig.macros.at(c)),
        lits_known(*nl, aig.pin2aigpin_iv@),
    ensures
        r is Ok ==> aig.walkable(),
        r matches Err(e) ==> e is GatedClock && element_fault(*nl, e),
{
    let ghost lits = aig.pin2aigpin_iv@;
    let n = aig.drivers.len();
    let mut u: usize = 0;
    while u < n
        invariant
            nl.wf(),
            aig.pins_wf(*nl),
            macros_ok(*nl, aig.macros, aig.drivers@, aig.pin2aigpin_iv@, order),
            forall|c: usize| #[trigger]
                aig.macros.has(c) ==> macro_ok(*nl, aig.drivers@, aig.pin2aigpin_iv@, c, aig.macros.at(c)),
            lits_known(*nl, lits),
            lits == aig.pin2aigpin_iv@,
            n == aig.drivers@.len(),
            u <= n,
            forall|v: int|
                0 <= v < u ==> (#[trigger] aig.drivers@[v] matches DriverType::Macro(c, s) ==> slot_clean(
                    aig.macros.at(c),
                    s,
                )),
        decreases n - u,
    {
        if let DriverType::Macro(c, slot) = aig.drivers[u] {
            assert(aig.macros.has(c));
            if let Some(m) = aig.macros.get(c) {
                proof {
                    assert(macro_ok(*nl, aig.drivers@, lits, c, *m));
                    lemma_comb_slots_in_range(m.kind, slot);
                }
                let slots = m.kind.comb_fanin_of_output(slot);
                let mut k: usize = 0;
                while k < slots.len()
                    invariant
                        nl.wf(),
                        aig.pins_wf(*nl),
                        macros_ok(*nl, aig.macros, aig.drivers@, aig.pin2aigpin_iv@, order),
                        lits_known(*nl, lits),
                        lits == aig.pin2aigpin_iv@,
                        u < aig.drivers@.len(),
                        aig.drivers@[u as int] == DriverType::Macro(c, slot),
                        aig.macros.has(c),
                        *m == aig.macros.at(c),
                        macro_ok(*nl, aig.drivers@, lits, c, *m),
                        slots@ == m.kind.spec_comb_fanin(slot),
                        forall|i: int| 0 <= i < slots@.len() ==> #[trigger] slots@[i] < m.kind.spec_num_inputs(),
                        k <= slots@.len(),
                        forall|j: int| 0 <= j < k ==> defined(m.inputs@[#[trigger] slots@[j] as int]),
                    decreases slots@.len() - k,
                {
                    let s = slots[k];
                    if m.inputs[s] / 2 == usize::MAX / 2 {
                        let pin = find_slot_pin(nl, c, m.kind, s);
                        if let Some(d) = pin {
                            proof {
                                assert(!defined(lits[d as int]));
                                assert(is_gated(*nl, d));
                                let o = m.outputs@[slot as int];
                                assert(o != 0);
                                assert(macro_slot_ok(*nl, aig.drivers@, lits, c, slot as int, o));
                                let p = choose|p: usize|
                                    p < nl.num_pins() && #[trigger] macro_out(*nl, p) == Some((c, slot))
                                        && lits[p as int] == o * 2;
                                assert(macro_drives(*nl, lits, c, slot as int, o));
                                assert(m.kind.spec_comb_fanin(slot).contains(s)) by {
                                    assert(slots@[k as int] == s);
                                }
                                assert(feeds_output(*nl, c, m.kind, d, p, s));
                                assert(nl.kind(c) == CellKind::Macro(m.kind));
                                assert(c < nl.num_cells());
                                assert(goes_into_element(*nl, d, c));
                                lemma_gated_fault(*nl, d, c);
                            }
                            return Err(BuildError::GatedClock(d));
                        }
                        proof {
                            assert(m.inputs@[s as int] == m.kind.spec_default_input(s));
                            assert(false);
                        }
                    }
                    k += 1;
                }
                assert(slot_clean(*m, slot));
            }
        }
        u += 1;
    }
    proof {
        lemma_outputs_apart(*nl, aig.macros, aig.drivers@, lits, order);
        assert forall|v: usize, w: usize| v <= aig.num_aigpins && #[trigger] aig.fanin(v).contains(w) implies w
            <= aig.num_aigpins by {
            match aig.drivers@[v as int] {
                DriverType::AndGate(a, b) => {
                    crate::aig::lemma_nonzero(seq![(a / 2) as usize, (b / 2) as usize], w);
                },
                DriverType::Macro(c, s) => {
                    let m = aig.macros.at(c);
                    assert(aig.macros.has(c));
                    assert(macro_ok(*nl, aig.drivers@, lits, c, m));
                    assert(slot_clean(m, s));
                    lemma_comb_slots_in_range(m.kind, s);
                    lemma_live_source(m.inputs@, m.kind.spec_comb_fanin(s), w);
                    let k = choose|k: int|
                        0 <= k < m.kind.spec_comb_fanin(s).len() && w == m.inputs@[#[trigger] m.kind.spec_comb_fanin(
                            s,
                        )[k] as int] / 2;
                    let slot = m.kind.spec_comb_fanin(s)[k];
                    assert(defined(m.inputs@[slot as int]));
                    assert(m.inputs@[slot as int] == lit_or(
                        lits,
                        slot_pin(*nl, m.kind, nl.pins(c), slot as int),
                        m.kind.spec_default_input(slot),
                    ));
                    super::cells::lemma_slot_pin(*nl, m.kind, c, nl.pins(c), slot as int);
                },
                _ => {},
            }
        }
    }
    Ok(())
}

/// Live pins come from the slots.
pub(super) proof fn lemma_live_source(inputs: Seq<usize>, slots: Seq<usize>, w: usize)
    requires
        crate::macros::live_pins(inputs, slots).contains(w),
    ensures
        exists|k: int| 0 <= k < slots.len() && w == inputs[#[trigger] slots[k] as int] / 2,
    decreases slots.len(),
{
    let all = crate::macros::live_pins(inputs, slots);
    if slots.len() > 0 {
        let before = slots.drop_last();
        let rest = crate::macros::live_pins(inputs, before);
        let i = all.index_of(w);
        if i < rest.len() {
            assert(rest[i] == w);
            assert(rest.contains(w));
            lemma_live_source(inputs, before, w);
            let k = choose|k: int| 0 <= k < before.len() && w == inputs[#[trigger] before[k] as int] / 2;
            assert(slots[k] == before[k]);
        } else {
            assert(slots[slots.len() - 1] == slots.last());
        }
    }
}

} // verus!
