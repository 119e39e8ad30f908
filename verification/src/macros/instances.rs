//! What instances of macros read and put out.

use super::{law_first_occurrences, lemma_comb_slots_in_range, lemma_live_pins, live_pins, MacroInst, MacroKind};
use super::laws::{is_output_at, law_evaluation_waits, law_outputs_divided};
use vstd::prelude::*;

verus! {

/// Does one of the input slots from `a` up to `b` have a literal of the pin?
pub open spec fn reads_pin(m: MacroInst, a: int, b: int, v: usize) -> bool {
    exists|i: int| a <= i < b && #[trigger] m.inputs@[i] / 2 == v
}

/// All used outputs of a DSP are there when a cycle starts, those of other macros come with
/// their phase.
pub proof fn law_outputs_are_due(m: MacroInst, v: usize)
    requires
        m.wf(),
    ensures
        m.mid_outputs().contains(v) <==> v != 0 && m.outputs@.contains(v) && !(m.kind is Dsp48e2),
        m.start_outputs().contains(v) <==> v != 0 && m.outputs@.contains(v) && m.kind is Dsp48e2,
{
    law_outputs_divided(m, v);
    assert forall|s: usize| s < m.kind.spec_num_outputs() implies #[trigger] m.kind.spec_needs_eval(s) == !(m.kind
        is Dsp48e2) by {
        if m.kind is Carry4 {
            assert(m.kind.spec_comb_fanin(s)[0] == 0);
        }
    }
    if v != 0 && m.outputs@.contains(v) {
        let s = m.outputs@.index_of(v) as usize;
        assert(m.outputs@[s as int] == v);
        assert(m.kind.spec_needs_eval(s) == !(m.kind is Dsp48e2));
        assert(is_output_at(m, !(m.kind is Dsp48e2), v, s));
    }
}

proof fn lemma_only_read(m: MacroInst, n: nat, v: usize)
    requires
        m.wf(),
        n <= m.kind.spec_num_outputs(),
        m.eval_pins_below(n).contains(v),
    ensures
        v != 0,
        m.kind is Carry4 ==> reads_pin(m, 0, 10, v),
        m.kind is Srlc32e ==> reads_pin(m, 2, 7, v),
        !(m.kind is Dsp48e2),
    decreases n,
{
    let all = m.eval_pins_below(n);
    let rest = m.eval_pins_below((n - 1) as nat);
    let s = (n - 1) as usize;
    let k = all.index_of(v);
    if k < rest.len() {
        assert(rest[k] == v);
        lemma_only_read(m, (n - 1) as nat, v);
    } else {
        let slots = m.kind.spec_comb_fanin(s);
        let pins = m.comb_pins(s);
        assert(pins[k - rest.len()] == v);
        assert(pins.contains(v));
        lemma_live_pins(m.inputs@, slots);
        lemma_comb_slots_in_range(m.kind, s);
        let i = choose|i: int| 0 <= i < slots.len() && m.inputs@[#[trigger] slots[i] as int] / 2 == v;
        assert(slots[i] < m.inputs@.len());
        assert(m.inputs@[slots[i] as int] / 2 == v);
    }
}

/// The phase of a CARRY4 waits for all its inputs, that of an SRLC32E for its address, and
/// for no pin twice. A DSP has no phase.
pub proof fn law_phases_wait_for_inputs(m: MacroInst, v: usize)
    requires
        m.wf(),
    ensures
        m.eval_pins().no_duplicates(),
        m.eval_pins().contains(v) <==> v != 0 && match m.kind {
            MacroKind::Carry4 => reads_pin(m, 0, 10, v),
            MacroKind::Srlc32e => reads_pin(m, 2, 7, v),
            MacroKind::Dsp48e2 { .. } => false,
        },
{
    let n = m.kind.spec_num_outputs() as nat;
    law_first_occurrences(m.eval_pins_below(n));
    if m.eval_pins().contains(v) {
        assert(m.eval_pins_below(n).contains(v));
        lemma_only_read(m, n, v);
    }
    if v != 0 && m.kind is Carry4 && reads_pin(m, 0, 10, v) {
        let i = choose|i: int| 0 <= i < 10 && #[trigger] m.inputs@[i] / 2 == v;
        let slots = m.kind.spec_comb_fanin(7);
        assert(slots.len() == 10);
        let k = if i < 2 {
            i
        } else if i < 6 {
            3 + 2 * (i - 2)
        } else {
            2 + 2 * (i - 6)
        };
        assert(slots[k] == i);
        lemma_live_pins(m.inputs@, slots);
        assert(m.inputs@[slots[k] as int] / 2 == v);
        assert(m.comb_pins(7).contains(v));
        assert(m.kind.spec_needs_eval(7));
        law_evaluation_waits(m, 7, v);
    }
    if v != 0 && m.kind is Srlc32e && reads_pin(m, 2, 7, v) {
        let i = choose|i: int| 2 <= i < 7 && #[trigger] m.inputs@[i] / 2 == v;
        let slots = m.kind.spec_comb_fanin(0);
        assert(slots[i - 2] == i);
        lemma_live_pins(m.inputs@, slots);
        assert(m.inputs@[slots[i - 2] as int] / 2 == v);
        assert(m.comb_pins(0).contains(v));
        law_evaluation_waits(m, 0, v);
    }
}

/// The next state comes from the clock enable, and from all inputs of a DSP, or from data
/// and enable of an SRLC32E.
pub proof fn law_states_come_from_inputs(m: MacroInst, v: usize)
    requires
        m.wf(),
    ensures
        m.state_pins().contains(v) <==> v != 0 && (m.clk_en_iv / 2 == v || match m.kind {
            MacroKind::Carry4 => false,
            MacroKind::Srlc32e => reads_pin(m, 0, 2, v),
            MacroKind::Dsp48e2 { .. } => reads_pin(m, 0, m.inputs@.len() as int, v),
        }),
{
    let slots = m.kind.spec_state_fanin();
    let live = live_pins(m.inputs@, slots);
    let all = m.state_pins();
    let c = all.len() - live.len();
    lemma_live_pins(m.inputs@, slots);
    if all.contains(v) {
        let k = all.index_of(v);
        if k >= c {
            assert(live[k - c] == v);
            assert(live.contains(v));
            let i = choose|i: int| 0 <= i < slots.len() && m.inputs@[#[trigger] slots[i] as int] / 2 == v;
            assert(m.inputs@[slots[i] as int] / 2 == v);
        }
    }
    if v != 0 && m.clk_en_iv / 2 == v {
        assert(all[0] == v);
    }
    if v != 0 && !(m.kind is Carry4) && reads_pin(m, 0, slots.len() as int, v) {
        let i = choose|i: int| 0 <= i < slots.len() && #[trigger] m.inputs@[i] / 2 == v;
        assert(slots[i] == i);
        assert(m.inputs@[slots[i] as int] / 2 == v);
        assert(live.contains(v));
        assert(all[c + live.index_of(v)] == v);
    }
}

/// An output depends on the pins at its slots, but for constants.
pub proof fn law_outputs_follow_slots(m: MacroInst, slot: usize, v: usize)
    ensures
        m.comb_pins(slot).contains(v) <==> v != 0 && exists|s: usize|
            m.kind.spec_comb_fanin(slot).contains(s) && #[trigger] m.inputs@[s as int] / 2 == v,
{
    let slots = m.kind.spec_comb_fanin(slot);
    lemma_live_pins(m.inputs@, slots);
    if m.comb_pins(slot).contains(v) {
        let i = choose|i: int| 0 <= i < slots.len() && m.inputs@[#[trigger] slots[i] as int] / 2 == v;
        assert(slots.contains(slots[i]) && m.inputs@[slots[i] as int] / 2 == v);
    }
    if v != 0 && exists|s: usize| slots.contains(s) && #[trigger] m.inputs@[s as int] / 2 == v {
        let s = choose|s: usize| slots.contains(s) && #[trigger] m.inputs@[s as int] / 2 == v;
        assert(slots[slots.index_of(s)] == s);
        assert(m.inputs@[slots[slots.index_of(s)] as int] / 2 == v);
    }
}

} // verus!
