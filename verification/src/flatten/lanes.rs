//! What the words of a macro phase mean to the machine that runs it.

use super::execute::is_runnable;
use super::laws::{is_lane_output, lemma_output_position, output_position};
use super::local::{first_slot, is_phase_pin};
use super::machine::lemma_script_parts;
use super::part::FlatteningPart;
use super::phase::{
    claim_lanes, claim_outputs, descriptor, lane_fine, phase_end, phase_fine, phase_start, phase_words, produces,
    state_off_of, Claimed,
};
use super::run::{lane_at, lemma_lane_at, lemma_scatters, scatters};
use super::script::script_ok;
use crate::aig::AIG;
use crate::macros::{MacroInst, MacroKind, MACRO_MAX_LANES};
use crate::pe::partition::{MacroLane, Partition};
use crate::pe::waves::{mac, macro_pins_ok, producer};
use vstd::prelude::*;

verus! {

/// The fields of a lane's descriptor are found: its kind in the two lowest bits,
/// whether it starts a chain in bit 2, that it is used in bit 3, and where its
/// state is in the upper half.
pub proof fn law_lanes_are_described(
    aig: AIG,
    lanes: Seq<MacroLane>,
    off: Map<usize, u32>,
    pos: Map<usize, usize>,
    occ: Seq<bool>,
    l: int,
)
    requires
        phase_fine(aig, lanes, pos, occ),
        0 <= l < 32,
    ensures
        phase_words(aig, lanes, off, pos, occ).len() == 384,
        ({
            let d = lane_at(phase_words(aig, lanes, off, pos, occ), l)[0];
            if l < lanes.len() {
                &&& d % 4 == (if mac(aig, lanes[l].macro_i).kind is Srlc32e {
                    1
                } else {
                    0int
                })
                &&& d / 4 % 2 == (if lanes[l].chain_start {
                    1
                } else {
                    0int
                })
                &&& d / 8 % 2 == 1
                &&& off.contains_key(lanes[l].macro_i) && off[lanes[l].macro_i] < 0x1_0000 ==> d / 0x1_0000
                    == off[lanes[l].macro_i]
            } else {
                d == 0
            }
        }),
{
    let c = phase_start(occ, pos);
    lemma_lane_at(aig, lanes, MACRO_MAX_LANES as nat, off, pos, c, l);
    if l < lanes.len() {
        let m = mac(aig, lanes[l].macro_i);
        let o = state_off_of(off, lanes[l].macro_i);
        let k = m.kind.spec_script_kind_code();
        let b: u32 = if lanes[l].chain_start {
            4u32
        } else {
            0u32
        };
        let d = descriptor(m, lanes[l].chain_start, o);
        assert(d == k | b | 8u32 | (o << 16u32));
        assert(d % 4 == k && d / 4 % 2 == b / 4 && d / 8 % 2 == 1 && (o < 0x1_0000 ==> d / 0x1_0000 == o))
            by (bit_vector)
            requires
                d == k | b | 8u32 | (o << 16u32),
                k <= 1,
                b == 0 || b == 4,
        ;
    }
}

/// Every output of a macro that is used gets a place: its lane puts it at a position
/// that nothing else is at, and it is found there once the phase has run.
pub proof fn law_lanes_put_out_all_outputs(
    aig: AIG,
    lanes: Seq<MacroLane>,
    off: Map<usize, u32>,
    pos: Map<usize, usize>,
    occ: Seq<bool>,
    l: int,
    s: int,
)
    requires
        phase_fine(aig, lanes, pos, occ),
        occ.len() == 8192,
        0 <= l < lanes.len(),
        0 <= s < mac(aig, lanes[l].macro_i).kind.spec_num_outputs(),
        mac(aig, lanes[l].macro_i).outputs@[s] != 0,
    ensures
        phase_end(aig, lanes, pos, occ).next.contains_key(mac(aig, lanes[l].macro_i).outputs@[s]),
        exists|p: int|
            0 <= p < 8192 && !occ[p] && #[trigger] scatters(phase_words(aig, lanes, off, pos, occ), l, s, p),
{
    let m = mac(aig, lanes[l].macro_i);
    let c = phase_start(occ, pos);
    assert(lane_fine(aig, lanes, l, pos, c));
    lemma_needs_eval(m.kind, s as usize);
    assert(produces(m, s));
    assert(is_lane_output(aig, lanes, l, s));
    lemma_output_position(aig, lanes, pos, occ, l, s);
    let p = output_position(aig, lanes, l, s, c);
    lemma_scatters(aig, lanes, off, pos, occ, l, s, p);
    assert(scatters(phase_words(aig, lanes, off, pos, occ), l, s, p));
    let d = claim_lanes(aig, lanes, l as nat, c);
    lemma_outputs_known(m, s, 8, d);
    lemma_lanes_known(aig, lanes, (l + 1) as nat, lanes.len(), c, m.outputs@[s]);
}

/// All outputs of macros in lanes are evaluated there.
proof fn lemma_needs_eval(kind: MacroKind, s: usize)
    requires
        !(kind is Dsp48e2),
        s < kind.spec_num_outputs(),
    ensures
        kind.spec_needs_eval(s),
        s < 8,
{
    if kind is Carry4 {
        assert(kind.spec_comb_fanin(s).len() >= 2);
    }
}

proof fn lemma_outputs_known(m: MacroInst, s: int, n: nat, c: Claimed)
    requires
        produces(m, s),
        s < n,
    ensures
        claim_outputs(m, n, c).next.contains_key(m.outputs@[s]),
    decreases n,
{
    if s < n - 1 {
        lemma_outputs_known(m, s, (n - 1) as nat, c);
    }
}

proof fn lemma_outputs_kept(m: MacroInst, n: nat, c: Claimed, pin: usize)
    requires
        c.next.contains_key(pin),
    ensures
        claim_outputs(m, n, c).next.contains_key(pin),
    decreases n,
{
    if n > 0 {
        lemma_outputs_kept(m, (n - 1) as nat, c, pin);
    }
}

proof fn lemma_lanes_known(aig: AIG, lanes: Seq<MacroLane>, l: nat, n: nat, c: Claimed, pin: usize)
    requires
        l <= n,
        claim_lanes(aig, lanes, l, c).next.contains_key(pin),
    ensures
        claim_lanes(aig, lanes, n, c).next.contains_key(pin),
    decreases n,
{
    if l < n {
        lemma_lanes_known(aig, lanes, l, (n - 1) as nat, c, pin);
        lemma_outputs_kept(mac(aig, lanes[n - 1].macro_i), 8, claim_lanes(aig, lanes, (n - 1) as nat, c), pin);
    }
}

/// A pin comes from a phase if and only if a CARRY4 or an SRLC32E drives it; all other pins
/// are read from the state.
pub proof fn law_phases_produce_macro_outputs(aig: AIG, pin: usize)
    requires
        aig.macros_wf(),
        macro_pins_ok(aig),
    ensures
        is_phase_pin(aig, pin) <==> exists|m: usize|
            m < aig.macros.vals().len() && pin != 0 && #[trigger] mac(aig, m).outputs@.contains(pin) && !(mac(
                aig,
                m,
            ).kind is Dsp48e2),
{
    if let Some(m) = producer(aig, pin) {
        let inst = mac(aig, m);
        assert(inst.wf());
        lemma_first_slot(inst.outputs@, pin);
        let s = first_slot(inst.outputs@, pin).unwrap();
        if !(inst.kind is Dsp48e2) {
            lemma_needs_eval(inst.kind, s as usize);
            assert(mac(aig, m).outputs@.contains(pin));
        }
    }
    if exists|m: usize|
        m < aig.macros.vals().len() && pin != 0 && #[trigger] mac(aig, m).outputs@.contains(pin) && !(mac(
            aig,
            m,
        ).kind is Dsp48e2) {
        let m = choose|m: usize|
            m < aig.macros.vals().len() && pin != 0 && #[trigger] mac(aig, m).outputs@.contains(pin) && !(mac(
                aig,
                m,
            ).kind is Dsp48e2);
        let s = mac(aig, m).outputs@.index_of(pin);
        assert(mac(aig, m).outputs@[s] != 0);
        assert(producer(aig, pin) == Some(m));
    }
}

proof fn lemma_first_slot(outputs: Seq<usize>, pin: usize)
    ensures
        outputs.contains(pin) ==> first_slot(outputs, pin) is Some,
        first_slot(outputs, pin) matches Some(s) ==> 0 <= s < outputs.len() && outputs[s] == pin,
    decreases outputs.len(),
{
    if outputs.len() > 0 {
        let before = outputs.drop_last();
        lemma_first_slot(before, pin);
        if outputs.contains(pin) {
            let i = outputs.index_of(pin);
            if i < before.len() {
                assert(before[i] == pin);
            }
        }
    }
}

/// The header of a script tells what its partition runs: word 0 the number of stages, word
/// 8 that of macro phases. For each phase there is a word from 11 on, with the stage before
/// which it runs in the upper half and the number of its lanes in the lower one; what is
/// left up to word 128 is zero.
pub proof fn law_headers_list_phases(
    aig: AIG,
    p: FlatteningPart,
    part: Partition,
    im: Map<usize, u32>,
    sm: Map<usize, u32>,
    off: Map<usize, u32>,
    script: Seq<u32>,
    w: int,
)
    requires
        script_ok(aig, p, part, im, sm, off, script),
        is_runnable(part),
        part.macro_stages@.len() <= 117,
        11 <= w < 128,
    ensures
        script.len() >= 256,
        script[0] == part.stages@.len(),
        script[8] == part.macro_stages@.len(),
        w - 11 < part.macro_stages@.len() ==> script[w] / 0x1_0000 == part.macro_stages@[w - 11].after_stage
            && script[w] % 0x1_0000 == part.macro_stages@[w - 11].lanes@.len(),
        w - 11 >= part.macro_stages@.len() ==> script[w] == 0,
{
    let rounds = lemma_script_parts(aig, p, part, im, sm, off, script);
    let head = script.subrange(0, 128);
    assert(head[0] == script[0] && head[8] == script[8] && head[w] == script[w]);
    if w - 11 < part.macro_stages@.len() {
        let ms = part.macro_stages@[w - 11];
        let x = ms.after_stage as u32;
        let y = ms.lanes@.len() as u32;
        assert(script[w] == (x << 16) | y);
        assert(((x << 16) | y) / 0x1_0000 == x && ((x << 16) | y) % 0x1_0000 == y) by (bit_vector)
            requires
                x <= 255,
                y <= 32,
        ;
    }
}

} // verus!
