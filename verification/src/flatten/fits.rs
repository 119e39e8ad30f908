//! What is built as a partition can be flattened.

use super::error::FlattenError;
use super::gates::{all_fed, row_there, slot_fed};
use super::laws::is_lane_output;
use super::layout::{all_outs, indexed_last, lemma_written_outs, stage_shaped};
use super::local::{is_phase_pin, is_read_pin, read_occupancy};
use super::outputs::{all_fine, dsp_coded, group_fault, group_fine, group_of, ram_coded};
use super::part::{count_dsps, part_shaped, words_needed};
use super::phase::{
    claim_lanes, claim_outputs, gathers_slot, inputs_there, macro_fault, phase_end, phase_fault, phase_fine,
    phase_start, produces, Claimed,
};
use super::script::{
    body_fault, continues, law_linked_partition_flattens, lemma_body_fault, lemma_row_after, occupied_after,
    positions_after, script_fault, start_ok, starts_from_state,
};
use super::stages::{groups_placed, part_fault};
use super::tables::has_code;
use crate::aig::{nonzero, ram_pins, DriverType, EndpointGroup, RAMBlock, AIG};
use crate::collections::map_view;
use crate::macros::{
    carry_links, law_first_occurrences, lemma_live, pin_of, MacroInst, MacroKind, C4_IN_CI, C4_IN_CYINIT, C4_IN_DI,
    C4_IN_S, C4_OUT_CO, DSP_NUM_INPUTS, MACRO_LANE_OUT_SLOTS, MACRO_MAX_LANES, SRL_IN_A, SRL_OUT_Q,
};
use crate::pe::budget::{
    are_groups, count_dups, activations, count_words, endpoint_pins, endpoints_readable, over_budget,
    partition_targets,
};
use crate::pe::cone::in_cone;
use crate::pe::grid::{is_slot, width};
use crate::pe::partition::{
    given_pins, last_holds, MacroLane, partition_ok, partition_with, phase_ok, schedulable, seeded, Partition,
};
use crate::pe::rounds::{gates_only, slot_backed, stage_backed, written_in};
use crate::pe::waves::{gathers, gathers_at, in_macro_cone, is_lane, is_needed_slot, mac, producer, spec_chain_start};
use crate::staging::StagedAIG;
use vstd::prelude::*;

verus! {

/// Are the macros that are endpoints DSPs?
pub open spec fn dsps_only(aig: AIG) -> bool {
    forall|i: int| 0 <= i < aig.stateful_macros@.len() ==> mac(aig, #[trigger] aig.stateful_macros@[i]).kind is Dsp48e2
}

/// Does an endpoint group store a constant that has no place in the state: a
/// primary output of a constant, or a flip-flop of constant one?
pub open spec fn stores_constant(g: EndpointGroup) -> bool {
    match g {
        EndpointGroup::PrimaryOutput(idx) => idx < 2,
        EndpointGroup::StagedIOPin(idx) => idx == 0,
        EndpointGroup::DFF(dff) => dff.d_iv == 1,
        _ => false,
    }
}

/// Does no endpoint group store a constant that has no place?
pub open spec fn constant_free(aig: AIG, staged: StagedAIG, endpoints: Seq<usize>) -> bool {
    forall|i: int| 0 <= i < endpoints.len() ==> !stores_constant(staged.group(&aig, #[trigger] endpoints[i] as int))
}

proof fn lemma_nonzero_kept(s: Seq<usize>, i: int)
    requires
        0 <= i < s.len(),
        s[i] != 0,
    ensures
        nonzero(s).contains(s[i]),
    decreases s.len(),
{
    let rest = nonzero(s.drop_last());
    let all = nonzero(s);
    if i == s.len() - 1 {
        assert(all[all.len() - 1] == s[i]);
    } else {
        lemma_nonzero_kept(s.drop_last(), i);
        assert(s.drop_last()[i] == s[i]);
        assert(all[rest.index_of(s[i])] == s[i]);
    }
}

proof fn lemma_group_read(aig: AIG, staged: StagedAIG, endpoints: Seq<usize>, i: int, pin: usize)
    requires
        0 <= i < endpoints.len(),
        staged.group(&aig, endpoints[i] as int).input_pins().contains(pin),
    ensures
        endpoint_pins(aig, staged, endpoints).contains(pin),
    decreases endpoints.len(),
{
    let before = endpoints.drop_last();
    let rest = endpoint_pins(aig, staged, before);
    let last = staged.group(&aig, endpoints.last() as int).input_pins();
    let all = endpoint_pins(aig, staged, endpoints);
    if i == endpoints.len() - 1 {
        assert(all[rest.len() + last.index_of(pin)] == pin);
    } else {
        assert(before[i] == endpoints[i]);
        lemma_group_read(aig, staged, before, i, pin);
        assert(all[rest.index_of(pin)] == pin);
    }
}

/// A pin that an endpoint group reads has a position among the bits that are
/// written out.
proof fn lemma_placed(
    aig: AIG,
    staged: StagedAIG,
    p: Partition,
    waves: Seq<Vec<usize>>,
    pins: Map<usize, usize>,
    i: int,
    pin: usize,
)
    requires
        schedulable(aig),
        staged.wf(aig),
        are_groups(staged, p.endpoints@),
        partition_with(aig, staged, p.endpoints@, waves, p),
        forall|k: int| 0 <= k < p.stages@.len() ==> stage_shaped(#[trigger] p.stages@[k]),
        indexed_last(all_outs(p.stages@), pins),
        0 <= i < p.endpoints@.len(),
        staged.group(&aig, p.endpoints@[i] as int).input_pins().contains(pin),
    ensures
        pins.contains_key(pin),
{
    let all = endpoint_pins(aig, staged, p.endpoints@);
    lemma_group_read(aig, staged, p.endpoints@, i, pin);
    law_first_occurrences(all);
    let targets = partition_targets(aig, staged, p.endpoints@);
    assert(targets.contains(pin));
    assert(written_in(p.stages@, pin));
    lemma_written_outs(p.stages@, pin);
    crate::pe::budget::lemma_group_pins(aig, staged, p.endpoints@[i] as int);
    let g = staged.group(&aig, p.endpoints@[i] as int).input_pins();
    assert(g[g.index_of(pin)] <= aig.num_aigpins);
}

/// An SRAM reads the pins of all its literals.
proof fn lemma_ram_reads(r: RAMBlock, k: int)
    requires
        0 <= k < 91,
        ram_pins(r)[k] != 0,
    ensures
        nonzero(ram_pins(r)).contains(ram_pins(r)[k]),
{
    lemma_nonzero_kept(ram_pins(r), k);
}

/// The inputs of an SRAM have positions.
proof fn lemma_ram_coded(pins: Map<usize, usize>, r: RAMBlock)
    requires
        forall|pin: usize| #[trigger] nonzero(ram_pins(r)).contains(pin) ==> pins.contains_key(pin),
    ensures
        ram_coded(pins, r),
{
    let s = ram_pins(r);
    assert(has_code(pins, r.port_r_en_iv)) by {
        assert(s[0] == r.port_r_en_iv / 2);
        if s[0] != 0 {
            lemma_ram_reads(r, 0);
        }
    }
    assert forall|k: int| 0 <= k < 13 implies has_code(pins, #[trigger] r.port_r_addr_iv@[k]) by {
        assert(s[1 + 2 * k] == r.port_r_addr_iv@[k] / 2);
        if s[1 + 2 * k] != 0 {
            lemma_ram_reads(r, 1 + 2 * k);
        }
    }
    assert forall|k: int| 0 <= k < 13 implies has_code(pins, #[trigger] r.port_w_addr_iv@[k]) by {
        assert(s[2 + 2 * k] == r.port_w_addr_iv@[k] / 2);
        if s[2 + 2 * k] != 0 {
            lemma_ram_reads(r, 2 + 2 * k);
        }
    }
    assert forall|k: int| 0 <= k < 32 implies has_code(pins, #[trigger] r.port_w_wr_en_iv@[k]) by {
        assert(s[27 + 2 * k] == r.port_w_wr_en_iv@[k] / 2);
        if s[27 + 2 * k] != 0 {
            lemma_ram_reads(r, 27 + 2 * k);
        }
    }
    assert forall|k: int| 0 <= k < 32 implies has_code(pins, #[trigger] r.port_w_wr_data_iv@[k]) by {
        assert(s[28 + 2 * k] == r.port_w_wr_data_iv@[k] / 2);
        if s[28 + 2 * k] != 0 {
            lemma_ram_reads(r, 28 + 2 * k);
        }
    }
}

/// The inputs of a DSP have positions.
proof fn lemma_dsp_coded(pins: Map<usize, usize>, m: MacroInst)
    requires
        m.kind is Dsp48e2,
        m.wf(),
        forall|pin: usize| #[trigger] m.state_pins().contains(pin) ==> pins.contains_key(pin),
    ensures
        dsp_coded(pins, m),
{
    let slots = m.kind.spec_state_fanin();
    let live = crate::macros::live_pins(m.inputs@, slots);
    let all = m.state_pins();
    let n = all.len() - live.len();
    assert forall|s: int| 0 <= s < DSP_NUM_INPUTS implies has_code(pins, #[trigger] m.inputs@[s]) by {
        let pin = (m.inputs@[s] / 2) as usize;
        if pin != 0 {
            assert(slots[s] == s as usize);
            assert(slots.contains(s as usize));
            lemma_live(m.inputs@, slots, s as usize);
            let k = live.index_of(pin);
            assert(0 <= k < live.len() && live[k] == pin);
            assert(all[n + k] == live[k]);
            assert(m.state_pins().contains(pin));
        }
    }
    if m.clk_en_iv / 2 != 0 {
        let pin = (m.clk_en_iv / 2) as usize;
        assert(all[0] == pin);
        assert(m.state_pins().contains(pin));
    }
}

/// The macros of endpoint groups are DSPs.
proof fn lemma_group_is_dsp(aig: AIG, staged: StagedAIG, e: int)
    requires
        endpoints_readable(aig),
        dsps_only(aig),
        staged.wf(aig),
        0 <= e < staged.group_count(),
    ensures
        staged.group(&aig, e) matches EndpointGroup::Macro(m) ==> m.kind is Dsp48e2 && m.wf(),
{
    let n = staged.primary_output_pins@.len();
    if e >= n {
        let i = staged.endpoints@[e - n] as int;
        assert(i < aig.endpoint_count());
        let first = aig.endpoint_count() - aig.stateful_macros@.len();
        if i >= first {
            let m = aig.stateful_macros@[i - first];
            assert(m < aig.macros.vals().len());
            assert(mac(aig, m).kind is Dsp48e2);
            assert(aig.macros.vals()[m as int].wf());
        }
    }
}

/// DSPs have two words of state and four words of inputs each.
proof fn lemma_dsp_words(aig: AIG, staged: StagedAIG, endpoints: Seq<usize>)
    requires
        endpoints_readable(aig),
        dsps_only(aig),
        staged.wf(aig),
        are_groups(staged, endpoints),
    ensures
        count_words(aig, staged, endpoints).2 == 2 * count_dsps(aig, staged, endpoints),
        count_words(aig, staged, endpoints).1 == 4 * count_dsps(aig, staged, endpoints),
    decreases endpoints.len(),
{
    if endpoints.len() > 0 {
        let before = endpoints.drop_last();
        assert forall|i: int| 0 <= i < before.len() implies #[trigger] before[i] < staged.group_count() by {
            assert(before[i] == endpoints[i]);
        }
        lemma_dsp_words(aig, staged, before);
        assert(endpoints[endpoints.len() - 1] < staged.group_count());
        lemma_group_is_dsp(aig, staged, endpoints.last() as int);
    }
}

/// A partition that is built for endpoint groups within the budget can store
/// them all: it has the right shape, it needs no more words than there are, and
/// everything that the groups read is written out. Constants that have no place
/// in the state are left out.
pub proof fn law_built_partitions_are_stored(aig: AIG, staged: StagedAIG, p: Partition, e: FlattenError)
    requires
        schedulable(aig),
        dsps_only(aig),
        staged.wf(aig),
        are_groups(staged, p.endpoints@),
        partition_ok(aig, staged, p.endpoints@, p),
        !over_budget(aig, staged, p.endpoints@),
        constant_free(aig, staged, p.endpoints@),
    ensures
        part_shaped(staged, p),
        groups_placed(aig, staged, p),
        !part_fault(aig, staged, p, e),
{
    let eps = p.endpoints@;
    let waves = choose|waves: Seq<Vec<usize>>| #[trigger] partition_with(aig, staged, eps, waves, p);
    assert forall|k: int| 0 <= k < p.stages@.len() implies stage_shaped(#[trigger] p.stages@[k]) by {
        assert(stage_backed(aig, seeded(aig, staged, waves), p.stages@.take(k), p.stages@[k]));
    }
    lemma_dsp_words(aig, staged, eps);
    let dups = count_dups(activations(aig, staged, eps));
    assert((dups + 31) / 32 <= dups);
    let words = words_needed(aig, staged, p);
    assert(words.0 <= 256 && words.1 <= 256);
    assert forall|pins: Map<usize, usize>| #[trigger] indexed_last(all_outs(p.stages@), pins) implies all_fine(
        aig,
        staged,
        p,
        pins,
    ) by {
        assert forall|i: int| 0 <= i < eps.len() implies group_fine(pins, #[trigger] group_of(&aig, &staged, &p,
            i)) by {
            let g = staged.group(&aig, eps[i] as int);
            assert(eps[i] < staged.group_count());
            assert(!stores_constant(staged.group(&aig, eps[i] as int)));
            assert forall|pin: usize| #[trigger] g.input_pins().contains(pin) implies pins.contains_key(pin) by {
                lemma_placed(aig, staged, p, waves, pins, i, pin);
            }
            lemma_group_fine(aig, staged, pins, eps[i] as int);
        }
    }
    if part_fault(aig, staged, p, e) {
        let (pins, i) = choose|pins: Map<usize, usize>, i: int|
            indexed_last(all_outs(p.stages@), pins) && 0 <= i < eps.len() && #[trigger] group_fault(
                pins,
                group_of(&aig, &staged, &p, i),
                e,
            );
        assert(all_fine(aig, staged, p, pins));
        assert(group_fine(pins, group_of(&aig, &staged, &p, i)));
    }
}

/// An endpoint group whose pins have positions can be stored.
proof fn lemma_group_fine(aig: AIG, staged: StagedAIG, pins: Map<usize, usize>, e: int)
    requires
        endpoints_readable(aig),
        dsps_only(aig),
        staged.wf(aig),
        0 <= e < staged.group_count(),
        !stores_constant(staged.group(&aig, e)),
        forall|pin: usize| #[trigger]
            staged.group(&aig, e).input_pins().contains(pin) ==> pins.contains_key(pin),
    ensures
        group_fine(pins, staged.group(&aig, e)),
{
    let g = staged.group(&aig, e);
    match g {
        EndpointGroup::RAMBlock(r) => {
            lemma_ram_coded(pins, *r);
        },
        EndpointGroup::Macro(m) => {
            lemma_group_is_dsp(aig, staged, e);
            lemma_dsp_coded(pins, *m);
        },
        EndpointGroup::PrimaryOutput(idx) => {
            let s = seq![(idx / 2) as usize];
            lemma_nonzero_kept(s, 0);
            assert(g.input_pins().contains(s[0]));
        },
        EndpointGroup::StagedIOPin(idx) => {
            let s = seq![idx];
            lemma_nonzero_kept(s, 0);
            assert(g.input_pins().contains(s[0]));
        },
        EndpointGroup::DFF(dff) => {
            let s = seq![(dff.en_iv / 2) as usize, (dff.d_iv / 2) as usize];
            if dff.d_iv >= 2 {
                lemma_nonzero_kept(s, 1);
                assert(g.input_pins().contains(s[1]));
            }
            if dff.en_iv >= 2 {
                lemma_nonzero_kept(s, 0);
                assert(g.input_pins().contains(s[0]));
            }
        },
    }
}

/// Every input of a carry chain or of a shift register has to be there when it
/// is evaluated.
proof fn lemma_slots_needed(kind: MacroKind, s: usize)
    requires
        s < kind.spec_num_inputs(),
        !(kind is Dsp48e2),
    ensures
        is_needed_slot(kind, s),
{
    match kind {
        MacroKind::Carry4 => {
            let o = (C4_OUT_CO + 3) as usize;
            let fanin = kind.spec_comb_fanin(o);
            let links = carry_links(4);
            assert(fanin == seq![C4_IN_CI, C4_IN_CYINIT] + links);
            let k = if s < C4_IN_DI {
                s as int
            } else if s < C4_IN_S {
                2 + 2 * (s - C4_IN_DI) + 1
            } else {
                2 + 2 * (s - C4_IN_S)
            };
            assert(fanin[k] == s);
            assert(kind.spec_needs_eval(o) && fanin.contains(s));
        },
        MacroKind::Srlc32e => {
            if s < SRL_IN_A {
                assert(kind.spec_state_fanin()[s as int] == s);
            } else {
                let fanin = kind.spec_comb_fanin(SRL_OUT_Q);
                assert(fanin[s - SRL_IN_A] == s);
                assert(kind.spec_needs_eval(SRL_OUT_Q) && fanin.contains(s));
            }
        },
        MacroKind::Dsp48e2 { .. } => {},
    }
}

/// What a lane of a macro phase gathers stays addressable: unless it is given
/// from outside or a phase itself produces it, it has a position behind the
/// stage that the phase runs after, whichever stage computed it.
pub proof fn law_phases_find_their_inputs(
    aig: AIG,
    staged: StagedAIG,
    p: Partition,
    waves: Seq<Vec<usize>>,
    w: int,
    l: int,
    s: int,
)
    requires
        schedulable(aig),
        partition_with(aig, staged, p.endpoints@, waves, p),
        0 <= w < waves.len(),
        0 <= l < waves[w]@.len(),
        gathers_slot(mac(aig, waves[w]@[l]), p.macro_stages@[w].lanes@[l].chain_start, s),
        mac(aig, waves[w]@[l]).inputs@[s] > 1,
        !seeded(aig, staged, waves).contains(pin_of(mac(aig, waves[w]@[l]).inputs@[s])),
    ensures
        1 <= p.macro_stages@[w].after_stage <= p.stages@.len(),
        positions_after(p.stages@[p.macro_stages@[w].after_stage - 1].hier@).contains_key(
            pin_of(mac(aig, waves[w]@[l]).inputs@[s]),
        ),
{
    let phase = p.macro_stages@[w];
    let m = mac(aig, waves[w]@[l]);
    let pin = pin_of(m.inputs@[s]);
    let seeds = seeded(aig, staged, waves);
    assert(phase_ok(aig, seeds, p.stages@, waves[w]@, phase));
    assert(phase.lanes@[l].chain_start == spec_chain_start(aig, waves[w]@, l));
    assert(is_lane(waves, w, l));
    assert(in_macro_cone(
        aig,
        given_pins(aig, staged),
        partition_targets(aig, staged, p.endpoints@),
        waves[w]@[l],
    ));
    lemma_slots_needed(m.kind, s as usize);
    assert(gathers_at(aig, waves[w]@, l, s as usize, pin));
    assert(gathers(aig, waves[w]@, pin));
    let before = p.stages@.take(phase.after_stage as int);
    let k = phase.after_stage - 1;
    assert(last_holds(before, pin));
    assert(before.last() == p.stages@[k]);
    assert(stage_backed(aig, seeds, p.stages@.take(k), p.stages@[k]));
    let row = seq![pin];
    lemma_row_after(p.stages@[k], row);
    assert(row[0] == pin && pin != usize::MAX);
}

/// Without macros there are no macro phases, and all fan-in is that of gates.
proof fn lemma_macro_free(aig: AIG, staged: StagedAIG, p: Partition, waves: Seq<Vec<usize>>)
    requires
        schedulable(aig),
        aig.macros.vals().len() == 0,
        partition_with(aig, staged, p.endpoints@, waves, p),
    ensures
        waves.len() == 0,
        gates_only(aig, seeded(aig, staged, waves)),
        forall|pin: usize| !#[trigger] is_phase_pin(aig, pin),
{
    let given = given_pins(aig, staged);
    let targets = partition_targets(aig, staged, p.endpoints@);
    if waves.len() > 0 {
        assert(1 <= waves[0]@.len());
        assert(is_lane(waves, 0, 0));
        let m = waves[0]@[0];
        assert(in_macro_cone(aig, given, targets, m));
        let pin = choose|pin: usize| #[trigger]
            in_cone(aig, given, targets, pin) && !given.contains(pin) && producer(aig, pin) == Some(m) && !(mac(
                aig,
                m,
            ).kind is Dsp48e2);
        assert(map_view(aig.aigpin2macro)[pin] < aig.macros.vals().len());
    }
    aig.macros.lemma_wf();
    assert forall|u: usize, w: usize|
        u <= aig.num_aigpins && !seeded(aig, staged, waves).contains(u) && #[trigger] aig.fanin(u).contains(w) implies
        aig.drivers@[u as int] is AndGate by {
        if let DriverType::Macro(c, s) = aig.drivers@[u as int] {
            assert(aig.macros.has(c));
            assert(aig.macros.keys()[aig.macros.slot(c)] == c);
        }
    }
    assert forall|pin: usize| !#[trigger] is_phase_pin(aig, pin) by {
        if let Some(m) = producer(aig, pin) {
            assert(map_view(aig.aigpin2macro)[pin] < aig.macros.vals().len());
        }
    }
}

/// A partition that is built of a graph without macros has a script, as soon as
/// its first stage finds all its pins in the state and the threads can read
/// them.
pub proof fn law_built_partitions_have_scripts(
    aig: AIG,
    staged: StagedAIG,
    p: Partition,
    im: Map<usize, u32>,
    sm: Map<usize, u32>,
    e: FlattenError,
)
    requires
        schedulable(aig),
        aig.macros.vals().len() == 0,
        partition_ok(aig, staged, p.endpoints@, p),
        p.stages@.len() > 0,
        starts_from_state(aig, p, im, sm),
    ensures
        continues(aig, p, im, sm),
        !script_fault(aig, p, im, sm, e),
{
    let waves = choose|waves: Seq<Vec<usize>>| #[trigger] partition_with(aig, staged, p.endpoints@, waves, p);
    lemma_macro_free(aig, staged, p, waves);
    let seeds = seeded(aig, staged, waves);
    assert forall|k: int| 0 <= k < p.stages@.len() implies stage_shaped(#[trigger] p.stages@[k]) && all_fed(
        aig,
        p.stages@[k].hier@,
    ) by {
        let hier = p.stages@[k].hier@;
        assert(stage_backed(aig, seeds, p.stages@.take(k), p.stages@[k]));
        assert forall|h: int, j: int| 1 <= h && #[trigger] is_slot(h, j) implies slot_fed(aig, hier, h, j) by {
            assert(slot_backed(aig, seeds, p.stages@.take(k), hier, h, j));
        }
    }
    let row = p.stages@[0].hier@[0]@;
    assert forall|i: int| 0 <= i < 8192 && #[trigger] row[i] != usize::MAX implies is_read_pin(aig, row, row[i]) by {
        assert(stage_shaped(p.stages@[0]));
        assert(row.len() == width(0));
        assert(row.contains(row[i]));
        assert(!is_phase_pin(aig, row[i]));
    }
    law_linked_partition_flattens(aig, p, im, sm);
    if script_fault(aig, p, im, sm, e) {
        if e is Malformed || e is Missing || e is NoFreePosition {
            let (taken, rounds, pos) = choose|
                taken: Seq<(u32, u32)>,
                rounds: Seq<Vec<(u32, u32)>>,
                pos: Map<usize, usize>,
            | #[trigger]
                start_ok(aig, p, im, sm, taken, rounds, pos) && body_fault(
                    aig,
                    p.stages@,
                    p.macro_stages@,
                    0,
                    0,
                    pos,
                    read_occupancy(rounds),
                    e,
                );
            lemma_body_fault(aig, p.stages@, p.macro_stages@, 0, 0, pos, read_occupancy(rounds), e);
        }
    }
}

/// Does the phase produce the pin?
pub open spec fn phase_produces(aig: AIG, lanes: Seq<MacroLane>, pin: usize) -> bool {
    exists|l: int, s: int| #[trigger]
        is_lane_output(aig, lanes, l, s) && mac(aig, lanes[l].macro_i).outputs@[s] == pin
}

/// Is the pin at hand behind stage `b - 1` and the first `n` phases: read from
/// the state, left behind by that stage, or produced by a phase since?
pub open spec fn at_hand(aig: AIG, p: Partition, b: int, n: int, pin: usize) -> bool {
    ||| b == 0 && is_read_pin(aig, p.stages@[0].hier@[0]@, pin)
    ||| b > 0 && p.stages@[b - 1].realizes(pin)
    ||| exists|i: int|
        0 <= i < n && (#[trigger] p.macro_stages@[i]).after_stage == b && phase_produces(
            aig,
            p.macro_stages@[i].lanes@,
            pin,
        )
}

/// Is everything that a stage takes at hand, and everything that phases gather of
/// the pins that no stage has to compute?
pub open spec fn all_at_hand(aig: AIG, seeds: Set<usize>, p: Partition) -> bool {
    &&& forall|k: int, pin: usize|
        0 <= k < p.stages@.len() && pin != usize::MAX && #[trigger] p.stages@[k].hier@[0]@.contains(pin) ==> at_hand(
            aig,
            p,
            k,
            p.macro_stages@.len() as int,
            pin,
        )
    &&& forall|w: int, l: int, s: int|
        0 <= w < p.macro_stages@.len() && 0 <= l < p.macro_stages@[w].lanes@.len() && #[trigger] gathers_slot(
            mac(aig, p.macro_stages@[w].lanes@[l].macro_i),
            p.macro_stages@[w].lanes@[l].chain_start,
            s,
        ) && mac(aig, p.macro_stages@[w].lanes@[l].macro_i).inputs@[s] > 1 && seeds.contains(
            pin_of(mac(aig, p.macro_stages@[w].lanes@[l].macro_i).inputs@[s]),
        ) ==> at_hand(
            aig,
            p,
            p.macro_stages@[w].after_stage as int,
            w,
            pin_of(mac(aig, p.macro_stages@[w].lanes@[l].macro_i).inputs@[s]),
        )
}

/// Claims keep the positions of pins, and give positions to outputs.
proof fn lemma_claimed_outputs(m: MacroInst, n: nat, c: Claimed)
    ensures
        forall|pin: usize| #[trigger] c.next.contains_key(pin) ==> claim_outputs(m, n, c).next.contains_key(pin),
        forall|s: int|
            0 <= s < n && #[trigger] produces(m, s) ==> claim_outputs(m, n, c).next.contains_key(m.outputs@[s]),
    decreases n,
{
    if n > 0 {
        lemma_claimed_outputs(m, (n - 1) as nat, c);
    }
}

proof fn lemma_claimed_lanes(aig: AIG, lanes: Seq<MacroLane>, n: nat, c: Claimed)
    requires
        n <= lanes.len(),
    ensures
        forall|pin: usize| #[trigger]
            c.next.contains_key(pin) ==> claim_lanes(aig, lanes, n, c).next.contains_key(pin),
        forall|l: int, s: int|
            l < n && #[trigger] is_lane_output(aig, lanes, l, s) ==> claim_lanes(aig, lanes, n, c).next.contains_key(
                mac(aig, lanes[l].macro_i).outputs@[s],
            ),
    decreases n,
{
    if n > 0 {
        let d = claim_lanes(aig, lanes, (n - 1) as nat, c);
        lemma_claimed_lanes(aig, lanes, (n - 1) as nat, c);
        lemma_claimed_outputs(mac(aig, lanes[n - 1].macro_i), MACRO_LANE_OUT_SLOTS as nat, d);
        assert forall|l: int, s: int| l < n && #[trigger] is_lane_output(aig, lanes, l, s) implies claim_lanes(
            aig,
            lanes,
            n,
            c,
        ).next.contains_key(mac(aig, lanes[l].macro_i).outputs@[s]) by {
            if l < n - 1 {
                assert(d.next.contains_key(mac(aig, lanes[l].macro_i).outputs@[s]));
            } else {
                assert(produces(mac(aig, lanes[n - 1].macro_i), s));
            }
        }
    }
}

/// Where pins that no stage has to compute are at hand, nothing but a lack of
/// positions stands against the sections from stage `b` and phase `ph` on.
proof fn lemma_sections_fine(
    aig: AIG,
    staged: StagedAIG,
    p: Partition,
    waves: Seq<Vec<usize>>,
    b: nat,
    ph: nat,
    pos: Map<usize, usize>,
    occ: Seq<bool>,
    e: FlattenError,
)
    requires
        schedulable(aig),
        partition_with(aig, staged, p.endpoints@, waves, p),
        all_at_hand(aig, seeded(aig, staged, waves), p),
        forall|k: int|
            0 <= k < p.stages@.len() ==> stage_shaped(#[trigger] p.stages@[k]) && all_fed(aig, p.stages@[k].hier@),
        b <= p.stages@.len(),
        ph <= p.macro_stages@.len(),
        forall|i: int| 0 <= i < ph ==> (#[trigger] p.macro_stages@[i]).after_stage <= b,
        forall|i: int| ph <= i < p.macro_stages@.len() ==> (#[trigger] p.macro_stages@[i]).after_stage >= b,
        forall|pin: usize| #[trigger] at_hand(aig, p, b as int, ph as int, pin) ==> pos.contains_key(pin),
        !(e is NoFreePosition),
    ensures
        !body_fault(aig, p.stages@, p.macro_stages@, b, ph, pos, occ, e),
    decreases p.stages@.len() - b, p.macro_stages@.len() - ph,
{
    let stages = p.stages@;
    let phases = p.macro_stages@;
    let seeds = seeded(aig, staged, waves);
    if ph < phases.len() && (b >= stages.len() || phases[ph as int].after_stage == b) {
        let w = ph as int;
        let lanes = phases[w].lanes@;
        let end = phase_end(aig, lanes, pos, occ);
        assert(phase_ok(aig, seeds, stages, waves[w]@, phases[w]));
        assert(phases[w].after_stage == b);
        if phase_fine(aig, lanes, pos, occ) {
            lemma_claimed_lanes(aig, lanes, lanes.len(), phase_start(occ, pos));
            assert forall|pin: usize| #[trigger] at_hand(aig, p, b as int, ph as int + 1, pin)
                implies end.next.contains_key(
                pin,
            ) by {
                if at_hand(aig, p, b as int, ph as int, pin) {
                    assert(pos.contains_key(pin));
                    assert(phase_start(occ, pos).next.contains_key(pin));
                } else {
                    let i = choose|i: int|
                        0 <= i < ph + 1 && (#[trigger] phases[i]).after_stage == b && phase_produces(
                            aig,
                            phases[i].lanes@,
                            pin,
                        );
                    assert(i == w);
                    let (l, s) = choose|l: int, s: int| #[trigger]
                        is_lane_output(aig, lanes, l, s) && mac(aig, lanes[l].macro_i).outputs@[s] == pin;
                    assert(is_lane_output(aig, lanes, l, s));
                }
            }
            lemma_sections_fine(aig, staged, p, waves, b, ph + 1, end.next, end.occ, e);
        } else if phase_fault(aig, lanes, pos, occ, b as usize, e) {
            assert(1 <= waves[w]@.len() <= MACRO_MAX_LANES);
            let c = phase_start(occ, pos);
            let l = choose|l: int|
                0 <= l < lanes.len() && macro_fault(
                    aig,
                    #[trigger] lanes[l],
                    pos,
                    claim_lanes(aig, lanes, l as nat, c),
                    b as usize,
                    e,
                );
            lemma_lane_fine(aig, staged, p, waves, w, l, pos);
            assert(lanes[l].macro_i == waves[w]@[l]);
        }
    } else if b < stages.len() {
        let hier = stages[b as int].hier@;
        assert(stage_shaped(stages[b as int]));
        assert forall|pin: usize| pin != usize::MAX && #[trigger] hier[0]@.contains(pin) implies pos.contains_key(
            pin,
        ) by {
            assert(stages[b as int].hier@[0]@.contains(pin));
            assert(at_hand(aig, p, b as int, phases.len() as int, pin));
            if !at_hand(aig, p, b as int, ph as int, pin) {
                let i = choose|i: int|
                    0 <= i < phases.len() && (#[trigger] phases[i]).after_stage == b && phase_produces(
                        aig,
                        phases[i].lanes@,
                        pin,
                    );
                assert(i >= ph);
                if i > ph {
                    assert(phases[ph as int].after_stage <= phases[i].after_stage);
                }
            }
        }
        assert(row_there(hier[0]@, pos)) by {
            assert forall|i: int| 0 <= i < hier[0]@.len() && #[trigger] hier[0]@[i] != usize::MAX
                implies pos.contains_key(
                hier[0]@[i],
            ) by {
                assert(hier[0]@.contains(hier[0]@[i]));
            }
        }
        let next = positions_after(hier);
        assert forall|pin: usize| #[trigger] at_hand(aig, p, b as int + 1, ph as int, pin)
            implies next.contains_key(pin) by {
            if stages[b as int].realizes(pin) {
                let row = seq![pin];
                lemma_row_after(stages[b as int], row);
                assert(row[0] == pin);
            } else {
                let i = choose|i: int|
                    0 <= i < ph && (#[trigger] phases[i]).after_stage == b + 1 && phase_produces(
                        aig,
                        phases[i].lanes@,
                        pin,
                    );
                assert(phases[i].after_stage <= b);
            }
        }
        assert forall|i: int| ph <= i < phases.len() implies (#[trigger] phases[i]).after_stage >= b + 1 by {
            if i > ph {
                assert(phases[ph as int].after_stage <= phases[i].after_stage);
            }
        }
        lemma_sections_fine(aig, staged, p, waves, b + 1, ph, next, occupied_after(hier), e);
    }
}

/// What a lane gathers is there, and its macro is one for a phase.
proof fn lemma_lane_fine(
    aig: AIG,
    staged: StagedAIG,
    p: Partition,
    waves: Seq<Vec<usize>>,
    w: int,
    l: int,
    pos: Map<usize, usize>,
)
    requires
        schedulable(aig),
        partition_with(aig, staged, p.endpoints@, waves, p),
        all_at_hand(aig, seeded(aig, staged, waves), p),
        0 <= w < waves.len(),
        0 <= l < waves[w]@.len(),
        forall|pin: usize| #[trigger]
            at_hand(aig, p, p.macro_stages@[w].after_stage as int, w, pin) ==> pos.contains_key(pin),
    ensures
        waves[w]@[l] < aig.macros.vals().len(),
        !(mac(aig, waves[w]@[l]).kind is Dsp48e2),
        inputs_there(mac(aig, waves[w]@[l]), p.macro_stages@[w].lanes@[l].chain_start, pos),
{
    let phase = p.macro_stages@[w];
    let m = mac(aig, waves[w]@[l]);
    let seeds = seeded(aig, staged, waves);
    assert(phase_ok(aig, seeds, p.stages@, waves[w]@, phase));
    assert(phase.lanes@[l].macro_i == waves[w]@[l]);
    assert(phase.lanes@[l].chain_start == spec_chain_start(aig, waves[w]@, l));
    assert(is_lane(waves, w, l));
    assert(in_macro_cone(
        aig,
        given_pins(aig, staged),
        partition_targets(aig, staged, p.endpoints@),
        waves[w]@[l],
    ));
    let out = choose|pin: usize| #[trigger]
        in_cone(aig, given_pins(aig, staged), partition_targets(aig, staged, p.endpoints@), pin) && !given_pins(
            aig,
            staged,
        ).contains(pin) && producer(aig, pin) == Some(waves[w]@[l]) && !(mac(aig, waves[w]@[l]).kind is Dsp48e2);
    assert(map_view(aig.aigpin2macro)[out] < aig.macros.vals().len());
    assert forall|s: int| #[trigger] gathers_slot(m, phase.lanes@[l].chain_start, s) && m.inputs@[s] > 1
        implies pos.contains_key(
        pin_of(m.inputs@[s]),
    ) by {
        let pin = pin_of(m.inputs@[s]);
        if seeds.contains(pin) {
            assert(gathers_slot(mac(aig, phase.lanes@[l].macro_i), phase.lanes@[l].chain_start, s));
            assert(at_hand(aig, p, phase.after_stage as int, w, pin));
        } else {
            lemma_slots_needed(m.kind, s as usize);
            assert(gathers_at(aig, waves[w]@, l, s as usize, pin));
            assert(gathers(aig, waves[w]@, pin));
            let before = p.stages@.take(phase.after_stage as int);
            assert(last_holds(before, pin));
            assert(before.last() == p.stages@[phase.after_stage - 1]);
            assert(at_hand(aig, p, phase.after_stage as int, w, pin));
        }
    }
}

/// A partition with macros has a script as well, unless positions for the
/// outputs of its macros run out, or there are too many phases: as soon as its
/// first stage finds its pins in the state, every pin that a stage takes is at hand
/// there, and so are the pins that phases gather and no stage has to compute.
pub proof fn law_macro_partitions_have_scripts(
    aig: AIG,
    staged: StagedAIG,
    p: Partition,
    waves: Seq<Vec<usize>>,
    im: Map<usize, u32>,
    sm: Map<usize, u32>,
    e: FlattenError,
)
    requires
        schedulable(aig),
        partition_with(aig, staged, p.endpoints@, waves, p),
        p.stages@.len() > 0,
        starts_from_state(aig, p, im, sm),
        all_at_hand(aig, seeded(aig, staged, waves), p),
        !(e is NoFreePosition),
        !(e is TooManyPhases),
    ensures
        !script_fault(aig, p, im, sm, e),
{
    let seeds = seeded(aig, staged, waves);
    assert forall|k: int| 0 <= k < p.stages@.len() implies stage_shaped(#[trigger] p.stages@[k]) && all_fed(
        aig,
        p.stages@[k].hier@,
    ) by {
        let hier = p.stages@[k].hier@;
        assert(stage_backed(aig, seeds, p.stages@.take(k), p.stages@[k]));
        assert forall|h: int, j: int| 1 <= h && #[trigger] is_slot(h, j) implies slot_fed(aig, hier, h, j) by {
            assert(slot_backed(aig, seeds, p.stages@.take(k), hier, h, j));
        }
    }
    if script_fault(aig, p, im, sm, e) && (e is Malformed || e is Missing) {
        let (taken, rounds, pos) = choose|
            taken: Seq<(u32, u32)>,
            rounds: Seq<Vec<(u32, u32)>>,
            pos: Map<usize, usize>,
        | #[trigger]
            start_ok(aig, p, im, sm, taken, rounds, pos) && body_fault(
                aig,
                p.stages@,
                p.macro_stages@,
                0,
                0,
                pos,
                read_occupancy(rounds),
                e,
            );
        assert forall|pin: usize| #[trigger] at_hand(aig, p, 0, 0, pin) implies pos.contains_key(pin) by {}
        lemma_sections_fine(aig, staged, p, waves, 0, 0, pos, read_occupancy(rounds), e);
    }
}

} // verus!
