//! What scripts with macro phases compute.

use super::bits::bit_at;
use super::gates::stage_words;
use super::laws::{
    is_lane_output, law_phase_outputs_are_fresh, lemma_claim_lanes, lemma_output_position, output_position,
};
use super::layout::{after_stage, all_outs, indexed_last, lemma_after_rows, stage_outs, stage_shaped};
use super::local::{is_bit, is_read_pin, lemma_local_range, local_of, read_occupancy, reads_pin, source_of};
use super::phase::{
    claim_lanes, claim_outputs, descriptor, first_free, lane_fine, lane_words, lanes_words, outputs_fit, phase_end,
    phase_fine, phase_start, phase_words, produces, state_off_of, Claimed,
};
use super::script::{body_fine, is_last, last_position, occupied_after, positions_after, script_body, start_ok};
use super::semantics::{
    bits_after, bits_hold, decoded, lane_input, lane_output, law_lanes_gather_inputs, law_lanes_scatter_outputs,
    law_stage_leaves_values, lemma_last_exists, lemma_stage_words_len, needs_input, outs_hold,
};
use crate::aig::{literal_value, respects_gates, AIG};
use crate::macros::{MacroInst, MACRO_LANE_OUT_SLOTS, MACRO_MAX_LANES};
use crate::pe::grid::shaped;
use crate::pe::partition::{MacroLane, MacroStage, Partition};
use crate::pe::stage::BoomerangStage;
use crate::pe::waves::mac;
use vstd::prelude::*;

verus! {

/// The words of a lane of a phase.
pub open spec fn lane_at(words: Seq<u32>, l: int) -> Seq<u32> {
    words.subrange(12 * l, 12 * l + 12)
}

/// Does an output of a lane that is in use go to the position?
pub open spec fn scatters(words: Seq<u32>, l: int, s: int, p: int) -> bool {
    &&& 0 <= l < MACRO_MAX_LANES
    &&& 0 <= s < MACRO_LANE_OUT_SLOTS
    &&& bit_at(lane_at(words, l)[0], 3)
    &&& lane_output(lane_at(words, l), s) == p
}

/// The bits behind a phase whose lane `l` computes `outs(l, s)` for its output
/// `s`.
pub open spec fn bits_after_phase(words: Seq<u32>, local: Seq<bool>, outs: spec_fn(int, int) -> bool) -> Seq<bool> {
    Seq::new(
        8192,
        |p: int|
            if exists|l: int, s: int| #[trigger] scatters(words, l, s, p) {
                let (l, s) = choose|l: int, s: int| #[trigger] scatters(words, l, s, p);
                outs(l, s)
            } else {
                local[p]
            },
    )
}

/// Are all positions of pins in use?
pub open spec fn occupies(pos: Map<usize, usize>, occ: Seq<bool>) -> bool {
    &&& occ.len() == 8192
    &&& forall|pin: usize| #[trigger] pos.contains_key(pin) ==> pos[pin] < 8192 && occ[pos[pin] as int]
}

/// The words of a lane are found in those of its phase.
pub(super) proof fn lemma_lane_at(
    aig: AIG,
    lanes: Seq<MacroLane>,
    n: nat,
    off: Map<usize, u32>,
    pos: Map<usize, usize>,
    c: Claimed,
    l: int,
)
    requires
        0 <= l < n,
    ensures
        lanes_words(aig, lanes, n, off, pos, c).len() == 12 * n,
        lane_at(lanes_words(aig, lanes, n, off, pos, c), l) == (if l < lanes.len() {
            lane_words(
                mac(aig, lanes[l].macro_i),
                lanes[l].chain_start,
                state_off_of(off, lanes[l].macro_i),
                pos,
                claim_lanes(aig, lanes, l as nat, c),
            )
        } else {
            Seq::new(12, |w: int| 0u32)
        }),
    decreases n,
{
    let rest = lanes_words(aig, lanes, (n - 1) as nat, off, pos, c);
    let all = lanes_words(aig, lanes, n, off, pos, c);
    if n > 1 {
        let k = if l < n - 1 {
            l
        } else {
            0
        };
        lemma_lane_at(aig, lanes, (n - 1) as nat, off, pos, c, k);
        assert(lane_at(all, k) =~= lane_at(rest, k));
    }
    if l == n - 1 {
        assert(lane_at(all, l) =~= all.subrange(rest.len() as int, all.len() as int));
    }
}

/// A descriptor marks its lane as used, and none does not.
pub(super) proof fn lemma_lane_used(m: MacroInst, chain_start: bool, state_off: u32)
    ensures
        bit_at(descriptor(m, chain_start, state_off), 3),
        !bit_at(0, 3),
{
    let a = m.kind.spec_script_kind_code();
    let b: u32 = if chain_start {
        4u32
    } else {
        0u32
    };
    let c = state_off << crate::macros::MACRO_DESC_STATE_SHIFT;
    let d = a | b | 8u32 | c;
    assert(((a | b | 8u32 | c) >> 3u32) & 1 == 1) by (bit_vector);
    assert((0u32 >> 3u32) & 1 == 0) by (bit_vector);
}

/// The outputs of a phase go to the positions that are claimed for them, and
/// nowhere else.
pub(super) proof fn lemma_scatters(
    aig: AIG,
    lanes: Seq<MacroLane>,
    off: Map<usize, u32>,
    pos: Map<usize, usize>,
    occ: Seq<bool>,
    l: int,
    s: int,
    p: int,
)
    requires
        phase_fine(aig, lanes, pos, occ),
        occ.len() == 8192,
        0 <= p < 8192,
    ensures
        scatters(phase_words(aig, lanes, off, pos, occ), l, s, p) <==> is_lane_output(aig, lanes, l, s)
            && output_position(aig, lanes, l, s, phase_start(occ, pos)) == p,
{
    let words = phase_words(aig, lanes, off, pos, occ);
    let c = phase_start(occ, pos);
    if 0 <= l < MACRO_MAX_LANES && 0 <= s < MACRO_LANE_OUT_SLOTS {
        lemma_lane_at(aig, lanes, MACRO_MAX_LANES as nat, off, pos, c, l);
        let m = mac(aig, lanes[l].macro_i);
        let d = claim_lanes(aig, lanes, l as nat, c);
        lemma_lane_used(m, lanes[l].chain_start, state_off_of(off, lanes[l].macro_i));
        if l < lanes.len() {
            law_lanes_scatter_outputs(
                m,
                lanes[l].chain_start,
                state_off_of(off, lanes[l].macro_i),
                pos,
                d,
                s,
            );
            if produces(m, s) {
                lemma_output_position(aig, lanes, pos, occ, l, s);
            }
        }
    }
}

/// Does every pin have its position from before the phase, or one that an
/// output of the phase got?
spec fn traced(
    aig: AIG,
    lanes: Seq<MacroLane>,
    pos: Map<usize, usize>,
    c: Claimed,
    d: Claimed,
) -> bool {
    &&& occupies(d.next, d.occ)
    &&& forall|pin: usize| #[trigger]
        d.next.contains_key(pin) ==> (pos.contains_key(pin) && d.next[pin] == pos[pin]) || exists|l: int, s: int|
            #[trigger] is_lane_output(aig, lanes, l, s) && mac(aig, lanes[l].macro_i).outputs@[s] == pin
                && output_position(aig, lanes, l, s, c) == d.next[pin]
}

proof fn lemma_traced_outputs(
    aig: AIG,
    lanes: Seq<MacroLane>,
    pos: Map<usize, usize>,
    c: Claimed,
    l: int,
    n: nat,
)
    requires
        0 <= l < lanes.len(),
        n <= MACRO_LANE_OUT_SLOTS,
        traced(aig, lanes, pos, c, claim_lanes(aig, lanes, l as nat, c)),
        outputs_fit(mac(aig, lanes[l].macro_i), MACRO_LANE_OUT_SLOTS as nat, claim_lanes(aig, lanes, l as nat, c)),
        0 <= claim_lanes(aig, lanes, l as nat, c).cursor <= 8192,
    ensures
        traced(
            aig,
            lanes,
            pos,
            c,
            claim_outputs(mac(aig, lanes[l].macro_i), n, claim_lanes(aig, lanes, l as nat, c)),
        ),
        0 <= claim_outputs(mac(aig, lanes[l].macro_i), n, claim_lanes(aig, lanes, l as nat, c)).cursor <= 8192,
    decreases n,
{
    if n > 0 {
        let m = mac(aig, lanes[l].macro_i);
        let e = claim_lanes(aig, lanes, l as nat, c);
        lemma_traced_outputs(aig, lanes, pos, c, l, (n - 1) as nat);
        let d = claim_outputs(m, (n - 1) as nat, e);
        let f = claim_outputs(m, n, e);
        super::phase::lemma_first_free(d.occ, d.cursor);
        if produces(m, n - 1) {
            let p = first_free(d.occ, d.cursor);
            assert(p < 8192);
            assert(is_lane_output(aig, lanes, l, n - 1));
            assert(output_position(aig, lanes, l, n - 1, c) == p);
            assert forall|pin: usize| #[trigger] f.next.contains_key(pin) implies (pos.contains_key(pin)
                && f.next[pin] == pos[pin]) || exists|l: int, s: int| #[trigger]
                is_lane_output(aig, lanes, l, s) && mac(aig, lanes[l].macro_i).outputs@[s] == pin && output_position(
                    aig,
                    lanes,
                    l,
                    s,
                    c,
                ) == f.next[pin] by {
                if pin != m.outputs@[n - 1] {
                    assert(d.next.contains_key(pin) && f.next[pin] == d.next[pin]);
                }
            }
            assert forall|pin: usize| #[trigger] f.next.contains_key(pin) implies f.next[pin] < 8192
                && f.occ[f.next[pin] as int] by {
                if pin != m.outputs@[n - 1] {
                    assert(d.next.contains_key(pin) && f.next[pin] == d.next[pin]);
                }
            }
        }
    }
}

proof fn lemma_traced_lanes(aig: AIG, lanes: Seq<MacroLane>, pos: Map<usize, usize>, occ: Seq<bool>, n: nat)
    requires
        n <= lanes.len(),
        phase_fine(aig, lanes, pos, occ),
        occupies(pos, occ),
    ensures
        traced(aig, lanes, pos, phase_start(occ, pos), claim_lanes(aig, lanes, n, phase_start(occ, pos))),
    decreases n,
{
    if n > 0 {
        let c = phase_start(occ, pos);
        lemma_traced_lanes(aig, lanes, pos, occ, (n - 1) as nat);
        lemma_claim_lanes(aig, lanes, (n - 1) as nat, pos, occ);
        assert(lane_fine(aig, lanes, n - 1, pos, c));
        lemma_traced_outputs(aig, lanes, pos, c, n - 1, MACRO_LANE_OUT_SLOTS as nat);
    }
}

/// Do the lanes of a phase compute the outputs of their macros?
pub open spec fn evaluates(
    aig: AIG,
    lanes: Seq<MacroLane>,
    outs: spec_fn(int, int) -> bool,
    val: spec_fn(usize) -> bool,
) -> bool {
    forall|l: int, s: int| #[trigger]
        is_lane_output(aig, lanes, l, s) ==> outs(l, s) == val(mac(aig, lanes[l].macro_i).outputs@[s])
}

/// A phase leaves all pins their values and adds those of the outputs of its
/// macros.
pub proof fn law_phase_leaves_values(
    aig: AIG,
    lanes: Seq<MacroLane>,
    off: Map<usize, u32>,
    pos: Map<usize, usize>,
    occ: Seq<bool>,
    local: Seq<bool>,
    outs: spec_fn(int, int) -> bool,
    val: spec_fn(usize) -> bool,
)
    requires
        phase_fine(aig, lanes, pos, occ),
        occupies(pos, occ),
        bits_hold(local, pos, val),
        evaluates(aig, lanes, outs, val),
    ensures
        bits_hold(
            bits_after_phase(phase_words(aig, lanes, off, pos, occ), local, outs),
            phase_end(aig, lanes, pos, occ).next,
            val,
        ),
        occupies(phase_end(aig, lanes, pos, occ).next, phase_end(aig, lanes, pos, occ).occ),
{
    let words = phase_words(aig, lanes, off, pos, occ);
    let c = phase_start(occ, pos);
    let end = phase_end(aig, lanes, pos, occ);
    let next = bits_after_phase(words, local, outs);
    lemma_traced_lanes(aig, lanes, pos, occ, lanes.len());
    assert forall|pin: usize| #[trigger] end.next.contains_key(pin) implies end.next[pin] < 8192
        && next[end.next[pin] as int] == val(pin) by {
        let p = end.next[pin] as int;
        if exists|l: int, s: int| #[trigger] scatters(words, l, s, p) {
            let (k, t) = choose|l: int, s: int| #[trigger] scatters(words, l, s, p);
            lemma_scatters(aig, lanes, off, pos, occ, k, t, p);
            lemma_output_position(aig, lanes, pos, occ, k, t);
            assert(!occ[p]);
            let (l, s) = choose|l: int, s: int| #[trigger]
                is_lane_output(aig, lanes, l, s) && mac(aig, lanes[l].macro_i).outputs@[s] == pin && output_position(
                    aig,
                    lanes,
                    l,
                    s,
                    c,
                ) == p;
            if l < k || (l == k && s < t) {
                law_phase_outputs_are_fresh(aig, lanes, pos, occ, l, s, k, t);
            } else if k < l || (l == k && t < s) {
                law_phase_outputs_are_fresh(aig, lanes, pos, occ, k, t, l, s);
            }
            assert(k == l && t == s);
        } else if !(pos.contains_key(pin) && pos[pin] == p) {
            let (l, s) = choose|l: int, s: int| #[trigger]
                is_lane_output(aig, lanes, l, s) && mac(aig, lanes[l].macro_i).outputs@[s] == pin && output_position(
                    aig,
                    lanes,
                    l,
                    s,
                    c,
                ) == p;
            lemma_scatters(aig, lanes, off, pos, occ, l, s, p);
            assert(scatters(words, l, s, p));
        }
    }
}

/// Does a phase gather the values of the literals at the inputs that its macros
/// need?
pub open spec fn phase_gathers(
    aig: AIG,
    lanes: Seq<MacroLane>,
    words: Seq<u32>,
    local: Seq<bool>,
    val: spec_fn(usize) -> bool,
) -> bool {
    forall|l: int, s: int|
        0 <= l < lanes.len() && #[trigger] needs_input(mac(aig, lanes[l].macro_i), lanes[l].chain_start, s)
            ==> decoded(lane_input(lane_at(words, l), s), local) == literal_value(
            val,
            mac(aig, lanes[l].macro_i).inputs@[s],
        )
}

/// Does every bit behind a stage have the value of its pin?
pub open spec fn stage_leaves(hier: Seq<Vec<usize>>, after: Seq<bool>, val: spec_fn(usize) -> bool) -> bool {
    forall|p: int|
        0 <= p < 8192 && #[trigger] after_stage(hier)[p] != usize::MAX ==> after[p] == val(after_stage(hier)[p])
}

/// Are all values right when the sections from stage `b` and phase `ph` on are
/// executed: what the phases gather, and what the stages leave behind?
///
/// Lane `l` of phase `i` computes `outs(i, l, s)` for its output `s`.
pub open spec fn runs_right(
    aig: AIG,
    stages: Seq<BoomerangStage>,
    phases: Seq<MacroStage>,
    b: nat,
    ph: nat,
    body: Seq<u32>,
    local: Seq<bool>,
    outs: spec_fn(int, int, int) -> bool,
    val: spec_fn(usize) -> bool,
) -> bool
    decreases stages.len() - b, phases.len() - ph,
{
    if ph < phases.len() && (b >= stages.len() || phases[ph as int].after_stage == b) {
        let words = body.take(384);
        let next = bits_after_phase(words, local, |l: int, s: int| outs(ph as int, l, s));
        &&& phase_gathers(aig, phases[ph as int].lanes@, words, local, val)
        &&& runs_right(aig, stages, phases, b, ph + 1, body.skip(384), next, outs, val)
    } else if b < stages.len() {
        let next = bits_after(body.take(5120), local);
        &&& stage_leaves(stages[b as int].hier@, next, val)
        &&& runs_right(aig, stages, phases, b + 1, ph, body.skip(5120), next, outs, val)
    } else {
        true
    }
}

/// Do all phases compute the outputs of their macros?
pub open spec fn all_evaluate(
    aig: AIG,
    phases: Seq<MacroStage>,
    outs: spec_fn(int, int, int) -> bool,
    val: spec_fn(usize) -> bool,
) -> bool {
    forall|i: int|
        0 <= i < phases.len() ==> evaluates(
            aig,
            (#[trigger] phases[i]).lanes@,
            |l: int, s: int| outs(i, l, s),
            val,
        )
}

/// Behind a stage, the positions of pins are in use.
proof fn lemma_stage_occupies(hier: Seq<Vec<usize>>)
    requires
        shaped(hier),
    ensures
        occupies(positions_after(hier), occupied_after(hier)),
{
    let s = after_stage(hier);
    let pos = positions_after(hier);
    lemma_after_rows(hier, 1);
    assert forall|pin: usize| #[trigger] pos.contains_key(pin) implies pos[pin] < 8192 && occupied_after(
        hier,
    )[pos[pin] as int] by {
        lemma_last_exists(s, pin);
        assert(is_last(s, pin, last_position(s, pin)));
    }
}

/// The sections of a script compute what their partition holds. If the bits
/// before them have the values of their pins, and the lanes of the phases
/// compute the outputs of their macros, then every phase gathers the values at
/// the inputs of its macros, and every bit that a stage leaves behind, and so
/// every bit that it writes out, has the value of its pin.
pub proof fn law_sections_compute(
    aig: AIG,
    stages: Seq<BoomerangStage>,
    phases: Seq<MacroStage>,
    off: Map<usize, u32>,
    b: nat,
    ph: nat,
    pos: Map<usize, usize>,
    occ: Seq<bool>,
    local: Seq<bool>,
    outs: spec_fn(int, int, int) -> bool,
    val: spec_fn(usize) -> bool,
)
    requires
        forall|k: int| 0 <= k < stages.len() ==> shaped((#[trigger] stages[k]).hier@),
        body_fine(aig, stages, phases, b, ph, pos, occ),
        respects_gates(aig, val),
        !val(0),
        occupies(pos, occ),
        bits_hold(local, pos, val),
        all_evaluate(aig, phases, outs, val),
    ensures
        runs_right(
            aig,
            stages,
            phases,
            b,
            ph,
            script_body(aig, stages, phases, off, b, ph, pos, occ),
            local,
            outs,
            val,
        ),
    decreases stages.len() - b, phases.len() - ph,
{
    let body = script_body(aig, stages, phases, off, b, ph, pos, occ);
    if ph < phases.len() && (b >= stages.len() || phases[ph as int].after_stage == b) {
        let lanes = phases[ph as int].lanes@;
        let c = phase_start(occ, pos);
        let words = phase_words(aig, lanes, off, pos, occ);
        let end = phase_end(aig, lanes, pos, occ);
        let rest = script_body(aig, stages, phases, off, b, ph + 1, end.next, end.occ);
        let now = |l: int, s: int| outs(ph as int, l, s);
        lemma_lane_at(aig, lanes, MACRO_MAX_LANES as nat, off, pos, c, 0);
        assert(body.take(384) =~= words);
        assert(body.skip(384) =~= rest);
        assert(evaluates(aig, phases[ph as int].lanes@, now, val));
        law_phase_leaves_values(aig, lanes, off, pos, occ, local, now, val);
        assert(phase_gathers(aig, lanes, words, local, val)) by {
            assert forall|l: int, s: int|
                0 <= l < lanes.len() && #[trigger] needs_input(
                    mac(aig, lanes[l].macro_i),
                    lanes[l].chain_start,
                    s,
                ) implies decoded(lane_input(lane_at(words, l), s), local) == literal_value(
                val,
                mac(aig, lanes[l].macro_i).inputs@[s],
            ) by {
                lemma_lane_at(aig, lanes, MACRO_MAX_LANES as nat, off, pos, c, l);
                assert(lane_fine(aig, lanes, l, pos, c));
                law_lanes_gather_inputs(
                    mac(aig, lanes[l].macro_i),
                    lanes[l].chain_start,
                    state_off_of(off, lanes[l].macro_i),
                    pos,
                    claim_lanes(aig, lanes, l as nat, c),
                    local,
                    val,
                    s,
                );
            }
        }
        law_sections_compute(
            aig,
            stages,
            phases,
            off,
            b,
            ph + 1,
            end.next,
            end.occ,
            bits_after_phase(words, local, now),
            outs,
            val,
        );
    } else if b < stages.len() {
        let hier = stages[b as int].hier@;
        let words = stage_words(aig, hier, pos);
        let after = bits_after(words, local);
        let rest = script_body(aig, stages, phases, off, b + 1, ph, positions_after(hier), occupied_after(hier));
        assert(shaped(stages[b as int].hier@));
        lemma_stage_words_len(aig, hier, pos);
        assert(body.take(5120) =~= words);
        assert(body.skip(5120) =~= rest);
        law_stage_leaves_values(aig, hier, pos, local, val);
        lemma_stage_occupies(hier);
        assert(stage_leaves(hier, after, val));
        law_sections_compute(
            aig,
            stages,
            phases,
            off,
            b + 1,
            ph,
            positions_after(hier),
            occupied_after(hier),
            after,
            outs,
            val,
        );
    }
}

/// Are these the bits that the threads have read from the state, each thread
/// packing its bits from the last one on?
pub open spec fn bits_read(rounds: Seq<Vec<(u32, u32)>>, state: spec_fn(u32) -> u32, local: Seq<bool>) -> bool {
    &&& local.len() == 8192
    &&& forall|t: int, l: int, k: u32| #[trigger]
        is_bit(rounds, t, l, k) ==> local[local_of(rounds, t, l, k as int)] == bit_at(state(rounds[t]@[l].0), k)
}

/// Does the state hold the values of the pins that the first stage reads?
pub open spec fn state_holds(
    aig: AIG,
    part: Partition,
    im: Map<usize, u32>,
    sm: Map<usize, u32>,
    state: spec_fn(u32) -> u32,
    val: spec_fn(usize) -> bool,
) -> bool {
    forall|pin: usize| #[trigger]
        is_read_pin(aig, part.stages@[0].hier@[0]@, pin) ==> (source_of(im, sm, pin) matches Some(at) ==> bit_at(
            state(at.0),
            at.1,
        ) == val(pin))
}

/// The script of a partition computes what the partition holds, from the state:
/// if the words that the threads read hold the values of their pins, and the
/// lanes of the macro phases compute the outputs of their macros, all values
/// are right in every section.
pub proof fn law_partition_computes(
    aig: AIG,
    part: Partition,
    im: Map<usize, u32>,
    sm: Map<usize, u32>,
    off: Map<usize, u32>,
    taken: Seq<(u32, u32)>,
    rounds: Seq<Vec<(u32, u32)>>,
    pos: Map<usize, usize>,
    state: spec_fn(u32) -> u32,
    local: Seq<bool>,
    outs: spec_fn(int, int, int) -> bool,
    val: spec_fn(usize) -> bool,
)
    requires
        forall|k: int| 0 <= k < part.stages@.len() ==> shaped((#[trigger] part.stages@[k]).hier@),
        start_ok(aig, part, im, sm, taken, rounds, pos),
        body_fine(aig, part.stages@, part.macro_stages@, 0, 0, pos, read_occupancy(rounds)),
        respects_gates(aig, val),
        !val(0),
        bits_read(rounds, state, local),
        state_holds(aig, part, im, sm, state, val),
        all_evaluate(aig, part.macro_stages@, outs, val),
    ensures
        runs_right(
            aig,
            part.stages@,
            part.macro_stages@,
            0,
            0,
            script_body(aig, part.stages@, part.macro_stages@, off, 0, 0, pos, read_occupancy(rounds)),
            local,
            outs,
            val,
        ),
{
    let occ = read_occupancy(rounds);
    let row = part.stages@[0].hier@[0]@;
    assert forall|pin: usize| #[trigger] pos.contains_key(pin) implies pos[pin] < 8192 && occ[pos[pin] as int]
        && local[pos[pin] as int] == val(pin) by {
        let (t, l, k) = choose|t: int, l: int, k: u32| #[trigger]
            reads_pin(im, sm, rounds, pin, t, l, k) && pos[pin] == local_of(rounds, t, l, k as int) && pos[pin]
                < 8192;
        assert(reads_pin(im, sm, rounds, pin, t, l, k));
        lemma_local_range(rounds, t, l, k);
        let p = pos[pin] as int;
        assert(p / 32 == t && p % 32 == p - 32 * t);
        assert(is_read_pin(aig, row, pin));
    }
    law_sections_compute(
        aig,
        part.stages@,
        part.macro_stages@,
        off,
        0,
        0,
        pos,
        occ,
        local,
        outs,
        val,
    );
}

/// The first `n` words that a stage writes out, given the bits behind it.
pub open spec fn words_out(stage: BoomerangStage, n: nat, bits: Seq<bool>) -> Seq<bool>
    decreases n,
{
    if n == 0 {
        Seq::empty()
    } else {
        let w = stage.write_outs@[n - 1] as int;
        words_out(stage, (n - 1) as nat, bits) + bits.subrange(w * 32, w * 32 + 32)
    }
}

/// The bits that are written out once the sections from stage `b` and phase
/// `ph` on are executed, where `out` are those that were written out before.
pub open spec fn bits_written(
    stages: Seq<BoomerangStage>,
    phases: Seq<MacroStage>,
    b: nat,
    ph: nat,
    body: Seq<u32>,
    local: Seq<bool>,
    outs: spec_fn(int, int, int) -> bool,
    out: Seq<bool>,
) -> Seq<bool>
    decreases stages.len() - b, phases.len() - ph,
{
    if ph < phases.len() && (b >= stages.len() || phases[ph as int].after_stage == b) {
        let next = bits_after_phase(body.take(384), local, |l: int, s: int| outs(ph as int, l, s));
        bits_written(stages, phases, b, ph + 1, body.skip(384), next, outs, out)
    } else if b < stages.len() {
        let stage = stages[b as int];
        let next = bits_after(body.take(5120), local);
        let more = words_out(stage, stage.write_outs@.len(), next);
        bits_written(stages, phases, b + 1, ph, body.skip(5120), next, outs, out + more)
    } else {
        out
    }
}

/// Do the bits have the values of their pins?
pub open spec fn bits_match(pins: Seq<usize>, bits: Seq<bool>, val: spec_fn(usize) -> bool) -> bool {
    &&& bits.len() == pins.len()
    &&& forall|i: int| 0 <= i < pins.len() && #[trigger] pins[i] != usize::MAX ==> bits[i] == val(pins[i])
}

proof fn lemma_matches_join(
    a: Seq<usize>,
    b: Seq<usize>,
    x: Seq<bool>,
    y: Seq<bool>,
    val: spec_fn(usize) -> bool,
)
    requires
        bits_match(a, x, val),
        bits_match(b, y, val),
    ensures
        bits_match(a + b, x + y, val),
{
    let all = a + b;
    assert forall|i: int| 0 <= i < all.len() && #[trigger] all[i] != usize::MAX implies (x + y)[i] == val(all[i]) by {
        if i < a.len() {
            assert(a[i] == all[i]);
        } else {
            assert(b[i - a.len()] == all[i]);
        }
    }
}

proof fn lemma_words_match(stage: BoomerangStage, n: nat, bits: Seq<bool>, val: spec_fn(usize) -> bool)
    requires
        stage_shaped(stage),
        n <= stage.write_outs@.len(),
        bits.len() == 8192,
        stage_leaves(stage.hier@, bits, val),
    ensures
        bits_match(stage_outs(stage, n), words_out(stage, n, bits), val),
    decreases n,
{
    if n > 0 {
        let w = stage.write_outs@[n - 1] as int;
        let s = after_stage(stage.hier@);
        lemma_words_match(stage, (n - 1) as nat, bits, val);
        lemma_after_rows(stage.hier@, 1);
        let pins = s.subrange(w * 32, w * 32 + 32);
        let word = bits.subrange(w * 32, w * 32 + 32);
        assert forall|i: int| 0 <= i < pins.len() && #[trigger] pins[i] != usize::MAX implies word[i]
            == val(pins[i]) by {
            assert(s[w * 32 + i] == pins[i]);
        }
        lemma_matches_join(
            stage_outs(stage, (n - 1) as nat),
            pins,
            words_out(stage, (n - 1) as nat, bits),
            word,
            val,
        );
    }
}

/// Where all values are right in every section, the bits that are written out
/// have the values of their pins.
pub proof fn law_written_bits_hold(
    aig: AIG,
    stages: Seq<BoomerangStage>,
    phases: Seq<MacroStage>,
    b: nat,
    ph: nat,
    body: Seq<u32>,
    local: Seq<bool>,
    outs: spec_fn(int, int, int) -> bool,
    val: spec_fn(usize) -> bool,
    out: Seq<bool>,
)
    requires
        forall|k: int| 0 <= k < stages.len() ==> stage_shaped(#[trigger] stages[k]),
        b <= stages.len(),
        runs_right(aig, stages, phases, b, ph, body, local, outs, val),
        bits_match(all_outs(stages.take(b as int)), out, val),
    ensures
        bits_match(all_outs(stages), bits_written(stages, phases, b, ph, body, local, outs, out), val),
    decreases stages.len() - b, phases.len() - ph,
{
    if ph < phases.len() && (b >= stages.len() || phases[ph as int].after_stage == b) {
        let next = bits_after_phase(body.take(384), local, |l: int, s: int| outs(ph as int, l, s));
        law_written_bits_hold(aig, stages, phases, b, ph + 1, body.skip(384), next, outs, val, out);
    } else if b < stages.len() {
        let stage = stages[b as int];
        let next = bits_after(body.take(5120), local);
        let n = stage.write_outs@.len();
        let more = words_out(stage, n, next);
        let first = stages.take(b as int + 1);
        assert(stage_shaped(stages[b as int]));
        lemma_words_match(stage, n, next, val);
        lemma_matches_join(all_outs(stages.take(b as int)), stage_outs(stage, n), out, more, val);
        assert(first.drop_last() =~= stages.take(b as int));
        assert(first.last() == stage);
        law_written_bits_hold(aig, stages, phases, b + 1, ph, body.skip(5120), next, outs, val, out + more);
    } else {
        assert(stages.take(b as int) =~= stages);
    }
}

/// What a partition stores is computed from what its words hold: where the bits
/// that its stages write out come first, every pin is found with its value at
/// its position.
pub proof fn law_pins_are_written(
    stages: Seq<BoomerangStage>,
    pins: Map<usize, usize>,
    written: Seq<bool>,
    out: Seq<bool>,
    val: spec_fn(usize) -> bool,
)
    requires
        indexed_last(all_outs(stages), pins),
        bits_match(all_outs(stages), written, val),
        written.is_prefix_of(out),
        written.len() <= 8192,
    ensures
        outs_hold(out, pins, val),
{
    let s = all_outs(stages);
    assert forall|pin: usize| #[trigger] pins.contains_key(pin) implies pins[pin] < 8192 && out[pins[pin] as int]
        == val(pin) by {
        let i = pins[pin] as int;
        assert(s[i] == pin);
        assert(written[i] == val(s[i]));
        assert(out[i] == written[i]);
    }
}

} // verus!
