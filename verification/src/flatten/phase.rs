//! The script sections of macro phases.

use super::bits::{join_halves, pair_word};
use super::error::FlattenError;
use crate::aig::AIG;
use crate::collections::{map_get, map_insert, map_view, pos_get, pos_view};
use crate::macros::{
    code_of_constant, code_of_position, macro_encode_input, pin_of, MacroInst, MacroKind, C4_IN_CI,
    MACRO_DESC_STATE_SHIFT, MACRO_LANE_IN_SLOTS, MACRO_LANE_OUT_SLOTS, MACRO_MAX_LANES, MACRO_POS_NONE,
};
use crate::pe::partition::{MacroLane, MacroStage};
use crate::pe::waves::mac;
use indexmap::IndexMap;
use vstd::prelude::*;

verus! {

/// The first free position from `c` on; 8192 if there is none.
pub open spec fn first_free(occ: Seq<bool>, c: int) -> int
    decreases 8192 - c,
{
    if c >= 8192 {
        8192
    } else if !occ[c] {
        c
    } else {
        first_free(occ, c + 1)
    }
}

/// The first free position is free, and all before it are not.
pub(crate) proof fn lemma_first_free(occ: Seq<bool>, c: int)
    requires
        0 <= c <= 8192,
    ensures
        c <= first_free(occ, c) <= 8192,
        first_free(occ, c) < 8192 ==> !occ[first_free(occ, c)],
        forall|k: int| c <= k < first_free(occ, c) ==> occ[k],
    decreases 8192 - c,
{
    if c < 8192 && occ[c] {
        lemma_first_free(occ, c + 1);
    }
}

/// Claims the next free bit position in the shared state, if there is one.
pub fn alloc_free_pos(occupancy: &mut Vec<bool>, cursor: &mut usize) -> (r: Option<u16>)
    requires
        old(occupancy)@.len() >= 8192,
    ensures
        final(occupancy)@.len() == old(occupancy)@.len(),
        r is None <==> first_free(old(occupancy)@, *old(cursor) as int) == 8192,
        r matches Some(p) ==> p == first_free(old(occupancy)@, *old(cursor) as int) && p < 8192 && final(occupancy)@
            == old(occupancy)@.update(p as int, true) && *final(cursor) == p + 1,
        r is None ==> final(occupancy)@ == old(occupancy)@ && *final(cursor) == (if *old(cursor) < 8192 {
            8192
        } else {
            *old(cursor)
        }),
{
    let ghost occ = occupancy@;
    let ghost c0 = *cursor as int;
    while *cursor < 8192 && occupancy[*cursor]
        invariant
            occupancy@ == occ,
            occ.len() >= 8192,
            c0 <= *cursor,
            *cursor <= 8192 || *cursor == c0,
            first_free(occ, c0) == first_free(occ, *cursor as int),
        decreases 8192 - *cursor,
    {
        *cursor = *cursor + 1;
    }
    if *cursor >= 8192 {
        return None;
    }
    occupancy.set(*cursor, true);
    let p = *cursor as u16;
    *cursor = *cursor + 1;
    Some(p)
}

/// What a phase has claimed so far: the positions in use, where to look for
/// the next free one, and where pins are once the phase has run.
pub struct Claims {
    pub occ: Vec<bool>,
    pub cursor: usize,
    pub next: IndexMap<usize, usize>,
}

/// The same, as mathematical values.
pub ghost struct Claimed {
    pub occ: Seq<bool>,
    pub cursor: int,
    pub next: Map<usize, usize>,
}

impl Claims {
    pub open spec fn view(&self) -> Claimed {
        Claimed { occ: self.occ@, cursor: self.cursor as int, next: map_view(self.next) }
    }
}

/// Does the phase produce this output?
pub open spec fn produces(m: MacroInst, s: int) -> bool {
    0 <= s < m.kind.spec_num_outputs() && s < MACRO_LANE_OUT_SLOTS && m.outputs@[s] != 0 && m.kind.spec_needs_eval(
        s as usize,
    )
}

/// The claims once the first `n` outputs of a macro have positions.
pub open spec fn claim_outputs(m: MacroInst, n: nat, c: Claimed) -> Claimed
    decreases n,
{
    if n == 0 {
        c
    } else {
        let d = claim_outputs(m, (n - 1) as nat, c);
        if produces(m, n - 1) {
            let p = first_free(d.occ, d.cursor);
            Claimed { occ: d.occ.update(p, true), cursor: p + 1, next: d.next.insert(m.outputs@[n - 1], p as usize) }
        } else {
            d
        }
    }
}

/// The position of an output of a macro, or that there is none.
pub open spec fn output_code(m: MacroInst, s: int, c: Claimed) -> u16 {
    if produces(m, s) {
        let d = claim_outputs(m, s as nat, c);
        first_free(d.occ, d.cursor) as u16
    } else {
        MACRO_POS_NONE
    }
}

/// Is there room for the first `n` outputs of a macro?
pub open spec fn outputs_fit(m: MacroInst, n: nat, c: Claimed) -> bool {
    forall|s: int|
        0 <= s < n && #[trigger] produces(m, s) ==> {
            let d = claim_outputs(m, s as nat, c);
            first_free(d.occ, d.cursor) < 8192
        }
}

/// Does a lane gather this input?
///
/// The carry of a lane that does not head its chain comes from the scan.
pub open spec fn gathers_slot(m: MacroInst, chain_start: bool, s: int) -> bool {
    &&& 0 <= s < m.kind.spec_num_inputs()
    &&& s < MACRO_LANE_IN_SLOTS
    &&& !(!chain_start && m.kind is Carry4 && s == C4_IN_CI)
}

/// The code of an input of a lane; constant zero for one that is not gathered.
pub open spec fn input_code(m: MacroInst, chain_start: bool, s: int, pos: Map<usize, usize>) -> u16 {
    if !gathers_slot(m, chain_start, s) {
        0x4000
    } else if m.inputs@[s] <= 1 {
        code_of_constant(m.inputs@[s])
    } else {
        code_of_position(m.inputs@[s], pos[pin_of(m.inputs@[s])] as u16)
    }
}

/// Are all inputs of a lane there?
pub open spec fn inputs_there(m: MacroInst, chain_start: bool, pos: Map<usize, usize>) -> bool {
    forall|s: int|
        #[trigger] gathers_slot(m, chain_start, s) && m.inputs@[s] > 1 ==> pos.contains_key(pin_of(m.inputs@[s]))
}

/// The descriptor of a lane.
pub open spec fn descriptor(m: MacroInst, chain_start: bool, state_off: u32) -> u32 {
    m.kind.spec_script_kind_code() | (if chain_start {
        4u32
    } else {
        0u32
    }) | 8u32 | (state_off << MACRO_DESC_STATE_SHIFT)
}

/// The twelve words of a lane: a descriptor, five words of input codes, four
/// words of output positions, and two that are zero.
pub open spec fn lane_words(
    m: MacroInst,
    chain_start: bool,
    state_off: u32,
    pos: Map<usize, usize>,
    c: Claimed,
) -> Seq<u32> {
    Seq::new(
        12,
        |w: int|
            if w == 0 {
                descriptor(m, chain_start, state_off)
            } else if w <= 5 {
                pair_word(
                    input_code(m, chain_start, 2 * (w - 1), pos),
                    input_code(m, chain_start, 2 * (w - 1) + 1, pos),
                )
            } else if w <= 9 {
                pair_word(output_code(m, 2 * (w - 6), c), output_code(m, 2 * (w - 6) + 1, c))
            } else {
                0
            },
    )
}

/// Where the state of a macro is.
pub open spec fn state_off_of(off: Map<usize, u32>, macro_i: usize) -> u32 {
    if off.contains_key(macro_i) {
        off[macro_i]
    } else {
        0
    }
}

/// The claims once the first `n` lanes of a phase have positions.
pub open spec fn claim_lanes(aig: AIG, lanes: Seq<MacroLane>, n: nat, c: Claimed) -> Claimed
    decreases n,
{
    if n == 0 {
        c
    } else {
        let d = claim_lanes(aig, lanes, (n - 1) as nat, c);
        claim_outputs(mac(aig, lanes[n - 1].macro_i), MACRO_LANE_OUT_SLOTS as nat, d)
    }
}

/// The words of the first `n` lanes of a phase; lanes that are not used are
/// zero.
pub open spec fn lanes_words(
    aig: AIG,
    lanes: Seq<MacroLane>,
    n: nat,
    off: Map<usize, u32>,
    pos: Map<usize, usize>,
    c: Claimed,
) -> Seq<u32>
    decreases n,
{
    if n == 0 {
        Seq::empty()
    } else {
        let rest = lanes_words(aig, lanes, (n - 1) as nat, off, pos, c);
        if n <= lanes.len() {
            let lane = lanes[n - 1];
            rest + lane_words(
                mac(aig, lane.macro_i),
                lane.chain_start,
                state_off_of(off, lane.macro_i),
                pos,
                claim_lanes(aig, lanes, (n - 1) as nat, c),
            )
        } else {
            rest + Seq::new(12, |w: int| 0u32)
        }
    }
}

/// The claims before a phase: positions are looked for where the first row of
/// gates leaves its results.
pub open spec fn phase_start(occ: Seq<bool>, pos: Map<usize, usize>) -> Claimed {
    Claimed { occ, cursor: 4096, next: pos }
}

/// The words of a phase.
pub open spec fn phase_words(
    aig: AIG,
    lanes: Seq<MacroLane>,
    off: Map<usize, u32>,
    pos: Map<usize, usize>,
    occ: Seq<bool>,
) -> Seq<u32> {
    lanes_words(aig, lanes, MACRO_MAX_LANES as nat, off, pos, phase_start(occ, pos))
}

/// The claims behind a phase.
pub open spec fn phase_end(
    aig: AIG,
    lanes: Seq<MacroLane>,
    pos: Map<usize, usize>,
    occ: Seq<bool>,
) -> Claimed {
    claim_lanes(aig, lanes, lanes.len(), phase_start(occ, pos))
}

/// Can the lane be evaluated, with its inputs there and room for its outputs?
pub open spec fn lane_fine(aig: AIG, lanes: Seq<MacroLane>, l: int, pos: Map<usize, usize>, c: Claimed) -> bool {
    macro_fine(aig, lanes[l], pos, claim_lanes(aig, lanes, l as nat, c))
}

/// Can the phase be emitted?
pub open spec fn phase_fine(aig: AIG, lanes: Seq<MacroLane>, pos: Map<usize, usize>, occ: Seq<bool>) -> bool {
    &&& lanes.len() <= MACRO_MAX_LANES
    &&& forall|l: int| 0 <= l < lanes.len() ==> #[trigger] lane_fine(aig, lanes, l, pos, phase_start(occ, pos))
}

/// The code of an input of a lane.
fn encode_slot(
    m: &MacroInst,
    chain_start: bool,
    s: usize,
    pos: &IndexMap<usize, usize>,
) -> (r: Result<u16, usize>)
    requires
        m.wf(),
        s < MACRO_LANE_IN_SLOTS,
    ensures
        r matches Ok(c) ==> c == input_code(*m, chain_start, s as int, map_view(*pos)),
        r is Err <==> gathers_slot(*m, chain_start, s as int) && m.inputs@[s as int] > 1 && !map_view(
            *pos,
        ).contains_key(pin_of(m.inputs@[s as int])),
        r matches Err(pin) ==> pin == pin_of(m.inputs@[s as int]),
{
    if s >= m.kind.num_inputs() || (!chain_start && matches!(m.kind, MacroKind::Carry4) && s == C4_IN_CI) {
        return Ok(0x4000);
    }
    let iv = m.inputs[s];
    let place: Option<u16> = match map_get(pos, iv / 2) {
        Some(p) => Some(p as u16),
        None => None,
    };
    if iv > 1 && place.is_none() {
        return Err(iv / 2);
    }
    let f = |pin: usize| -> (r: Option<u16>)
        ensures
            r == place,
        { place };
    Ok(macro_encode_input(iv, f))
}

/// The descriptor of a lane.
fn make_descriptor(m: &MacroInst, chain_start: bool, state_off: u32) -> (w: u32)
    requires
        !(m.kind is Dsp48e2),
    ensures
        w == descriptor(*m, chain_start, state_off),
{
    let start: u32 = if chain_start {
        4
    } else {
        0
    };
    m.kind.script_kind_code() | start | 8u32 | (state_off << MACRO_DESC_STATE_SHIFT)
}

/// Claims positions for the outputs of a macro.
fn claim_positions(m: &MacroInst, c: &mut Claims) -> (r: Option<Vec<u16>>)
    requires
        m.wf(),
        old(c).occ@.len() == 8192,
        old(c).cursor <= 8192,
    ensures
        final(c).occ@.len() == 8192,
        final(c).cursor <= 8192,
        r is Some <==> outputs_fit(*m, MACRO_LANE_OUT_SLOTS as nat, old(c)@),
        r is Some ==> final(c)@ == claim_outputs(*m, MACRO_LANE_OUT_SLOTS as nat, old(c)@),
        r matches Some(outs) ==> outs@.len() == MACRO_LANE_OUT_SLOTS && forall|s: int|
            0 <= s < MACRO_LANE_OUT_SLOTS ==> #[trigger] outs@[s] == output_code(*m, s, old(c)@),
{
    let ghost c0 = c@;
    let mut outs: Vec<u16> = Vec::new();
    let n = m.kind.num_outputs();
    let mut s: usize = 0;
    while s < MACRO_LANE_OUT_SLOTS
        invariant
            m.wf(),
            n == m.kind.spec_num_outputs(),
            s <= MACRO_LANE_OUT_SLOTS,
            c0 == old(c)@,
            c.occ@.len() == 8192,
            c.cursor <= 8192,
            c@ == claim_outputs(*m, s as nat, c0),
            outs@.len() == s,
            forall|k: int| 0 <= k < s ==> #[trigger] outs@[k] == output_code(*m, k, c0),
            outputs_fit(*m, s as nat, c0),
        decreases MACRO_LANE_OUT_SLOTS - s,
    {
        if s < n && m.outputs[s] != 0 && m.kind.output_needs_mid_partition_eval(s) {
            assert(produces(*m, s as int));
            match alloc_free_pos(&mut c.occ, &mut c.cursor) {
                None => {
                    return None;
                },
                Some(p) => {
                    let _ = map_insert(&mut c.next, m.outputs[s], p as usize);
                    outs.push(p);
                },
            }
            proof {
                let d = claim_outputs(*m, (s + 1) as nat, c0);
                assert(c@.occ == d.occ);
                assert(c@.cursor == d.cursor);
                assert(c@.next == d.next);
            }
        } else {
            assert(!produces(*m, s as int));
            outs.push(MACRO_POS_NONE);
        }
        s += 1;
    }
    Some(outs)
}

/// The twelve words of a lane, given its codes.
spec fn raw_lane(desc: u32, codes: Seq<u16>, outs: Seq<u16>) -> Seq<u32> {
    Seq::new(
        12,
        |w: int|
            if w == 0 {
                desc
            } else if w <= 5 {
                pair_word(codes[2 * (w - 1)], codes[2 * (w - 1) + 1])
            } else if w <= 9 {
                pair_word(outs[2 * (w - 6)], outs[2 * (w - 6) + 1])
            } else {
                0
            },
    )
}

/// Appends the words of a lane.
fn push_lane(script: &mut Vec<u32>, desc: u32, codes: &Vec<u16>, outs: &Vec<u16>)
    requires
        codes@.len() == 10,
        outs@.len() == 8,
    ensures
        final(script)@ == old(script)@ + raw_lane(desc, codes@, outs@),
{
    let ghost s0 = script@;
    script.push(desc);
    script.push(join_halves(codes[0], codes[1]));
    script.push(join_halves(codes[2], codes[3]));
    script.push(join_halves(codes[4], codes[5]));
    script.push(join_halves(codes[6], codes[7]));
    script.push(join_halves(codes[8], codes[9]));
    script.push(join_halves(outs[0], outs[1]));
    script.push(join_halves(outs[2], outs[3]));
    script.push(join_halves(outs[4], outs[5]));
    script.push(join_halves(outs[6], outs[7]));
    script.push(0);
    script.push(0);
    assert(script@ =~= s0 + raw_lane(desc, codes@, outs@));
}

/// Can the macro be evaluated in a lane, with its inputs there and room for its
/// outputs?
pub open spec fn macro_fine(aig: AIG, lane: MacroLane, pos: Map<usize, usize>, c: Claimed) -> bool {
    let m = mac(aig, lane.macro_i);
    &&& lane.macro_i < aig.macros.vals().len()
    &&& !(m.kind is Dsp48e2)
    &&& inputs_there(m, lane.chain_start, pos)
    &&& outputs_fit(m, MACRO_LANE_OUT_SLOTS as nat, c)
}

/// Why can the macro not be evaluated in a lane: because there is no such macro,
/// because an input is not there, or because there is no room for its outputs?
pub open spec fn macro_fault(
    aig: AIG,
    lane: MacroLane,
    pos: Map<usize, usize>,
    c: Claimed,
    stage: usize,
    e: FlattenError,
) -> bool {
    let m = mac(aig, lane.macro_i);
    match e {
        FlattenError::Malformed => lane.macro_i >= aig.macros.vals().len() || m.kind is Dsp48e2,
        FlattenError::Missing(at, pin) => at == stage && !pos.contains_key(pin) && exists|s: int| #[trigger]
            gathers_slot(m, lane.chain_start, s) && m.inputs@[s] > 1 && pin_of(m.inputs@[s]) == pin,
        FlattenError::NoFreePosition => !outputs_fit(m, MACRO_LANE_OUT_SLOTS as nat, c),
        _ => false,
    }
}

/// Why can the phase not be emitted: because it has too many lanes, or because
/// of one of them?
pub open spec fn phase_fault(
    aig: AIG,
    lanes: Seq<MacroLane>,
    pos: Map<usize, usize>,
    occ: Seq<bool>,
    stage: usize,
    e: FlattenError,
) -> bool {
    ||| e is Malformed && lanes.len() > MACRO_MAX_LANES
    ||| exists|l: int|
        0 <= l < lanes.len() && macro_fault(
            aig,
            #[trigger] lanes[l],
            pos,
            claim_lanes(aig, lanes, l as nat, phase_start(occ, pos)),
            stage,
            e,
        )
}

/// Emits one lane of a phase.
fn emit_lane(
    script: &mut Vec<u32>,
    aig: &AIG,
    ml: MacroLane,
    last_pin2localpos: &IndexMap<usize, usize>,
    claims: &mut Claims,
    macro_state_off: &IndexMap<usize, u32>,
    stage: usize,
) -> (r: Result<(), FlattenError>)
    requires
        aig.macros_wf(),
        old(claims).occ@.len() == 8192,
        old(claims).cursor <= 8192,
    ensures
        final(claims).occ@.len() == 8192,
        final(claims).cursor <= 8192,
        r is Ok <==> macro_fine(*aig, ml, map_view(*last_pin2localpos), old(claims)@),
        r is Ok ==> final(script)@ == old(script)@ + lane_words(
            mac(*aig, ml.macro_i),
            ml.chain_start,
            state_off_of(pos_view(*macro_state_off), ml.macro_i),
            map_view(*last_pin2localpos),
            old(claims)@,
        ),
        r is Ok ==> final(claims)@ == claim_outputs(
            mac(*aig, ml.macro_i),
            MACRO_LANE_OUT_SLOTS as nat,
            old(claims)@,
        ),
        r matches Err(e) ==> macro_fault(*aig, ml, map_view(*last_pin2localpos), old(claims)@, stage, e),
{
    let ghost s1 = script@;
    let ghost before = claims@;
    let ghost pos = map_view(*last_pin2localpos);
    if ml.macro_i >= aig.macros.len() {
        return Err(FlattenError::Malformed);
    }
    let m = aig.macros.value(ml.macro_i);
    assert(mac(*aig, ml.macro_i).wf());
    if matches!(m.kind, MacroKind::Dsp48e2 { .. }) {
        return Err(FlattenError::Malformed);
    }
    let state_off: u32 = match pos_get(macro_state_off, ml.macro_i) {
        Some(o) => o,
        None => 0,
    };
    let mut codes: Vec<u16> = Vec::new();
    let mut s: usize = 0;
    while s < MACRO_LANE_IN_SLOTS
        invariant
            m.wf(),
            *m == mac(*aig, ml.macro_i),
            pos == map_view(*last_pin2localpos),
            claims.occ@.len() == 8192,
            claims.cursor <= 8192,
            s <= MACRO_LANE_IN_SLOTS,
            codes@.len() == s,
            forall|k: int| 0 <= k < s ==> #[trigger] codes@[k] == input_code(*m, ml.chain_start, k, pos),
            forall|k: int|
                0 <= k < s && #[trigger] gathers_slot(*m, ml.chain_start, k) && m.inputs@[k] > 1 ==> pos.contains_key(
                    pin_of(m.inputs@[k]),
                ),
        decreases MACRO_LANE_IN_SLOTS - s,
    {
        match encode_slot(m, ml.chain_start, s, last_pin2localpos) {
            Ok(c) => {
                codes.push(c);
            },
            Err(pin) => {
                assert(!inputs_there(*m, ml.chain_start, pos)) by {
                    assert(gathers_slot(*m, ml.chain_start, s as int));
                }
                return Err(FlattenError::Missing(stage, pin));
            },
        }
        s += 1;
    }
    let outs = match claim_positions(m, claims) {
        None => {
            return Err(FlattenError::NoFreePosition);
        },
        Some(outs) => outs,
    };
    push_lane(script, make_descriptor(m, ml.chain_start, state_off), &codes, &outs);
    proof {
        let words = lane_words(*m, ml.chain_start, state_off, pos, before);
        let raw = raw_lane(descriptor(*m, ml.chain_start, state_off), codes@, outs@);
        assert(raw =~= words) by {
            assert forall|w: int| 0 <= w < 12 implies raw[w] == words[w] by {
                if 1 <= w <= 5 {
                    assert(codes@[2 * (w - 1)] == input_code(*m, ml.chain_start, 2 * (w - 1), pos));
                    assert(codes@[2 * (w - 1) + 1] == input_code(*m, ml.chain_start, 2 * (w - 1) + 1, pos));
                } else if 6 <= w <= 9 {
                    assert(outs@[2 * (w - 6)] == output_code(*m, 2 * (w - 6), before));
                    assert(outs@[2 * (w - 6) + 1] == output_code(*m, 2 * (w - 6) + 1, before));
                }
            }
        }
        assert(inputs_there(*m, ml.chain_start, pos));
    }
    Ok(())
}

/// Emits one mid-partition macro phase.
///
/// The section has a fixed size, so one warp covers exactly one phase; unused
/// lanes are zero. Behind the phase the pins that it produces are found at the
/// positions that were claimed for them.
pub fn emit_macro_phase(
    script: &mut Vec<u32>,
    aig: &AIG,
    ms: &MacroStage,
    last_pin2localpos: &IndexMap<usize, usize>,
    claims: &mut Claims,
    macro_state_off: &IndexMap<usize, u32>,
    stage: usize,
) -> (r: Result<(), FlattenError>)
    requires
        aig.macros_wf(),
        old(claims).occ@.len() == 8192,
        map_view(old(claims).next) == map_view(*last_pin2localpos),
        old(claims).cursor == 4096,
    ensures
        final(claims).occ@.len() == 8192,
        r is Ok <==> phase_fine(*aig, ms.lanes@, map_view(*last_pin2localpos), old(claims).occ@),
        r is Ok ==> final(script)@ == old(script)@ + phase_words(
            *aig,
            ms.lanes@,
            pos_view(*macro_state_off),
            map_view(*last_pin2localpos),
            old(claims).occ@,
        ),
        r is Ok ==> final(claims)@ == phase_end(*aig, ms.lanes@, map_view(*last_pin2localpos), old(claims).occ@),
        r matches Err(e) ==> phase_fault(
            *aig,
            ms.lanes@,
            map_view(*last_pin2localpos),
            old(claims).occ@,
            stage,
            e,
        ),
        r matches Err(e) ==> e is Malformed || e is Missing || e is NoFreePosition,
{
    let ghost s0 = script@;
    let ghost c0 = claims@;
    let ghost pos = map_view(*last_pin2localpos);
    let ghost off = pos_view(*macro_state_off);
    let ghost lanes = ms.lanes@;
    assert(c0 == phase_start(old(claims).occ@, pos));
    if ms.lanes.len() > MACRO_MAX_LANES {
        return Err(FlattenError::Malformed);
    }
    let mut lane: usize = 0;
    while lane < MACRO_MAX_LANES
        invariant
            aig.macros_wf(),
            lanes == ms.lanes@,
            lanes.len() <= MACRO_MAX_LANES,
            pos == map_view(*last_pin2localpos),
            off == pos_view(*macro_state_off),
            c0 == phase_start(old(claims).occ@, pos),
            lane <= MACRO_MAX_LANES,
            claims.occ@.len() == 8192,
            claims.cursor <= 8192,
            claims@ == claim_lanes(
                *aig,
                lanes,
                if lane <= lanes.len() {
                    lane as nat
                } else {
                    lanes.len()
                },
                c0,
            ),
            script@ == s0 + lanes_words(*aig, lanes, lane as nat, off, pos, c0),
            forall|l: int| 0 <= l < lane && l < lanes.len() ==> #[trigger] lane_fine(*aig, lanes, l, pos, c0),
        decreases MACRO_MAX_LANES - lane,
    {
        let ghost s1 = script@;
        if lane >= ms.lanes.len() {
            let mut w: usize = 0;
            while w < 12
                invariant
                    w <= 12,
                    script@ == s1 + Seq::new(w as nat, |w: int| 0u32),
                decreases 12 - w,
            {
                script.push(0);
                assert(script@ =~= s1 + Seq::new((w + 1) as nat, |w: int| 0u32));
                w += 1;
            }
            assert(script@ =~= s0 + lanes_words(*aig, lanes, (lane + 1) as nat, off, pos, c0));
            lane += 1;
            continue ;
        }
        match emit_lane(script, aig, ms.lanes[lane], last_pin2localpos, claims, macro_state_off, stage) {
            Err(e) => {
                proof {
                    assert(!lane_fine(*aig, lanes, lane as int, pos, c0));
                    assert(macro_fault(*aig, lanes[lane as int], pos, claim_lanes(*aig, lanes, lane as nat, c0),
                        stage, e));
                }
                return Err(e);
            },
            Ok(()) => {},
        }
        proof {
            assert(lane_fine(*aig, lanes, lane as int, pos, c0));
            assert(script@ =~= s0 + lanes_words(*aig, lanes, (lane + 1) as nat, off, pos, c0));
        }
        lane += 1;
    }
    Ok(())
}

} // verus!
