//! The script of a partition.

use super::bits::{interleaved, packed, push_interleaved, push_packed};
use super::error::FlattenError;
use super::gates::{all_fed, push_stage, row_there, section_fault, stage_words};
use super::layout::{after_stage, index_pins, indexed_last, stage_shaped};
use super::local::{
    first_positions, is_read_pin, lemma_taken, place_first, read_occupancy, source_of, take_inputs, taken_ok,
};
use super::part::FlatteningPart;
use super::phase::{emit_macro_phase, phase_end, phase_fault, phase_fine, phase_words, Claims};
use super::reads::{crowded, map_global_read_to_rounds, reads_ok, NUM_THREADS_V1};
use super::words::listing;
use crate::aig::AIG;
use crate::collections::{map_new, map_view, pos_get, pos_view};
use crate::pe::grid::{shaped, width};
use crate::pe::partition::{MacroStage, Partition};
use crate::pe::rounds::{count_write_outs, stages_linked};
use crate::pe::stage::BoomerangStage;
use crate::pe::waves::producers_ok;
use indexmap::IndexMap;
use vstd::prelude::*;

verus! {

/// The most macro phases that the metadata of a partition can hold.
pub const MAX_PHASES: usize = 117;

/// The code of a word that a stage writes out.
pub open spec fn out_code(stage: int, word: usize) -> u32 {
    ((stage as u32) << 8) | (word as u32)
}

/// The codes of the words that the first `n` words of a stage write out.
pub open spec fn stage_codes(stage: int, words: Seq<usize>) -> Seq<u32> {
    Seq::new(words.len(), |i: int| out_code(stage, words[i]))
}

/// The codes of all words that some stages write out.
pub open spec fn all_codes(stages: Seq<BoomerangStage>) -> Seq<u32>
    decreases stages.len(),
{
    if stages.len() == 0 {
        Seq::empty()
    } else {
        all_codes(stages.drop_last()) + stage_codes(stages.len() - 1, stages.last().write_outs@)
    }
}

/// The codes two to a word, padded to 128 words with ones.
pub open spec fn codes_section(codes: Seq<u32>) -> Seq<u32> {
    Seq::new(
        128,
        |w: int|
            if 2 * w + 1 < codes.len() {
                codes[2 * w] | (codes[2 * w + 1] << 16)
            } else if 2 * w < codes.len() {
                codes[2 * w] | 0xffff_0000
            } else {
                u32::MAX
            },
    )
}

/// The header of a macro phase: the stage before which it runs, and the number
/// of its lanes.
pub open spec fn phase_header(ms: MacroStage) -> u32 {
    ((ms.after_stage as u32) << 16) | (ms.lanes@.len() as u32)
}

/// Where the state of the first macro of the partition is.
pub open spec fn first_state(part: Partition, off: Map<usize, u32>) -> u32 {
    if part.state_macros@.len() > 0 && off.contains_key(part.state_macros@[0]) {
        off[part.state_macros@[0]]
    } else {
        0
    }
}

/// The first 128 words of a script.
pub open spec fn metadata(p: FlatteningPart, part: Partition, off: Map<usize, u32>, rounds: u32) -> Seq<u32> {
    Seq::new(
        128,
        |w: int|
            if w == 0 {
                part.stages@.len() as u32
            } else if w == 1 {
                0
            } else if w == 2 {
                p.shape.num_writeouts
            } else if w == 3 {
                p.starts.state_start
            } else if w == 4 {
                p.shape.num_srams
            } else if w == 5 {
                p.starts.sram_start
            } else if w == 6 {
                rounds
            } else if w == 7 {
                p.shape.num_duplicate_writeouts
            } else if w == 8 {
                part.macro_stages@.len() as u32
            } else if w == 9 {
                p.shape.num_dsps
            } else if w == 10 {
                first_state(part, off)
            } else if w - 11 < part.macro_stages@.len() {
                phase_header(part.macro_stages@[w - 11])
            } else {
                0
            },
    )
}

/// The highest number of entries of a thread.
pub open spec fn num_rounds(rounds: Seq<Vec<(u32, u32)>>, n: nat) -> nat
    decreases n,
{
    if n == 0 {
        0
    } else {
        let rest = num_rounds(rounds, (n - 1) as nat);
        if rest < rounds[n - 1]@.len() {
            rounds[n - 1]@.len()
        } else {
            rest
        }
    }
}

/// The reads of the threads, round by round: an index and a mask each.
pub open spec fn reads_section(rounds: Seq<Vec<(u32, u32)>>, n: nat) -> Seq<u32> {
    Seq::new(
        512 * n,
        |w: int|
            {
                let round = w / 512;
                let t = w % 512 / 2;
                if round < rounds[t]@.len() {
                    if w % 2 == 0 {
                        rounds[t]@[round].0
                    } else {
                        rounds[t]@[round].1
                    }
                } else {
                    0
                }
            },
    )
}

/// Is this the last position of the pin?
pub open spec fn is_last(s: Seq<usize>, pin: usize, i: int) -> bool {
    0 <= i < s.len() && s[i] == pin && forall|j: int| i < j < s.len() ==> s[j] != pin
}

/// The last position of a pin.
pub open spec fn last_position(s: Seq<usize>, pin: usize) -> int {
    choose|i: int| is_last(s, pin, i)
}

/// Where pins are behind a stage: at their last position among its results.
pub open spec fn positions_after(hier: Seq<Vec<usize>>) -> Map<usize, usize> {
    let s = after_stage(hier);
    Map::new(|pin: usize| pin != usize::MAX && s.contains(pin), |pin: usize| last_position(s, pin) as usize)
}

/// Which positions are in use behind a stage?
pub open spec fn occupied_after(hier: Seq<Vec<usize>>) -> Seq<bool> {
    after_stage(hier).map_values(|pin: usize| pin != usize::MAX)
}

/// The sections of a script from stage `b` and phase `ph` on: the phases that
/// run before a stage, the stage, and at last the remaining phases.
pub open spec fn script_body(
    aig: AIG,
    stages: Seq<BoomerangStage>,
    phases: Seq<MacroStage>,
    off: Map<usize, u32>,
    b: nat,
    ph: nat,
    pos: Map<usize, usize>,
    occ: Seq<bool>,
) -> Seq<u32>
    decreases stages.len() - b, phases.len() - ph,
{
    if ph < phases.len() && (b >= stages.len() || phases[ph as int].after_stage == b) {
        let end = phase_end(aig, phases[ph as int].lanes@, pos, occ);
        phase_words(aig, phases[ph as int].lanes@, off, pos, occ) + script_body(
            aig,
            stages,
            phases,
            off,
            b,
            ph + 1,
            end.next,
            end.occ,
        )
    } else if b < stages.len() {
        let hier = stages[b as int].hier@;
        stage_words(aig, hier, pos) + script_body(
            aig,
            stages,
            phases,
            off,
            b + 1,
            ph,
            positions_after(hier),
            occupied_after(hier),
        )
    } else {
        Seq::empty()
    }
}

/// Can all sections from stage `b` and phase `ph` on be emitted?
pub open spec fn body_fine(
    aig: AIG,
    stages: Seq<BoomerangStage>,
    phases: Seq<MacroStage>,
    b: nat,
    ph: nat,
    pos: Map<usize, usize>,
    occ: Seq<bool>,
) -> bool
    decreases stages.len() - b, phases.len() - ph,
{
    if ph < phases.len() && (b >= stages.len() || phases[ph as int].after_stage == b) {
        let end = phase_end(aig, phases[ph as int].lanes@, pos, occ);
        phase_fine(aig, phases[ph as int].lanes@, pos, occ) && body_fine(
            aig,
            stages,
            phases,
            b,
            ph + 1,
            end.next,
            end.occ,
        )
    } else if b < stages.len() {
        let hier = stages[b as int].hier@;
        all_fed(aig, hier) && row_there(hier[0]@, pos) && body_fine(
            aig,
            stages,
            phases,
            b + 1,
            ph,
            positions_after(hier),
            occupied_after(hier),
        )
    } else {
        true
    }
}

/// What stands against emitting the sections from stage `b` and phase `ph` on?
pub open spec fn body_fault(
    aig: AIG,
    stages: Seq<BoomerangStage>,
    phases: Seq<MacroStage>,
    b: nat,
    ph: nat,
    pos: Map<usize, usize>,
    occ: Seq<bool>,
    e: FlattenError,
) -> bool
    decreases stages.len() - b, phases.len() - ph,
{
    if ph < phases.len() && (b >= stages.len() || phases[ph as int].after_stage == b) {
        let lanes = phases[ph as int].lanes@;
        let end = phase_end(aig, lanes, pos, occ);
        if phase_fine(aig, lanes, pos, occ) {
            body_fault(aig, stages, phases, b, ph + 1, end.next, end.occ, e)
        } else {
            phase_fault(aig, lanes, pos, occ, b as usize, e)
        }
    } else if b < stages.len() {
        let hier = stages[b as int].hier@;
        if all_fed(aig, hier) && row_there(hier[0]@, pos) {
            body_fault(aig, stages, phases, b + 1, ph, positions_after(hier), occupied_after(hier), e)
        } else {
            section_fault(aig, hier, pos, b as usize, e)
        }
    } else {
        false
    }
}

/// The gathers and write-outs at the end of a script.
pub open spec fn script_tail(p: FlatteningPart) -> Seq<u32> {
    packed(p.tables.sram_duplicate_permute@) + interleaved(
        p.tables.sram_duplicate_inv@,
        p.tables.sram_duplicate_set0@,
        Seq::new(256, |i: int| 0u32),
    ) + packed(p.tables.clken_permute@) + interleaved(
        p.tables.clken_inv@,
        p.tables.clken_set0@,
        p.tables.data_inv@,
    )
}

/// The script of a partition whose threads read the given masked words, which
/// brings pins to the given positions.
pub open spec fn whole_script(
    aig: AIG,
    p: FlatteningPart,
    part: Partition,
    off: Map<usize, u32>,
    rounds: Seq<Vec<(u32, u32)>>,
    pos: Map<usize, usize>,
) -> Seq<u32> {
    let n = num_rounds(rounds, 256);
    metadata(p, part, off, n as u32) + codes_section(all_codes(part.stages@)) + reads_section(rounds, n) + script_body(
        aig,
        part.stages@,
        part.macro_stages@,
        off,
        0,
        0,
        pos,
        read_occupancy(rounds),
    ) + script_tail(p)
}

/// Do the threads read what the first stage needs, so that it is found at the
/// given positions?
pub open spec fn start_ok(
    aig: AIG,
    part: Partition,
    im: Map<usize, u32>,
    sm: Map<usize, u32>,
    taken: Seq<(u32, u32)>,
    rounds: Seq<Vec<(u32, u32)>>,
    pos: Map<usize, usize>,
) -> bool {
    let row = part.stages@[0].hier@[0]@;
    &&& taken_ok(aig, row, im, sm, taken)
    &&& reads_ok(taken, rounds)
    &&& first_positions(aig, row, im, sm, rounds, pos)
}

/// Is this a script for the partition?
pub open spec fn script_ok(
    aig: AIG,
    p: FlatteningPart,
    part: Partition,
    im: Map<usize, u32>,
    sm: Map<usize, u32>,
    off: Map<usize, u32>,
    script: Seq<u32>,
) -> bool {
    exists|taken: Seq<(u32, u32)>, rounds: Seq<Vec<(u32, u32)>>, pos: Map<usize, usize>| #[trigger]
        start_ok(aig, part, im, sm, taken, rounds, pos) && script == whole_script(aig, p, part, off, rounds, pos)
            && body_fine(aig, part.stages@, part.macro_stages@, 0, 0, pos, read_occupancy(rounds))
}

/// Where something stands against emitting the sections, they cannot be
/// emitted.
pub(super) proof fn lemma_body_fault(
    aig: AIG,
    stages: Seq<BoomerangStage>,
    phases: Seq<MacroStage>,
    b: nat,
    ph: nat,
    pos: Map<usize, usize>,
    occ: Seq<bool>,
    e: FlattenError,
)
    requires
        body_fault(aig, stages, phases, b, ph, pos, occ, e),
    ensures
        !body_fine(aig, stages, phases, b, ph, pos, occ),
    decreases stages.len() - b, phases.len() - ph,
{
    if ph < phases.len() && (b >= stages.len() || phases[ph as int].after_stage == b) {
        let lanes = phases[ph as int].lanes@;
        let end = phase_end(aig, lanes, pos, occ);
        if phase_fine(aig, lanes, pos, occ) {
            lemma_body_fault(aig, stages, phases, b, ph + 1, end.next, end.occ, e);
        }
    } else if b < stages.len() {
        let hier = stages[b as int].hier@;
        if all_fed(aig, hier) && row_there(hier[0]@, pos) {
            lemma_body_fault(aig, stages, phases, b + 1, ph, positions_after(hier), occupied_after(hier), e);
        }
    }
}

/// The positions of pins behind a stage.
proof fn lemma_positions_after(hier: Seq<Vec<usize>>, map: Map<usize, usize>)
    requires
        indexed_last(after_stage(hier), map),
        after_stage(hier).len() == 8192,
    ensures
        map == positions_after(hier),
{
    let s = after_stage(hier);
    assert forall|pin: usize| map.contains_key(pin) implies map[pin] == #[trigger] positions_after(hier)[pin] by {
        let i = map[pin] as int;
        assert(is_last(s, pin, i));
        let k = last_position(s, pin);
        assert(is_last(s, pin, k));
        if k > i {
            assert(s[k] != pin);
        }
        if k < i {
            assert(s[i] != pin);
        }
    }
    assert(map =~= positions_after(hier));
}

/// The codes of the words that the stages write out.
fn make_codes(stages: &Vec<BoomerangStage>) -> (codes: Vec<u32>)
    ensures
        codes@ == all_codes(stages@),
{
    let mut codes: Vec<u32> = Vec::new();
    let mut j: usize = 0;
    assert(stages@.take(0) =~= Seq::<BoomerangStage>::empty());
    while j < stages.len()
        invariant
            j <= stages@.len(),
            codes@ == all_codes(stages@.take(j as int)),
        decreases stages@.len() - j,
    {
        let ghost c0 = codes@;
        let ghost words = stages@[j as int].write_outs@;
        assert(stages@.take(j + 1).drop_last() =~= stages@.take(j as int));
        let mut i: usize = 0;
        while i < stages[j].write_outs.len()
            invariant
                j < stages@.len(),
                words == stages@[j as int].write_outs@,
                i <= words.len(),
                codes@ == c0 + stage_codes(j as int, words).take(i as int),
            decreases words.len() - i,
        {
            codes.push(((j as u32) << 8) | (stages[j].write_outs[i] as u32));
            assert(codes@ =~= c0 + stage_codes(j as int, words).take(i + 1));
            i += 1;
        }
        assert(stage_codes(j as int, words).take(words.len() as int) =~= stage_codes(j as int, words));
        j += 1;
    }
    assert(stages@.take(stages@.len() as int) =~= stages@);
    codes
}

/// As many codes as words are written out.
pub(super) proof fn lemma_codes_len(stages: Seq<BoomerangStage>)
    ensures
        all_codes(stages).len() == count_write_outs(stages),
    decreases stages.len(),
{
    if stages.len() > 0 {
        lemma_codes_len(stages.drop_last());
    }
}

/// Appends the codes.
fn push_codes(script: &mut Vec<u32>, codes: &Vec<u32>)
    requires
        codes@.len() <= 256,
    ensures
        final(script)@ == old(script)@ + codes_section(codes@),
{
    let ghost s0 = script@;
    let n = codes.len();
    let mut w: usize = 0;
    while w < 128
        invariant
            n == codes@.len(),
            n <= 256,
            w <= 128,
            script@ == s0 + codes_section(codes@).take(w as int),
        decreases 128 - w,
    {
        if 2 * w + 1 < n {
            script.push(codes[2 * w] | (codes[2 * w + 1] << 16));
        } else if 2 * w < n {
            script.push(codes[2 * w] | 0xffff_0000);
        } else {
            script.push(u32::MAX);
        }
        assert(script@ =~= s0 + codes_section(codes@).take(w + 1));
        w += 1;
    }
    assert(codes_section(codes@).take(128) =~= codes_section(codes@));
}

/// The highest number of entries of a thread.
fn count_rounds(rounds: &Vec<Vec<(u32, u32)>>) -> (n: usize)
    requires
        rounds@.len() == 256,
    ensures
        n == num_rounds(rounds@, 256),
        forall|t: int| 0 <= t < 256 ==> (#[trigger] rounds@[t])@.len() <= n,
{
    let mut n: usize = 0;
    let mut t: usize = 0;
    while t < 256
        invariant
            rounds@.len() == 256,
            t <= 256,
            n == num_rounds(rounds@, t as nat),
            forall|u: int| 0 <= u < t ==> (#[trigger] rounds@[u])@.len() <= n,
        decreases 256 - t,
    {
        if n < rounds[t].len() {
            n = rounds[t].len();
        }
        t += 1;
    }
    n
}

/// Appends the reads of the threads.
fn push_reads(script: &mut Vec<u32>, rounds: &Vec<Vec<(u32, u32)>>, n: usize)
    requires
        rounds@.len() == 256,
    ensures
        final(script)@ == old(script)@ + reads_section(rounds@, n as nat),
{
    let ghost s0 = script@;
    let ghost all = reads_section(rounds@, n as nat);
    let mut round: usize = 0;
    while round < n
        invariant
            rounds@.len() == 256,
            all == reads_section(rounds@, n as nat),
            round <= n,
            script@ == s0 + all.take(512 * round),
        decreases n - round,
    {
        let mut t: usize = 0;
        while t < 256
            invariant
                rounds@.len() == 256,
                all == reads_section(rounds@, n as nat),
                round < n,
                t <= 256,
                script@ == s0 + all.take(512 * round + 2 * t),
            decreases 256 - t,
        {
            let ghost at = 512 * round + 2 * t;
            if round < rounds[t].len() {
                let (idx, mask) = rounds[t][round];
                script.push(idx);
                script.push(mask);
            } else {
                script.push(0);
                script.push(0);
            }
            proof {
                assert(at / 512 == round && at % 512 / 2 == t && at % 2 == 0);
                assert((at + 1) / 512 == round && (at + 1) % 512 / 2 == t && (at + 1) % 2 == 1);
                assert(script@ =~= s0 + all.take(at + 2));
            }
            t += 1;
        }
        round += 1;
    }
    assert(all.take(512 * n) =~= all);
}

/// Which positions are in use behind a stage?
fn occupied(after: &Vec<usize>) -> (occ: Vec<bool>)
    ensures
        occ@ == after@.map_values(|pin: usize| pin != usize::MAX),
{
    let mut occ: Vec<bool> = Vec::new();
    let ghost all = after@.map_values(|pin: usize| pin != usize::MAX);
    let mut i: usize = 0;
    while i < after.len()
        invariant
            i <= after@.len(),
            all == after@.map_values(|pin: usize| pin != usize::MAX),
            occ@ == all.take(i as int),
        decreases after@.len() - i,
    {
        occ.push(after[i] != usize::MAX);
        assert(occ@ =~= all.take(i + 1));
        i += 1;
    }
    assert(all.take(after@.len() as int) =~= all);
    occ
}

/// A copy of a map.
fn copy_map(m: &IndexMap<usize, usize>) -> (r: IndexMap<usize, usize>)
    ensures
        map_view(r) == map_view(*m),
{
    let n = crate::collections::map_len(m);
    let mut r = map_new();
    let ghost keys = crate::collections::map_keys(*m);
    let mut i: usize = 0;
    while i < n
        invariant
            keys == crate::collections::map_keys(*m),
            n == keys.len(),
            i <= n,
            forall|k: usize| #[trigger] map_view(r).contains_key(k) <==> keys.take(i as int).contains(k),
            forall|k: usize| #[trigger]
                map_view(r).contains_key(k) ==> map_view(*m).contains_key(k) && map_view(r)[k] == map_view(*m)[k],
        decreases n - i,
    {
        let k = crate::collections::map_key_at(m, i);
        proof {
            assert(keys.take(i + 1) =~= keys.take(i as int).push(k));
            crate::pe::stage::lemma_push_contains(keys.take(i as int), k);
        }
        if let Some(v) = crate::collections::map_get(m, k) {
            let _ = crate::collections::map_insert(&mut r, k, v);
        }
        i += 1;
    }
    proof {
        assert forall|k: usize| map_view(r).contains_key(k) <==> map_view(*m).contains_key(k) by {
            assert(keys.take(n as int).to_set().contains(k) <==> keys.take(n as int).contains(k));
            assert(map_view(*m).dom().contains(k) <==> map_view(*m).contains_key(k));
        }
        assert(map_view(r) =~= map_view(*m));
    }
    r
}

/// Appends the sections of all stages and phases.
fn push_body(
    script: &mut Vec<u32>,
    aig: &AIG,
    p: &FlatteningPart,
    part: &Partition,
    macro_state_off: &IndexMap<usize, u32>,
    first_pos: IndexMap<usize, usize>,
    first_occ: Vec<bool>,
) -> (r: Result<(), FlattenError>)
    requires
        aig.macros_wf(),
        p.shape.lays_out(*part),
        forall|k: int| 0 <= k < part.stages@.len() ==> stage_shaped(#[trigger] part.stages@[k]),
        first_occ@.len() == 8192,
    ensures
        r is Ok <==> body_fine(
            *aig,
            part.stages@,
            part.macro_stages@,
            0,
            0,
            map_view(first_pos),
            first_occ@,
        ),
        r is Ok ==> final(script)@ == old(script)@ + script_body(
            *aig,
            part.stages@,
            part.macro_stages@,
            pos_view(*macro_state_off),
            0,
            0,
            map_view(first_pos),
            first_occ@,
        ),
        r matches Err(e) ==> body_fault(
            *aig,
            part.stages@,
            part.macro_stages@,
            0,
            0,
            map_view(first_pos),
            first_occ@,
            e,
        ),
        r matches Err(e) ==> e is Malformed || e is Missing || e is NoFreePosition,
{
    let ghost s0 = script@;
    let ghost stages = part.stages@;
    let ghost phases = part.macro_stages@;
    let ghost off = pos_view(*macro_state_off);
    let ghost all = script_body(*aig, stages, phases, off, 0, 0, map_view(first_pos), first_occ@);
    let ghost fine = body_fine(*aig, stages, phases, 0, 0, map_view(first_pos), first_occ@);
    let mut pos = first_pos;
    let mut occ = first_occ;
    let mut b: usize = 0;
    let mut ph: usize = 0;
    assert(s0 + all =~= script@ + script_body(*aig, stages, phases, off, 0, 0, map_view(pos), occ@));
    while b < part.stages.len() || ph < part.macro_stages.len()
        invariant
            aig.macros_wf(),
            p.shape.lays_out(*part),
            stages == part.stages@,
            phases == part.macro_stages@,
            off == pos_view(*macro_state_off),
            forall|k: int| 0 <= k < stages.len() ==> stage_shaped(#[trigger] stages[k]),
            occ@.len() == 8192,
            b <= stages.len(),
            ph <= phases.len(),
            s0 + all == script@ + script_body(*aig, stages, phases, off, b as nat, ph as nat, map_view(pos), occ@),
            fine == body_fine(*aig, stages, phases, b as nat, ph as nat, map_view(pos), occ@),
            fine == body_fine(*aig, stages, phases, 0, 0, map_view(first_pos), first_occ@),
            forall|e: FlattenError|
                body_fault(*aig, stages, phases, b as nat, ph as nat, map_view(pos), occ@, e) ==> #[trigger] body_fault(
                    *aig,
                    stages,
                    phases,
                    0,
                    0,
                    map_view(first_pos),
                    first_occ@,
                    e,
                ),
        decreases stages.len() - b + phases.len() - ph,
    {
        let ghost s1 = script@;
        if ph < part.macro_stages.len() && (b >= part.stages.len() || part.macro_stages[ph].after_stage == b) {
            let mut claims = Claims { occ, cursor: 4096, next: copy_map(&pos) };
            let ghost occ0 = claims.occ@;
            match emit_macro_phase(script, aig, &part.macro_stages[ph], &pos, &mut claims, macro_state_off, b) {
                Err(e) => {
                    return Err(e);
                },
                Ok(()) => {},
            }
            proof {
                let words = phase_words(*aig, phases[ph as int].lanes@, off, map_view(pos), occ0);
                let end = phase_end(*aig, phases[ph as int].lanes@, map_view(pos), occ0);
                assert(claims@ == end);
                let rest = script_body(*aig, stages, phases, off, b as nat, (ph + 1) as nat, end.next, end.occ);
                assert(s1 + (words + rest) =~= (s1 + words) + rest);
            }
            pos = claims.next;
            occ = claims.occ;
            ph += 1;
        } else {
            assert(stage_shaped(stages[b as int]));
            match push_stage(script, aig, &part.stages[b].hier, &pos, b) {
                Err(e) => {
                    return Err(e);
                },
                Ok(()) => {},
            }
            proof {
                let hier = stages[b as int].hier@;
                let words = stage_words(*aig, hier, map_view(pos));
                let rest = script_body(
                    *aig,
                    stages,
                    phases,
                    off,
                    (b + 1) as nat,
                    ph as nat,
                    positions_after(hier),
                    occupied_after(hier),
                );
                assert(s1 + (words + rest) =~= (s1 + words) + rest);
                super::layout::lemma_after_rows(hier, 1);
                assert(p.shape.afters@[b as int]@ == after_stage(hier));
            }
            pos = index_pins(&p.shape.afters[b]);
            proof {
                lemma_positions_after(stages[b as int].hier@, map_view(pos));
            }
            occ = occupied(&p.shape.afters[b]);
            b += 1;
        }
    }
    assert(script@ =~= s0 + all);
    Ok(())
}

/// Appends the first 128 words.
fn push_metadata(
    script: &mut Vec<u32>,
    p: &FlatteningPart,
    part: &Partition,
    macro_state_off: &IndexMap<usize, u32>,
    rounds: u32,
)
    requires
        old(script)@.len() == 0,
        part.macro_stages@.len() <= MAX_PHASES,
    ensures
        final(script)@ == metadata(*p, *part, pos_view(*macro_state_off), rounds),
{
    let ghost all = metadata(*p, *part, pos_view(*macro_state_off), rounds);
    script.push(part.stages.len() as u32);
    script.push(0);
    script.push(p.shape.num_writeouts);
    script.push(p.starts.state_start);
    script.push(p.shape.num_srams);
    script.push(p.starts.sram_start);
    script.push(rounds);
    script.push(p.shape.num_duplicate_writeouts);
    script.push(part.macro_stages.len() as u32);
    script.push(p.shape.num_dsps);
    let first: u32 = if part.state_macros.len() > 0 {
        match pos_get(macro_state_off, part.state_macros[0]) {
            Some(o) => o,
            None => 0,
        }
    } else {
        0
    };
    script.push(first);
    assert(script@ =~= all.take(11));
    let mut k: usize = 0;
    while k < 117
        invariant
            all == metadata(*p, *part, pos_view(*macro_state_off), rounds),
            k <= 117,
            script@ == all.take(11 + k),
        decreases 117 - k,
    {
        if k < part.macro_stages.len() {
            let ms = &part.macro_stages[k];
            script.push(((ms.after_stage as u32) << 16) | (ms.num_lanes() as u32));
        } else {
            script.push(0);
        }
        assert(script@ =~= all.take(11 + k + 1));
        k += 1;
    }
    assert(all.take(128) =~= all);
}

/// Appends the gathers and write-outs.
fn push_tail(script: &mut Vec<u32>, p: &FlatteningPart)
    requires
        p.tables.wf(),
    ensures
        final(script)@ == old(script)@ + script_tail(*p),
{
    let ghost s0 = script@;
    let zeros: Vec<u32> = vec![0u32; 256];
    assert(zeros@ =~= Seq::new(256, |i: int| 0u32));
    push_packed(script, &p.tables.sram_duplicate_permute);
    push_interleaved(script, &p.tables.sram_duplicate_inv, &p.tables.sram_duplicate_set0, &zeros);
    push_packed(script, &p.tables.clken_permute);
    push_interleaved(script, &p.tables.clken_inv, &p.tables.clken_set0, &p.tables.data_inv);
    assert(script@ =~= s0 + script_tail(*p));
}

/// Is everything in the first row of the partition found in the state, in no
/// more words than there are threads, or at least not in a crowd of words?
pub open spec fn starts_from_state(aig: AIG, part: Partition, im: Map<usize, u32>, sm: Map<usize, u32>) -> bool {
    let row = part.stages@[0].hier@[0]@;
    &&& forall|pin: usize| #[trigger] is_read_pin(aig, row, pin) ==> source_of(im, sm, pin) is Some
    &&& forall|taken: Seq<(u32, u32)>| #[trigger]
        taken_ok(aig, row, im, sm, taken) ==> 1 <= taken.len() && (taken.len() <= NUM_THREADS_V1 || !crowded(taken))
}

/// Can what follows the first reads be emitted, wherever they bring the pins?
pub open spec fn continues(aig: AIG, part: Partition, im: Map<usize, u32>, sm: Map<usize, u32>) -> bool {
    forall|taken: Seq<(u32, u32)>, rounds: Seq<Vec<(u32, u32)>>, pos: Map<usize, usize>| #[trigger]
        start_ok(aig, part, im, sm, taken, rounds, pos) ==> body_fine(
            aig,
            part.stages@,
            part.macro_stages@,
            0,
            0,
            pos,
            read_occupancy(rounds),
        )
}

/// What stands against building the script of a partition?
pub open spec fn script_fault(
    aig: AIG,
    part: Partition,
    im: Map<usize, u32>,
    sm: Map<usize, u32>,
    e: FlattenError,
) -> bool {
    match e {
        FlattenError::NoStage => part.stages@.len() == 0,
        FlattenError::TooManyPhases => part.stages@.len() > 0 && part.macro_stages@.len() > MAX_PHASES,
        FlattenError::Unmapped(pin) => part.stages@.len() > 0 && is_read_pin(aig, part.stages@[0].hier@[0]@, pin)
            && source_of(im, sm, pin) is None,
        FlattenError::TooManyReads => part.stages@.len() > 0 && !starts_from_state(aig, part, im, sm),
        FlattenError::Malformed | FlattenError::Missing(_, _) | FlattenError::NoFreePosition => part.stages@.len() > 0
            && exists|taken: Seq<(u32, u32)>, rounds: Seq<Vec<(u32, u32)>>, pos: Map<usize, usize>| #[trigger]
            start_ok(aig, part, im, sm, taken, rounds, pos) && body_fault(
                aig,
                part.stages@,
                part.macro_stages@,
                0,
                0,
                pos,
                read_occupancy(rounds),
                e,
            ),
        _ => false,
    }
}

impl FlatteningPart {
    /// Builds the script of the partition.
    pub fn build_script(
        &self,
        aig: &AIG,
        part: &Partition,
        input_map: &IndexMap<usize, u32>,
        staged_io_map: &IndexMap<usize, u32>,
        macro_state_off: &IndexMap<usize, u32>,
    ) -> (r: Result<Vec<u32>, FlattenError>)
        requires
            aig.macros_wf(),
            producers_ok(*aig),
            self.wf(),
            self.shape.lays_out(*part),
            forall|k: int| 0 <= k < part.stages@.len() ==> stage_shaped(#[trigger] part.stages@[k]),
        ensures
            r matches Ok(script) ==> script_ok(
                *aig,
                *self,
                *part,
                pos_view(*input_map),
                pos_view(*staged_io_map),
                pos_view(*macro_state_off),
                script@,
            ) && part.stages@.len() > 0 && part.macro_stages@.len() <= MAX_PHASES,
            r matches Err(e) ==> script_fault(*aig, *part, pos_view(*input_map), pos_view(*staged_io_map), e),
            r == Err::<Vec<u32>, FlattenError>(FlattenError::NoStage) <==> part.stages@.len() == 0,
            r == Err::<Vec<u32>, FlattenError>(FlattenError::TooManyPhases) <==> part.stages@.len() > 0
                && part.macro_stages@.len() > MAX_PHASES,
            part.stages@.len() > 0 && part.macro_stages@.len() <= MAX_PHASES && starts_from_state(
                *aig,
                *part,
                pos_view(*input_map),
                pos_view(*staged_io_map),
            ) && continues(*aig, *part, pos_view(*input_map), pos_view(*staged_io_map)) ==> r is Ok,
    {
        let ghost im = pos_view(*input_map);
        let ghost sm = pos_view(*staged_io_map);
        let ghost off = pos_view(*macro_state_off);
        if part.stages.len() == 0 {
            return Err(FlattenError::NoStage);
        }
        if part.macro_stages.len() > MAX_PHASES {
            return Err(FlattenError::TooManyPhases);
        }
        assert(stage_shaped(part.stages@[0]));
        let row = &part.stages[0].hier[0];
        let taken = match take_inputs(aig, row, input_map, staged_io_map) {
            Err(pin) => {
                return Err(FlattenError::Unmapped(pin));
            },
            Ok(taken) => taken,
        };
        let ghost words = listing(taken@);
        let dealt = map_global_read_to_rounds(&taken);
        proof {
            lemma_taken(*aig, row@, im, sm, taken@, words);
        }
        let rounds = match dealt {
            None => {
                return Err(FlattenError::TooManyReads);
            },
            Some(rounds) => rounds,
        };
        let (pos, occ) = place_first(aig, row, input_map, staged_io_map, &rounds, Ghost(words));
        let ghost pos0 = map_view(pos);
        proof {
            assert(start_ok(*aig, *part, im, sm, words, rounds@, pos0));
            lemma_codes_len(part.stages@);
        }
        let n = count_rounds(&rounds);
        let mut script: Vec<u32> = Vec::new();
        push_metadata(&mut script, self, part, macro_state_off, n as u32);
        let codes = make_codes(&part.stages);
        push_codes(&mut script, &codes);
        push_reads(&mut script, &rounds, n);
        match push_body(&mut script, aig, self, part, macro_state_off, pos, occ) {
            Err(e) => {
                return Err(e);
            },
            Ok(()) => {},
        }
        push_tail(&mut script, self);
        assert(script@ == whole_script(*aig, *self, *part, off, rounds@, pos0));
        Ok(script)
    }
}

/// A stage finds its pins among the results of the stage before it.
pub(crate) proof fn lemma_row_after(a: BoomerangStage, row: Seq<usize>)
    requires
        shaped(a.hier@),
        forall|i: int| 0 <= i < row.len() && #[trigger] row[i] != usize::MAX ==> a.realizes(row[i]),
    ensures
        row_there(row, positions_after(a.hier@)),
{
    super::layout::lemma_after_rows(a.hier@, 1);
    let s = after_stage(a.hier@);
    assert forall|i: int| 0 <= i < row.len() && #[trigger] row[i] != usize::MAX implies positions_after(
        a.hier@,
    ).contains_key(row[i]) by {
        let v = row[i];
        assert(a.realizes(v));
        let (h, j) = choose|h: int, j: int|
            1 <= h && crate::pe::grid::is_slot(h, j) && #[trigger] crate::pe::grid::cell(a.hier@, h, j) == v;
        assert(s[width(h) + j] == v);
        assert(s.contains(v));
    }
}

proof fn lemma_linked_body(
    aig: AIG,
    stages: Seq<BoomerangStage>,
    b: nat,
    pos: Map<usize, usize>,
    occ: Seq<bool>,
)
    requires
        b <= stages.len(),
        stages_linked(stages),
        forall|k: int| 0 <= k < stages.len() ==> stage_shaped(#[trigger] stages[k]) && all_fed(aig, stages[k].hier@),
        b < stages.len() ==> row_there(stages[b as int].hier@[0]@, pos),
    ensures
        body_fine(aig, stages, Seq::empty(), b, 0, pos, occ),
    decreases stages.len() - b,
{
    if b < stages.len() {
        let hier = stages[b as int].hier@;
        assert(stage_shaped(stages[b as int]));
        if b + 1 < stages.len() {
            let k = b as int + 1;
            let next = stages[k].hier@;
            let row = next[0]@;
            assert(stage_shaped(stages[k]));
            assert forall|i: int| 0 <= i < row.len() && #[trigger] row[i] != usize::MAX
                implies stages[b as int].realizes(
                row[i],
            ) by {
                assert(next[0]@.len() == width(0));
                assert(crate::pe::grid::is_slot(0, i));
                assert(!crate::pe::grid::vacant(stages[k].hier@, 0, i));
                assert(stages[k - 1].realizes(crate::pe::grid::cell(stages[k].hier@, 0, i)));
            }
            lemma_row_after(stages[b as int], row);
        }
        lemma_linked_body(aig, stages, b + 1, positions_after(hier), occupied_after(hier));
    }
}

/// A partition without macro phases, in which every stage takes only what the
/// stage before it leaves, can be flattened as soon as its first stage finds
/// all its pins in the state.
pub proof fn law_linked_partition_flattens(aig: AIG, part: Partition, im: Map<usize, u32>, sm: Map<usize, u32>)
    requires
        part.macro_stages@.len() == 0,
        part.stages@.len() > 0,
        stages_linked(part.stages@),
        forall|k: int|
            0 <= k < part.stages@.len() ==> stage_shaped(#[trigger] part.stages@[k]) && all_fed(
                aig,
                part.stages@[k].hier@,
            ),
        forall|i: int|
            0 <= i < 8192 && #[trigger] part.stages@[0].hier@[0]@[i] != usize::MAX ==> is_read_pin(
                aig,
                part.stages@[0].hier@[0]@,
                part.stages@[0].hier@[0]@[i],
            ),
    ensures
        continues(aig, part, im, sm),
{
    assert(part.macro_stages@ =~= Seq::empty());
    assert forall|taken: Seq<(u32, u32)>, rounds: Seq<Vec<(u32, u32)>>, pos: Map<usize, usize>| #[trigger]
        start_ok(aig, part, im, sm, taken, rounds, pos) implies body_fine(
        aig,
        part.stages@,
        part.macro_stages@,
        0,
        0,
        pos,
        read_occupancy(rounds),
    ) by {
        assert(stage_shaped(part.stages@[0]));
        let row = part.stages@[0].hier@[0]@;
        assert(row.len() == width(0));
        assert forall|i: int| 0 <= i < row.len() && #[trigger] row[i] != usize::MAX
            implies pos.contains_key(row[i]) by {
            assert(is_read_pin(aig, row, row[i]));
        }
        lemma_linked_body(aig, part.stages@, 0, pos, read_occupancy(rounds));
    }
}

/// A script holds at least its metadata.
pub(crate) proof fn lemma_script_len(
    aig: AIG,
    p: FlatteningPart,
    part: Partition,
    im: Map<usize, u32>,
    sm: Map<usize, u32>,
    off: Map<usize, u32>,
    script: Seq<u32>,
)
    requires
        script_ok(aig, p, part, im, sm, off, script),
    ensures
        script.len() >= 256,
{
    let (taken, rounds, pos) = choose|
        taken: Seq<(u32, u32)>,
        rounds: Seq<Vec<(u32, u32)>>,
        pos: Map<usize, usize>,
    | #[trigger]
        start_ok(aig, part, im, sm, taken, rounds, pos) && script == whole_script(aig, p, part, off, rounds, pos)
            && body_fine(aig, part.stages@, part.macro_stages@, 0, 0, pos, read_occupancy(rounds));
    assert(script == whole_script(aig, p, part, off, rounds, pos));
}

} // verus!
