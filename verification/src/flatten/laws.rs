//! What holds of flattened scripts.

use super::assemble::{
    begun, block_start, block_words, blocks_words, flattened_with, idle_block, layout_map, parts_words, stages_words,
    starts_list, FlattenedScriptV1,
};
use super::blocks::{arranged, law_arranged_once, lemma_arranged};
use super::memory::lemma_words;
use super::part::FlatteningPart;
use super::phase::{
    claim_lanes, claim_outputs, first_free, lane_fine, lemma_first_free, outputs_fit, phase_fine, phase_start,
    produces, Claimed,
};
use super::stages::{
    lemma_sum_before_grows, lemma_sum_in_grows, lemma_sum_part, part_costs, stage_flat, starts_at, state_words_of,
    sum_upto, FlatStage, MapsView, Sums,
};
use crate::aig::AIG;
use crate::macros::{MacroInst, MACRO_LANE_OUT_SLOTS};
use crate::pe::partition::{MacroLane, Partition};
use crate::pe::process::lists;
use crate::pe::waves::mac;
use crate::staging::StagedAIG;
use vstd::prelude::*;

verus! {

/// The words of state behind which a part writes nothing.
pub open spec fn state_end(p: FlatteningPart) -> int {
    p.starts.state_start + p.shape.num_writeouts
}

/// What comes before is summed up no later.
pub(super) proof fn lemma_sum_order(blocks: Seq<Seq<usize>>, b: int, k: int, c: int, l: int, w: spec_fn(int) -> nat)
    requires
        0 <= b < blocks.len(),
        0 <= k < blocks[b].len(),
        0 <= c < blocks.len(),
        0 <= l < blocks[c].len(),
        b < c || (b == c && k < l),
    ensures
        sum_upto(blocks, b, k, w) + w(blocks[b][k] as int) <= sum_upto(blocks, c, l, w),
{
    if b == c {
        lemma_sum_in_grows(blocks[b], (k + 1) as nat, l as nat, w);
    } else {
        lemma_sum_in_grows(blocks[b], (k + 1) as nat, blocks[b].len(), w);
        lemma_sum_before_grows(blocks, (b + 1) as nat, c as nat, w);
    }
}

/// Where a part is on the blocks.
pub(super) proof fn lemma_place(
    aig: AIG,
    staged: StagedAIG,
    parts: Seq<Partition>,
    num_blocks: nat,
    zero_word: u32,
    s0: Sums,
    s1: Sums,
    m0: MapsView,
    m1: MapsView,
    flat: FlatStage,
    i: int,
) -> (place: (int, int))
    requires
        stage_flat(aig, staged, parts, num_blocks, zero_word, s0, s1, m0, m1, flat),
        num_blocks >= 1,
        parts.len() <= usize::MAX,
        0 <= i < parts.len(),
    ensures
        ({
            let blocks = lists(flat.blocks@);
            let (b, k) = place;
            &&& 0 <= b < blocks.len()
            &&& 0 <= k < blocks[b].len()
            &&& blocks[b][k] == i
            &&& flat.parts@[i].starts == starts_at(flat.parts@, blocks, zero_word, s0, b, k)
            &&& flat.parts@[i].starts.state_start == s0.state + sum_upto(blocks, b, k, state_words_of(flat.parts@))
            &&& s0.state <= flat.parts@[i].starts.state_start
            &&& state_end(flat.parts@[i]) <= s1.state
        }),
{
    let blocks = lists(flat.blocks@);
    let costs = part_costs(parts);
    lemma_arranged(costs, num_blocks, parts.len());
    law_arranged_once(costs, num_blocks, parts.len(), i as usize);
    let b = choose|b: int|
        0 <= b < num_blocks && (#[trigger] arranged(costs, num_blocks, parts.len())[b]).contains(i as usize);
    let k = blocks[b].index_of(i as usize);
    assert(blocks[b][k] == i as usize);
    let w = state_words_of(flat.parts@);
    assert(flat.parts@[blocks[b][k] as int].starts == starts_at(flat.parts@, blocks, zero_word, s0, b, k));
    lemma_sum_part(blocks, b, k, w);
    assert(w(i) == flat.parts@[i].shape.num_writeouts);
    (b, k)
}

/// No two parts of a major stage share a word of state.
proof fn lemma_apart_in_stage(
    aig: AIG,
    staged: StagedAIG,
    parts: Seq<Partition>,
    num_blocks: nat,
    zero_word: u32,
    s0: Sums,
    s1: Sums,
    m0: MapsView,
    m1: MapsView,
    flat: FlatStage,
    i: int,
    j: int,
)
    requires
        stage_flat(aig, staged, parts, num_blocks, zero_word, s0, s1, m0, m1, flat),
        num_blocks >= 1,
        parts.len() <= usize::MAX,
        0 <= i < parts.len(),
        0 <= j < parts.len(),
        i != j,
    ensures
        state_end(flat.parts@[i]) <= flat.parts@[j].starts.state_start || state_end(flat.parts@[j])
            <= flat.parts@[i].starts.state_start,
{
    let blocks = lists(flat.blocks@);
    let w = state_words_of(flat.parts@);
    let (b, k) = lemma_place(aig, staged, parts, num_blocks, zero_word, s0, s1, m0, m1, flat, i);
    let (c, l) = lemma_place(aig, staged, parts, num_blocks, zero_word, s0, s1, m0, m1, flat, j);
    assert(w(i) == flat.parts@[i].shape.num_writeouts);
    assert(w(j) == flat.parts@[j].shape.num_writeouts);
    if b < c || (b == c && k < l) {
        lemma_sum_order(blocks, b, k, c, l, w);
    } else {
        assert(!(b == c && k == l));
        lemma_sum_order(blocks, c, l, b, k, w);
    }
}

/// A major stage uses more, if anything.
proof fn lemma_stage_grows(
    aig: AIG,
    staged: StagedAIG,
    parts: Seq<Partition>,
    num_blocks: nat,
    zero_word: u32,
    s0: Sums,
    s1: Sums,
    m0: MapsView,
    m1: MapsView,
    flat: FlatStage,
)
    requires
        stage_flat(aig, staged, parts, num_blocks, zero_word, s0, s1, m0, m1, flat),
    ensures
        s0.state <= s1.state,
        s0.srams <= s1.srams,
{
}

pub(super) proof fn lemma_sums_grow(
    aig: AIG,
    stageds: Seq<&StagedAIG>,
    parts: Seq<&[Partition]>,
    num_blocks: usize,
    layout: Seq<usize>,
    n: int,
    sums: Seq<Sums>,
    maps: Seq<MapsView>,
    flats: Seq<FlatStage>,
    s: int,
    t: int,
)
    requires
        begun(aig, stageds, parts, num_blocks, layout, n, sums, maps, flats),
        0 <= s <= t <= n,
    ensures
        sums[s].state <= sums[t].state,
        sums[s].srams <= sums[t].srams,
    decreases t,
{
    if s < t {
        lemma_sums_grow(aig, stageds, parts, num_blocks, layout, n, sums, maps, flats, s, t - 1);
        let zero_word = ((layout.len() + 31) / 32) as u32;
        lemma_stage_grows(
            aig,
            *stageds[t - 1],
            parts[t - 1]@,
            num_blocks as nat,
            zero_word,
            sums[t - 1],
            sums[t - 1 + 1],
            maps[t - 1],
            maps[t - 1 + 1],
            flats[t - 1],
        );
    }
}

/// No two partitions share a word of state, whether they belong to one major
/// stage or to different ones.
pub proof fn law_states_apart(
    aig: AIG,
    stageds: Seq<&StagedAIG>,
    parts: Seq<&[Partition]>,
    num_blocks: usize,
    layout: Seq<usize>,
    n: int,
    sums: Seq<Sums>,
    maps: Seq<MapsView>,
    flats: Seq<FlatStage>,
    s: int,
    i: int,
    t: int,
    j: int,
)
    requires
        begun(aig, stageds, parts, num_blocks, layout, n, sums, maps, flats),
        num_blocks >= 1,
        0 <= s < n,
        0 <= t < n,
        0 <= i < parts[s]@.len() <= usize::MAX,
        0 <= j < parts[t]@.len() <= usize::MAX,
        (s, i) != (t, j),
    ensures
        state_end(flats[s].parts@[i]) <= flats[t].parts@[j].starts.state_start || state_end(flats[t].parts@[j])
            <= flats[s].parts@[i].starts.state_start,
{
    let zero_word = ((layout.len() + 31) / 32) as u32;
    let nb = num_blocks as nat;
    let a = lemma_place(aig, *stageds[s], parts[s]@, nb, zero_word, sums[s], sums[s + 1], maps[s], maps[s + 1],
        flats[s], i);
    let b = lemma_place(aig, *stageds[t], parts[t]@, nb, zero_word, sums[t], sums[t + 1], maps[t], maps[t + 1],
        flats[t], j);
    if s == t {
        lemma_apart_in_stage(
            aig,
            *stageds[s],
            parts[s]@,
            nb,
            zero_word,
            sums[s],
            sums[s + 1],
            maps[s],
            maps[s + 1],
            flats[s],
            i,
            j,
        );
    } else if s < t {
        lemma_sums_grow(aig, stageds, parts, num_blocks, layout, n, sums, maps, flats, s + 1, t);
    } else {
        lemma_sums_grow(aig, stageds, parts, num_blocks, layout, n, sums, maps, flats, t + 1, s);
    }
}

proof fn lemma_layout_below(layout: Seq<usize>, n: nat, pin: usize)
    requires
        n <= layout.len() <= u32::MAX,
        layout_map(layout, n).contains_key(pin),
    ensures
        layout_map(layout, n)[pin] < n,
    decreases n,
{
    if n > 0 {
        if layout[n - 1] != usize::MAX && layout[n - 1] == pin {
        } else {
            lemma_layout_below(layout, (n - 1) as nat, pin);
        }
    }
}

/// The word behind the primary inputs is never written, so that it stays zero:
/// flip-flops that store a constant zero are read from there. No primary input
/// is in it, and no partition writes it.
pub proof fn law_zero_word_is_reserved(
    aig: AIG,
    stageds: Seq<&StagedAIG>,
    parts: Seq<&[Partition]>,
    num_blocks: usize,
    layout: Seq<usize>,
    n: int,
    sums: Seq<Sums>,
    maps: Seq<MapsView>,
    flats: Seq<FlatStage>,
    s: int,
    i: int,
    pin: usize,
)
    requires
        begun(aig, stageds, parts, num_blocks, layout, n, sums, maps, flats),
        num_blocks >= 1,
        layout.len() <= 0x7000_0000,
        0 <= s < n,
        0 <= i < parts[s]@.len() <= usize::MAX,
    ensures
        flats[s].parts@[i].starts.zero_bit_pos == (layout.len() + 31) / 32 * 32,
        flats[s].parts@[i].starts.state_start * 32 > flats[s].parts@[i].starts.zero_bit_pos,
        layout_map(layout, layout.len()).contains_key(pin) ==> layout_map(layout, layout.len())[pin]
            < flats[s].parts@[i].starts.zero_bit_pos,
{
    let zero_word = ((layout.len() + 31) / 32) as u32;
    let nb = num_blocks as nat;
    let a = lemma_place(aig, *stageds[s], parts[s]@, nb, zero_word, sums[s], sums[s + 1], maps[s], maps[s + 1],
        flats[s], i);
    lemma_sums_grow(aig, stageds, parts, num_blocks, layout, n, sums, maps, flats, 0, s);
    if layout_map(layout, layout.len()).contains_key(pin) {
        lemma_layout_below(layout, layout.len(), pin);
    }
}

proof fn lemma_blocks_prefix(scripts: Seq<Vec<u32>>, blocks: Seq<Seq<usize>>, b: nat, n: nat)
    requires
        b < n <= blocks.len(),
    ensures
        ({
            let at = blocks_words(scripts, blocks, b).len() as int;
            let words = block_words(scripts, blocks[b as int]);
            &&& at + words.len() <= blocks_words(scripts, blocks, n).len()
            &&& blocks_words(scripts, blocks, n).subrange(at, at + words.len()) == words
        }),
    decreases n,
{
    let at = blocks_words(scripts, blocks, b).len() as int;
    let words = block_words(scripts, blocks[b as int]);
    let all = blocks_words(scripts, blocks, n);
    if b == n - 1 {
        assert(all.subrange(at, at + words.len()) =~= words);
    } else {
        lemma_blocks_prefix(scripts, blocks, b, (n - 1) as nat);
        let rest = blocks_words(scripts, blocks, (n - 1) as nat);
        assert(all.subrange(at, at + words.len()) =~= rest.subrange(at, at + words.len()));
    }
}

proof fn lemma_stages_prefix(scripts: Seq<Vec<Vec<u32>>>, flats: Seq<FlatStage>, s: nat, b: int, n: nat)
    requires
        s < n <= flats.len(),
        0 <= b < flats[s as int].blocks@.len(),
    ensures
        ({
            let at = block_start(scripts, flats, s as int, b) as int;
            let words = block_words(scripts[s as int]@, lists(flats[s as int].blocks@)[b]);
            &&& at + words.len() <= stages_words(scripts, flats, n).len()
            &&& stages_words(scripts, flats, n).subrange(at, at + words.len()) == words
        }),
    decreases n,
{
    let at = block_start(scripts, flats, s as int, b) as int;
    let blocks = lists(flats[s as int].blocks@);
    let words = block_words(scripts[s as int]@, blocks[b]);
    let all = stages_words(scripts, flats, n);
    if s == n - 1 {
        lemma_blocks_prefix(scripts[s as int]@, blocks, b as nat, blocks.len());
        let last = blocks_words(scripts[s as int]@, blocks, blocks.len());
        let before = stages_words(scripts, flats, s);
        let off = at - before.len();
        assert(all == before + last);
        assert(all.subrange(at, at + words.len()) =~= last.subrange(off, off + words.len()));
    } else {
        lemma_stages_prefix(scripts, flats, s, b, (n - 1) as nat);
        let rest = stages_words(scripts, flats, (n - 1) as nat);
        assert(all.subrange(at, at + words.len()) =~= rest.subrange(at, at + words.len()));
    }
}

proof fn lemma_starts(scripts: Seq<Vec<Vec<u32>>>, flats: Seq<FlatStage>, nb: int, s: int, b: int, n: nat)
    requires
        n <= flats.len(),
        0 <= s < n,
        0 <= b < nb,
        forall|t: int| 0 <= t < flats.len() ==> (#[trigger] flats[t]).blocks@.len() == nb,
    ensures
        starts_list(scripts, flats, n).len() == n * nb,
        0 <= s * nb + b < n * nb,
        starts_list(scripts, flats, n)[s * nb + b] == block_start(scripts, flats, s, b) as usize,
    decreases n,
{
    let rest = starts_list(scripts, flats, (n - 1) as nat);
    lemma_starts_len(scripts, flats, nb, (n - 1) as nat);
    lemma_starts_len(scripts, flats, nb, n);
    assert(flats[n - 1].blocks@.len() == nb);
    if s < n - 1 {
        lemma_starts(scripts, flats, nb, s, b, (n - 1) as nat);
    } else {
        assert(s * nb == (n - 1) * nb);
        assert(0 <= (n - 1) * nb) by (nonlinear_arith)
            requires
                n >= 1,
                nb >= 0,
        ;
    }
}

proof fn lemma_starts_len(scripts: Seq<Vec<Vec<u32>>>, flats: Seq<FlatStage>, nb: int, n: nat)
    requires
        n <= flats.len(),
        forall|t: int| 0 <= t < flats.len() ==> (#[trigger] flats[t]).blocks@.len() == nb,
    ensures
        starts_list(scripts, flats, n).len() == n * nb,
        n > 0 ==> n * nb == (n - 1) * nb + nb,
    decreases n,
{
    if n > 0 {
        lemma_starts_len(scripts, flats, nb, (n - 1) as nat);
        assert(flats[n - 1].blocks@.len() == nb);
        assert(n * nb == (n - 1) * nb + nb) by (nonlinear_arith);
    } else {
        assert(0 * nb == 0) by (nonlinear_arith);
    }
}

/// The script of each block is found where the starts say.
pub proof fn law_blocks_are_found(
    aig: AIG,
    stageds: Seq<&StagedAIG>,
    parts: Seq<&[Partition]>,
    num_blocks: usize,
    layout: Seq<usize>,
    sums: Seq<Sums>,
    maps: Seq<MapsView>,
    flats: Seq<FlatStage>,
    scripts: Seq<Vec<Vec<u32>>>,
    f: FlattenedScriptV1,
    s: int,
    b: int,
)
    requires
        flattened_with(aig, stageds, parts, num_blocks, layout, sums, maps, flats, scripts, f),
        num_blocks >= 1,
        forall|t: int| 0 <= t < parts.len() ==> (#[trigger] parts[t])@.len() <= usize::MAX,
        f.blocks_data@.len() <= usize::MAX,
        0 <= s < parts.len(),
        0 <= b < num_blocks,
    ensures
        f.blocks_start@.len() == parts.len() * num_blocks + 1,
        0 <= s * num_blocks + b < parts.len() * num_blocks,
        ({
            let at = f.blocks_start@[s * num_blocks + b] as int;
            let words = block_words(scripts[s]@, lists(flats[s].blocks@)[b]);
            at + words.len() <= f.blocks_data@.len() && f.blocks_data@.subrange(at, at + words.len()) == words
        }),
{
    let n = parts.len();
    let nb = num_blocks as int;
    lemma_block_counts(aig, stageds, parts, num_blocks, layout, sums, maps, flats, scripts, f);
    lemma_starts(scripts, flats, nb, s, b, n);
    lemma_starts_len(scripts, flats, nb, n);
    lemma_stages_prefix(scripts, flats, s as nat, b, n);
    let all = stages_words(scripts, flats, n);
    let at = block_start(scripts, flats, s, b) as int;
    let words = block_words(scripts[s]@, lists(flats[s].blocks@)[b]);
    assert(f.blocks_start@[s * nb + b] == at as usize);
    assert(f.blocks_data@.subrange(at, at + words.len()) =~= all.subrange(at, at + words.len()));
}

/// Claims go up, and what lies ahead of the cursor is as it was.
pub open spec fn ahead(c: Claimed, d: Claimed) -> bool {
    &&& d.occ.len() == c.occ.len()
    &&& c.cursor <= d.cursor <= 8192
    &&& forall|k: int| d.cursor <= k < 8192 ==> #[trigger] d.occ[k] == c.occ[k]
    &&& forall|k: int| 0 <= k < 8192 && #[trigger] c.occ[k] ==> d.occ[k]
}

proof fn lemma_claim_outputs(m: MacroInst, n: nat, c: Claimed)
    requires
        c.occ.len() == 8192,
        0 <= c.cursor <= 8192,
        outputs_fit(m, n, c),
    ensures
        ahead(c, claim_outputs(m, n, c)),
    decreases n,
{
    if n > 0 {
        lemma_claim_outputs(m, (n - 1) as nat, c);
        let d = claim_outputs(m, (n - 1) as nat, c);
        lemma_first_free(d.occ, d.cursor);
        if produces(m, n - 1) {
            assert(first_free(d.occ, d.cursor) < 8192);
        }
    }
}

/// The position that an output of a lane gets.
pub open spec fn output_position(aig: AIG, lanes: Seq<MacroLane>, l: int, s: int, c: Claimed) -> int {
    let d = claim_outputs(mac(aig, lanes[l].macro_i), s as nat, claim_lanes(aig, lanes, l as nat, c));
    first_free(d.occ, d.cursor)
}

/// Does the lane have this output?
pub open spec fn is_lane_output(aig: AIG, lanes: Seq<MacroLane>, l: int, s: int) -> bool {
    0 <= l < lanes.len() && 0 <= s < MACRO_LANE_OUT_SLOTS && produces(mac(aig, lanes[l].macro_i), s)
}

pub(crate) proof fn lemma_claim_lanes(aig: AIG, lanes: Seq<MacroLane>, n: nat, pos: Map<usize, usize>, occ: Seq<bool>)
    requires
        phase_fine(aig, lanes, pos, occ),
        occ.len() == 8192,
        n <= lanes.len(),
    ensures
        ahead(phase_start(occ, pos), claim_lanes(aig, lanes, n, phase_start(occ, pos))),
    decreases n,
{
    let c = phase_start(occ, pos);
    if n > 0 {
        lemma_claim_lanes(aig, lanes, (n - 1) as nat, pos, occ);
        let d = claim_lanes(aig, lanes, (n - 1) as nat, c);
        assert(lane_fine(aig, lanes, n - 1, pos, c));
        lemma_claim_outputs(mac(aig, lanes[n - 1].macro_i), MACRO_LANE_OUT_SLOTS as nat, d);
    }
}

/// The cursor behind an output.
pub(crate) proof fn lemma_output_position(
    aig: AIG,
    lanes: Seq<MacroLane>,
    pos: Map<usize, usize>,
    occ: Seq<bool>,
    l: int,
    s: int,
)
    requires
        phase_fine(aig, lanes, pos, occ),
        occ.len() == 8192,
        is_lane_output(aig, lanes, l, s),
    ensures
        ({
            let c = phase_start(occ, pos);
            let d = claim_outputs(mac(aig, lanes[l].macro_i), s as nat, claim_lanes(aig, lanes, l as nat, c));
            let p = output_position(aig, lanes, l, s, c);
            &&& 4096 <= d.cursor <= p < 8192
            &&& !occ[p]
        }),
{
    let c = phase_start(occ, pos);
    let m = mac(aig, lanes[l].macro_i);
    lemma_claim_lanes(aig, lanes, l as nat, pos, occ);
    let e = claim_lanes(aig, lanes, l as nat, c);
    assert(lane_fine(aig, lanes, l, pos, c));
    assert(outputs_fit(m, s as nat, e)) by {
        assert forall|t: int| 0 <= t < s && #[trigger] produces(m, t) implies ({
            let d = claim_outputs(m, t as nat, e);
            first_free(d.occ, d.cursor) < 8192
        }) by {}
    }
    lemma_claim_outputs(m, s as nat, e);
    let d = claim_outputs(m, s as nat, e);
    lemma_first_free(d.occ, d.cursor);
    assert(first_free(d.occ, d.cursor) < 8192);
    assert(d.occ[first_free(d.occ, d.cursor)] == occ[first_free(d.occ, d.cursor)]);
}

proof fn lemma_cursor_outputs(m: MacroInst, s: nat, t: nat, c: Claimed)
    requires
        s <= t,
        c.occ.len() == 8192,
        0 <= c.cursor <= 8192,
        outputs_fit(m, t, c),
    ensures
        claim_outputs(m, s, c).cursor <= claim_outputs(m, t, c).cursor,
    decreases t,
{
    if s < t {
        lemma_cursor_outputs(m, s, (t - 1) as nat, c);
        lemma_claim_outputs(m, (t - 1) as nat, c);
        let d = claim_outputs(m, (t - 1) as nat, c);
        lemma_first_free(d.occ, d.cursor);
    }
}

proof fn lemma_cursor_lanes(aig: AIG, lanes: Seq<MacroLane>, l: nat, n: nat, pos: Map<usize, usize>, occ: Seq<bool>)
    requires
        phase_fine(aig, lanes, pos, occ),
        occ.len() == 8192,
        l <= n <= lanes.len(),
    ensures
        claim_lanes(aig, lanes, l, phase_start(occ, pos)).cursor <= claim_lanes(
            aig,
            lanes,
            n,
            phase_start(occ, pos),
        ).cursor,
    decreases n,
{
    if l < n {
        let c = phase_start(occ, pos);
        lemma_cursor_lanes(aig, lanes, l, (n - 1) as nat, pos, occ);
        lemma_claim_lanes(aig, lanes, (n - 1) as nat, pos, occ);
        let d = claim_lanes(aig, lanes, (n - 1) as nat, c);
        assert(lane_fine(aig, lanes, n - 1, pos, c));
        lemma_claim_outputs(mac(aig, lanes[n - 1].macro_i), MACRO_LANE_OUT_SLOTS as nat, d);
    }
}

/// A macro phase overwrites nothing: its outputs go to different positions, all
/// of which were free, among those that the first row of gates left unused.
pub proof fn law_phase_outputs_are_fresh(
    aig: AIG,
    lanes: Seq<MacroLane>,
    pos: Map<usize, usize>,
    occ: Seq<bool>,
    l: int,
    s: int,
    k: int,
    t: int,
)
    requires
        phase_fine(aig, lanes, pos, occ),
        occ.len() == 8192,
        is_lane_output(aig, lanes, l, s),
        is_lane_output(aig, lanes, k, t),
        l < k || (l == k && s < t),
    ensures
        4096 <= output_position(aig, lanes, l, s, phase_start(occ, pos)) < 8192,
        !occ[output_position(aig, lanes, l, s, phase_start(occ, pos))],
        output_position(aig, lanes, l, s, phase_start(occ, pos)) < output_position(
            aig,
            lanes,
            k,
            t,
            phase_start(occ, pos),
        ),
{
    let c = phase_start(occ, pos);
    let m = mac(aig, lanes[l].macro_i);
    lemma_output_position(aig, lanes, pos, occ, l, s);
    lemma_output_position(aig, lanes, pos, occ, k, t);
    let e = claim_lanes(aig, lanes, l as nat, c);
    lemma_claim_lanes(aig, lanes, l as nat, pos, occ);
    lemma_claim_lanes(aig, lanes, k as nat, pos, occ);
    assert(lane_fine(aig, lanes, l, pos, c));
    assert(lane_fine(aig, lanes, k, pos, c));
    let p = output_position(aig, lanes, l, s, c);
    assert(claim_outputs(m, (s + 1) as nat, e).cursor == p + 1);
    if l == k {
        assert(outputs_fit(m, t as nat, e));
        lemma_cursor_outputs(m, (s + 1) as nat, t as nat, e);
    } else {
        lemma_cursor_outputs(m, (s + 1) as nat, MACRO_LANE_OUT_SLOTS as nat, e);
        assert(claim_lanes(aig, lanes, (l + 1) as nat, c) == claim_outputs(m, MACRO_LANE_OUT_SLOTS as nat, e));
        lemma_cursor_lanes(aig, lanes, (l + 1) as nat, k as nat, pos, occ);
        let g = claim_lanes(aig, lanes, k as nat, c);
        let x = mac(aig, lanes[k].macro_i);
        assert(outputs_fit(x, t as nat, g));
        lemma_cursor_outputs(x, 0, t as nat, g);
    }
}

/// The words before place `k` of a block.
pub open spec fn words_before(scripts: Seq<Vec<u32>>, block: Seq<usize>, k: int) -> nat
    decreases k,
{
    if k <= 0 {
        0
    } else {
        words_before(scripts, block, k - 1) + scripts[block[k - 1] as int]@.len()
    }
}

proof fn lemma_words_before(scripts: Seq<Vec<u32>>, block: Seq<usize>, n: nat, k: int)
    requires
        n <= block.len(),
        0 <= k < n,
    ensures
        parts_words(scripts, block, n).len() == words_before(scripts, block, n as int),
        ({
            let at = words_before(scripts, block, k) as int;
            let words = scripts[block[k] as int]@;
            at + words.len() <= parts_words(scripts, block, n).len() && parts_words(scripts, block, n).subrange(
                at,
                at + words.len(),
            ) == words
        }),
    decreases n,
{
    let rest = parts_words(scripts, block, (n - 1) as nat);
    let all = parts_words(scripts, block, n);
    let at = words_before(scripts, block, k) as int;
    let words = scripts[block[k] as int]@;
    lemma_words_before_len(scripts, block, (n - 1) as nat);
    if k < n - 1 {
        lemma_words_before(scripts, block, (n - 1) as nat, k);
        assert(all.subrange(at, at + words.len()) =~= rest.subrange(at, at + words.len()));
    } else {
        assert(all.subrange(at, at + words.len()) =~= words);
    }
}

proof fn lemma_words_before_len(scripts: Seq<Vec<u32>>, block: Seq<usize>, n: nat)
    ensures
        parts_words(scripts, block, n).len() == words_before(scripts, block, n as int),
    decreases n,
{
    if n > 0 {
        lemma_words_before_len(scripts, block, (n - 1) as nat);
    }
}

/// The script of each partition is found in the data of its block, behind those of the
/// partitions before it; word 1 marks the last one of the block.
pub proof fn law_partitions_are_found(
    aig: AIG,
    stageds: Seq<&StagedAIG>,
    parts: Seq<&[Partition]>,
    num_blocks: usize,
    layout: Seq<usize>,
    sums: Seq<Sums>,
    maps: Seq<MapsView>,
    flats: Seq<FlatStage>,
    scripts: Seq<Vec<Vec<u32>>>,
    f: FlattenedScriptV1,
    s: int,
    b: int,
    k: int,
)
    requires
        flattened_with(aig, stageds, parts, num_blocks, layout, sums, maps, flats, scripts, f),
        num_blocks >= 1,
        forall|t: int| 0 <= t < parts.len() ==> (#[trigger] parts[t])@.len() <= usize::MAX,
        f.blocks_data@.len() <= usize::MAX,
        0 <= s < parts.len(),
        0 <= b < num_blocks,
        0 <= k < lists(f.stages_blocks_parts@[s]@)[b].len(),
    ensures
        ({
            let block = lists(f.stages_blocks_parts@[s]@)[b];
            let at = f.blocks_start@[s * num_blocks + b] + words_before(scripts[s]@, block, k);
            let words = scripts[s]@[block[k] as int]@;
            let last = k == block.len() - 1;
            &&& at + words.len() <= f.blocks_data@.len()
            &&& f.blocks_data@.subrange(at, at + words.len()) == (if last {
                words.update(1, 1)
            } else {
                words
            })
            &&& words.len() >= 256
            &&& words[1] == 0
            &&& f.blocks_data@[at + 1] == (if last {
                1u32
            } else {
                0u32
            })
        }),
{
    law_blocks_are_found(aig, stageds, parts, num_blocks, layout, sums, maps, flats, scripts, f, s, b);
    let block = lists(f.stages_blocks_parts@[s]@)[b];
    assert(lists(f.stages_blocks_parts@[s]@) == lists(flats[s].blocks@));
    let start = f.blocks_start@[s * num_blocks + b] as int;
    let i = block[k] as int;
    assert(i < parts[s]@.len()) by {
        let costs = part_costs(parts[s]@);
        let zero_word = ((layout.len() + 31) / 32) as u32;
        assert(parts[s]@.len() <= usize::MAX);
        assert(stage_flat(
            aig,
            *stageds[s],
            parts[s]@,
            num_blocks as nat,
            zero_word,
            sums[s],
            sums[s + 1],
            maps[s],
            maps[s + 1],
            flats[s],
        ));
        lemma_arranged(costs, num_blocks as nat, parts[s]@.len());
    }
    lemma_words(aig, stageds, parts, num_blocks, layout, sums, maps, flats, scripts, f, s, i);
    lemma_in_block(scripts[s]@, block, k, f.blocks_data@, start);
}

/// The script of a part is found in that of its block.
proof fn lemma_in_block(scripts: Seq<Vec<u32>>, block: Seq<usize>, k: int, data: Seq<u32>, start: int)
    requires
        0 <= k < block.len(),
        0 <= start,
        start + block_words(scripts, block).len() <= data.len(),
        data.subrange(start, start + block_words(scripts, block).len()) == block_words(scripts, block),
        scripts[block[k] as int]@.len() >= 256,
    ensures
        ({
            let at = start + words_before(scripts, block, k);
            let words = scripts[block[k] as int]@;
            let marked = if k == block.len() - 1 {
                words.update(1, 1)
            } else {
                words
            };
            &&& at + words.len() <= data.len()
            &&& data.subrange(at, at + words.len()) == marked
            &&& data[at + 1] == marked[1]
        }),
{
    let all = block_words(scripts, block);
    let n = block.len();
    let front = parts_words(scripts, block, (n - 1) as nat);
    let x = words_before(scripts, block, k) as int;
    let at = start + x;
    let words = scripts[block[k] as int]@;
    lemma_words_before_len(scripts, block, (n - 1) as nat);
    if k < n - 1 {
        lemma_words_before(scripts, block, (n - 1) as nat, k);
        assert(data.subrange(at, at + words.len()) =~= all.subrange(x, x + words.len()));
        assert(all.subrange(x, x + words.len()) =~= front.subrange(x, x + words.len()));
    } else {
        assert(all == front + words.update(1, 1));
        assert(data.subrange(at, at + words.len()) =~= all.subrange(x, x + words.len()));
        assert(all.subrange(x, x + words.len()) =~= words.update(1, 1));
    }
    assert(data[at + 1] == data.subrange(at, at + words.len())[1]);
}

/// Blocks follow each other without gaps, from the beginning on: each ends where the next
/// one starts, and what is behind the last one is 2048 words of zeros. A block without
/// partitions has 256 words, which are zeros but for the mark in word 1.
#[verifier::rlimit(50)]
pub proof fn law_blocks_follow_each_other(
    aig: AIG,
    stageds: Seq<&StagedAIG>,
    parts: Seq<&[Partition]>,
    num_blocks: usize,
    layout: Seq<usize>,
    sums: Seq<Sums>,
    maps: Seq<MapsView>,
    flats: Seq<FlatStage>,
    scripts: Seq<Vec<Vec<u32>>>,
    f: FlattenedScriptV1,
    s: int,
    b: int,
)
    requires
        flattened_with(aig, stageds, parts, num_blocks, layout, sums, maps, flats, scripts, f),
        num_blocks >= 1,
        forall|t: int| 0 <= t < parts.len() ==> (#[trigger] parts[t])@.len() <= usize::MAX,
        f.blocks_data@.len() <= usize::MAX,
        0 <= s < parts.len(),
        0 <= b < num_blocks,
    ensures
        ({
            let block = lists(f.stages_blocks_parts@[s]@)[b];
            let j = s * num_blocks + b;
            let at = f.blocks_start@[j] as int;
            let end = f.blocks_start@[parts.len() * num_blocks] as int;
            &&& f.blocks_start@[0] == 0
            &&& f.blocks_start@[j + 1] == at + (if block.len() == 0 {
                256
            } else {
                words_before(scripts[s]@, block, block.len() as int)
            })
            &&& block.len() == 0 ==> forall|i: int|
                0 <= i < 256 ==> #[trigger] f.blocks_data@[at + i] == (if i == 1 {
                    1u32
                } else {
                    0u32
                })
            &&& end + 2048 == f.blocks_data@.len()
            &&& forall|i: int| end <= i < f.blocks_data@.len() ==> #[trigger] f.blocks_data@[i] == 0
        }),
{
    let n = parts.len();
    let nb = num_blocks as int;
    lemma_block_counts(aig, stageds, parts, num_blocks, layout, sums, maps, flats, scripts, f);
    assert(lists(f.stages_blocks_parts@[s]@) == lists(flats[s].blocks@));
    let block = lists(flats[s].blocks@)[b];
    assert(block.len() > 0 ==> scripts[s]@[block.last() as int]@.len() >= 256) by {
        if block.len() > 0 {
            let k = block.len() - 1;
            law_partitions_are_found(aig, stageds, parts, num_blocks, layout, sums, maps, flats, scripts, f, s, b, k);
        }
    }
    lemma_layout(scripts, flats, nb, s, b, n, f.blocks_data@, f.blocks_start@);
}

/// Blocks follow each other, and zeros follow the last one.
proof fn lemma_layout(
    scripts: Seq<Vec<Vec<u32>>>,
    flats: Seq<FlatStage>,
    nb: int,
    s: int,
    b: int,
    n: nat,
    data: Seq<u32>,
    starts: Seq<usize>,
)
    requires
        n <= flats.len(),
        0 <= s < n,
        0 <= b < nb,
        forall|t: int| 0 <= t < flats.len() ==> (#[trigger] flats[t]).blocks@.len() == nb,
        data == stages_words(scripts, flats, n) + Seq::new(2048, |i: int| 0u32),
        data.len() <= usize::MAX,
        starts == starts_list(scripts, flats, n).push(stages_words(scripts, flats, n).len() as usize),
        ({
            let block = lists(flats[s].blocks@)[b];
            block.len() > 0 ==> scripts[s]@[block.last() as int]@.len() >= 256
        }),
    ensures
        ({
            let block = lists(flats[s].blocks@)[b];
            let at = starts[s * nb + b] as int;
            let end = starts[n * nb] as int;
            &&& starts[0] == 0
            &&& starts[s * nb + b + 1] == at + (if block.len() == 0 {
                256
            } else {
                words_before(scripts[s]@, block, block.len() as int)
            })
            &&& block.len() == 0 ==> forall|i: int|
                0 <= i < 256 ==> #[trigger] data[at + i] == (if i == 1 {
                    1u32
                } else {
                    0u32
                })
            &&& end + 2048 == data.len()
            &&& forall|i: int| end <= i < data.len() ==> #[trigger] data[i] == 0
        }),
{
    let all = stages_words(scripts, flats, n);
    let block = lists(flats[s].blocks@)[b];
    let words = block_words(scripts[s]@, block);
    lemma_starts_len(scripts, flats, nb, n);
    lemma_next_block(scripts, flats, nb, s, b, n, starts);
    lemma_first_block(scripts, flats, nb, n);
    lemma_block_size(scripts[s]@, block);
    lemma_starts(scripts, flats, nb, s, b, n);
    assert(flats[s].blocks@.len() == nb);
    lemma_stages_prefix(scripts, flats, s as nat, b, n);
    let at = block_start(scripts, flats, s, b) as int;
    assert(starts[s * nb + b] == at as usize);
    if block.len() == 0 {
        assert forall|i: int| 0 <= i < 256 implies #[trigger] data[at + i] == (if i == 1 {
            1u32
        } else {
            0u32
        }) by {
            assert(idle_block()[i] == all.subrange(at, at + words.len())[i]);
        }
    }
}

proof fn lemma_block_size(scripts: Seq<Vec<u32>>, block: Seq<usize>)
    requires
        block.len() > 0 ==> scripts[block.last() as int]@.len() >= 256,
    ensures
        block_words(scripts, block).len() == (if block.len() == 0 {
            256
        } else {
            words_before(scripts, block, block.len() as int)
        }),
{
    if block.len() > 0 {
        lemma_words_before_len(scripts, block, (block.len() - 1) as nat);
    }
}

proof fn lemma_first_block(scripts: Seq<Vec<Vec<u32>>>, flats: Seq<FlatStage>, nb: int, n: nat)
    requires
        0 < n <= flats.len(),
        nb >= 1,
        forall|t: int| 0 <= t < flats.len() ==> (#[trigger] flats[t]).blocks@.len() == nb,
    ensures
        starts_list(scripts, flats, n).len() > 0,
        starts_list(scripts, flats, n)[0] == 0,
{
    lemma_starts(scripts, flats, nb, 0, 0, n);
    assert(0 * nb == 0) by (nonlinear_arith);
}

/// A block starts where the one before it ends.
proof fn lemma_next_block(
    scripts: Seq<Vec<Vec<u32>>>,
    flats: Seq<FlatStage>,
    nb: int,
    s: int,
    b: int,
    n: nat,
    starts: Seq<usize>,
)
    requires
        n <= flats.len(),
        0 <= s < n,
        0 <= b < nb,
        forall|t: int| 0 <= t < flats.len() ==> (#[trigger] flats[t]).blocks@.len() == nb,
        starts == starts_list(scripts, flats, n).push(stages_words(scripts, flats, n).len() as usize),
        stages_words(scripts, flats, n).len() <= usize::MAX,
    ensures
        starts[s * nb + b + 1] == starts[s * nb + b] + block_words(scripts[s]@, lists(flats[s].blocks@)[b]).len(),
{
    let blocks = lists(flats[s].blocks@);
    let words = block_words(scripts[s]@, blocks[b]);
    let at = block_start(scripts, flats, s, b) as int;
    assert(flats[s].blocks@.len() == nb);
    lemma_starts(scripts, flats, nb, s, b, n);
    lemma_starts_len(scripts, flats, nb, n);
    lemma_stages_prefix(scripts, flats, s as nat, b, n);
    assert(starts[s * nb + b] == at as usize);
    assert(block_start(scripts, flats, s, b + 1) == at + words.len());
    if b + 1 < nb {
        lemma_starts(scripts, flats, nb, s, b + 1, n);
    } else {
        assert((s + 1) * nb == s * nb + nb) by (nonlinear_arith);
        assert(stages_words(scripts, flats, (s + 1) as nat).len() == at + words.len());
        if s + 1 < n {
            lemma_starts(scripts, flats, nb, s + 1, 0, n);
        }
    }
}

proof fn lemma_block_counts(
    aig: AIG,
    stageds: Seq<&StagedAIG>,
    parts: Seq<&[Partition]>,
    num_blocks: usize,
    layout: Seq<usize>,
    sums: Seq<Sums>,
    maps: Seq<MapsView>,
    flats: Seq<FlatStage>,
    scripts: Seq<Vec<Vec<u32>>>,
    f: FlattenedScriptV1,
)
    requires
        flattened_with(aig, stageds, parts, num_blocks, layout, sums, maps, flats, scripts, f),
        num_blocks >= 1,
        forall|t: int| 0 <= t < parts.len() ==> (#[trigger] parts[t])@.len() <= usize::MAX,
    ensures
        flats.len() == parts.len(),
        forall|t: int| 0 <= t < flats.len() ==> (#[trigger] flats[t]).blocks@.len() == num_blocks,
{
    assert forall|t: int| 0 <= t < flats.len() implies (#[trigger] flats[t]).blocks@.len() == num_blocks by {
        let costs = part_costs(parts[t]@);
        let zero_word = ((layout.len() + 31) / 32) as u32;
        assert(parts[t]@.len() <= usize::MAX);
        assert(stage_flat(
            aig,
            *stageds[t],
            parts[t]@,
            num_blocks as nat,
            zero_word,
            sums[t],
            sums[t + 1],
            maps[t],
            maps[t + 1],
            flats[t],
        ));
        lemma_arranged(costs, num_blocks as nat, parts[t]@.len());
        assert(lists(flats[t].blocks@).len() == num_blocks);
    }
}

} // verus!
