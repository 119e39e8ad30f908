//! Where the partitions of a flattened script keep what they store.

use super::assemble::{begun, final_offsets, flattened_with, FlattenedScriptV1};
use super::laws::{law_states_apart, lemma_place, lemma_sum_order, lemma_sums_grow};
use super::machine::{lemma_counts, normal_words};
use super::script::{first_state, script_ok};
use super::stages::{
    lemma_sum_part, part_flat, sram_words_of, stage_flat, starts_at, sum_upto, FlatStage, MapsView, Sums,
};
use crate::aig::AIG;
use crate::pe::partition::Partition;
use crate::pe::process::lists;
use crate::staging::StagedAIG;
use vstd::prelude::*;

verus! {

/// Do two ranges, given by their starts and lengths, share nothing?
pub open spec fn ranges_apart(a: int, n: int, b: int, m: int) -> bool {
    a + n <= b || b + m <= a
}

/// The SRAMs of a part lie between what is used before its major stage and behind
/// it.
proof fn lemma_srams_within(
    aig: AIG,
    staged: StagedAIG,
    parts: Seq<Partition>,
    num_blocks: nat,
    zero_word: u32,
    s0: Sums,
    s1: Sums,
    m0: MapsView,
    m1: MapsView,
    flat: FlatStage,
    i: int,
) -> (place: (int, int))
    requires
        stage_flat(aig, staged, parts, num_blocks, zero_word, s0, s1, m0, m1, flat),
        num_blocks >= 1,
        parts.len() <= usize::MAX,
        0 <= i < parts.len(),
    ensures
        ({
            let blocks = lists(flat.blocks@);
            let (b, k) = place;
            let start = flat.parts@[i].starts.sram_start;
            &&& 0 <= b < blocks.len()
            &&& 0 <= k < blocks[b].len()
            &&& blocks[b][k] == i
            &&& start == s0.srams + sum_upto(blocks, b, k, sram_words_of(flat.parts@))
            &&& s0.srams <= start
            &&& start + 8192 * flat.parts@[i].shape.num_srams <= s1.srams
        }),
{
    let blocks = lists(flat.blocks@);
    let (b, k) = lemma_place(aig, staged, parts, num_blocks, zero_word, s0, s1, m0, m1, flat, i);
    let w = sram_words_of(flat.parts@);
    lemma_sum_part(blocks, b, k, w);
    assert(w(i) == flat.parts@[i].shape.num_srams * 8192);
    assert(flat.parts@[i].starts == starts_at(flat.parts@, blocks, zero_word, s0, b, k));
    (b, k)
}

/// No two partitions share a word of SRAM storage, and all of it is allocated.
proof fn lemma_srams_apart(
    aig: AIG,
    stageds: Seq<&StagedAIG>,
    parts: Seq<&[Partition]>,
    num_blocks: usize,
    layout: Seq<usize>,
    n: int,
    sums: Seq<Sums>,
    maps: Seq<MapsView>,
    flats: Seq<FlatStage>,
    s: int,
    i: int,
    t: int,
    j: int,
)
    requires
        begun(aig, stageds, parts, num_blocks, layout, n, sums, maps, flats),
        num_blocks >= 1,
        0 <= s <= t < n,
        0 <= i < parts[s]@.len() <= usize::MAX,
        0 <= j < parts[t]@.len() <= usize::MAX,
        (s, i) != (t, j),
    ensures
        ({
            let a = flats[s].parts@[i];
            let b = flats[t].parts@[j];
            ranges_apart(
                a.starts.sram_start as int,
                8192 * a.shape.num_srams,
                b.starts.sram_start as int,
                8192 * b.shape.num_srams,
            )
        }),
{
    let zero_word = ((layout.len() + 31) / 32) as u32;
    let nb = num_blocks as nat;
    let (b, k) = lemma_srams_within(aig, *stageds[s], parts[s]@, nb, zero_word, sums[s], sums[s + 1], maps[s],
        maps[s + 1], flats[s], i);
    let (c, l) = lemma_srams_within(aig, *stageds[t], parts[t]@, nb, zero_word, sums[t], sums[t + 1], maps[t],
        maps[t + 1], flats[t], j);
    if s < t {
        lemma_sums_grow(aig, stageds, parts, num_blocks, layout, n, sums, maps, flats, s + 1, t);
    } else {
        let blocks = lists(flats[s].blocks@);
        let w = sram_words_of(flats[s].parts@);
        assert(w(i) == flats[s].parts@[i].shape.num_srams * 8192);
        assert(w(j) == flats[s].parts@[j].shape.num_srams * 8192);
        if b < c || (b == c && k < l) {
            lemma_sum_order(blocks, b, k, c, l, w);
        } else {
            assert(!(b == c && k == l));
            lemma_sum_order(blocks, c, l, b, k, w);
        }
    }
}

/// Partitions keep out of each other's way, whether they belong to one major stage
/// or to different ones. Words 2 and 3 of a script are the length and start of what
/// its partition stores, and words 4 and 5 are the number of its SRAMs, of 8192
/// words each, and the start of the first one. No two partitions share a word of
/// either, and all words are allocated.
pub proof fn law_memories_apart(
    aig: AIG,
    stageds: Seq<&StagedAIG>,
    parts: Seq<&[Partition]>,
    num_blocks: usize,
    layout: Seq<usize>,
    sums: Seq<Sums>,
    maps: Seq<MapsView>,
    flats: Seq<FlatStage>,
    scripts: Seq<Vec<Vec<u32>>>,
    f: FlattenedScriptV1,
    s: int,
    i: int,
    t: int,
    j: int,
)
    requires
        flattened_with(aig, stageds, parts, num_blocks, layout, sums, maps, flats, scripts, f),
        num_blocks >= 1,
        0 <= s < parts.len(),
        0 <= t < parts.len(),
        0 <= i < parts[s]@.len() <= usize::MAX,
        0 <= j < parts[t]@.len() <= usize::MAX,
    ensures
        ({
            let a = scripts[s]@[i]@;
            let b = scripts[t]@[j]@;
            &&& a[3] + a[2] <= f.reg_io_state_size
            &&& a[5] + 8192 * a[4] <= f.sram_storage_size
            &&& (s, i) != (t, j) ==> ranges_apart(a[3] as int, a[2] as int, b[3] as int, b[2] as int)
            &&& (s, i) != (t, j) ==> ranges_apart(a[5] as int, 8192 * a[4], b[5] as int, 8192 * b[4])
        }),
{
    let n = parts.len() as int;
    let zero_word = ((layout.len() + 31) / 32) as u32;
    let nb = num_blocks as nat;
    lemma_words(aig, stageds, parts, num_blocks, layout, sums, maps, flats, scripts, f, s, i);
    lemma_words(aig, stageds, parts, num_blocks, layout, sums, maps, flats, scripts, f, t, j);
    let _ = lemma_place(aig, *stageds[s], parts[s]@, nb, zero_word, sums[s], sums[s + 1], maps[s], maps[s + 1],
        flats[s], i);
    let _ = lemma_srams_within(aig, *stageds[s], parts[s]@, nb, zero_word, sums[s], sums[s + 1], maps[s], maps[s + 1],
        flats[s], i);
    lemma_sums_grow(aig, stageds, parts, num_blocks, layout, n, sums, maps, flats, s + 1, n);
    if (s, i) != (t, j) {
        law_states_apart(aig, stageds, parts, num_blocks, layout, n, sums, maps, flats, s, i, t, j);
        if s <= t {
            lemma_srams_apart(aig, stageds, parts, num_blocks, layout, n, sums, maps, flats, s, i, t, j);
        } else {
            lemma_srams_apart(aig, stageds, parts, num_blocks, layout, n, sums, maps, flats, t, j, s, i);
        }
    }
}

/// The words of a partition's script that say where it keeps what it stores.
pub(super) proof fn lemma_words(
    aig: AIG,
    stageds: Seq<&StagedAIG>,
    parts: Seq<&[Partition]>,
    num_blocks: usize,
    layout: Seq<usize>,
    sums: Seq<Sums>,
    maps: Seq<MapsView>,
    flats: Seq<FlatStage>,
    scripts: Seq<Vec<Vec<u32>>>,
    f: FlattenedScriptV1,
    s: int,
    i: int,
)
    requires
        flattened_with(aig, stageds, parts, num_blocks, layout, sums, maps, flats, scripts, f),
        0 <= s < parts.len(),
        0 <= i < parts[s]@.len(),
    ensures
        ({
            let a = scripts[s]@[i]@;
            let p = flats[s].parts@[i];
            let off = final_offsets(aig, parts, flats, f.sram_storage_size).off;
            &&& part_flat(aig, *stageds[s], parts[s]@[i], p)
            &&& script_ok(aig, p, parts[s]@[i], maps[parts.len() as int].input, maps[parts.len() as int].staged_io,
                off, a)
            &&& a.len() >= 256
            &&& a[1] == 0
            &&& a[2] == p.shape.num_writeouts
            &&& a[3] == p.starts.state_start
            &&& a[4] == p.shape.num_srams
            &&& a[5] == p.starts.sram_start
            &&& a[7] == p.shape.num_duplicate_writeouts
            &&& a[9] == p.shape.num_dsps
            &&& a[10] == first_state(parts[s]@[i], off)
            &&& normal_words(a) == p.shape.num_normal_writeouts
        }),
{
    let n = parts.len() as int;
    let a = scripts[s]@[i]@;
    let p = flats[s].parts@[i];
    let off = final_offsets(aig, parts, flats, sums[n].srams).off;
    assert(flats[s].parts@.len() == parts[s]@.len());
    assert(part_flat(aig, *stageds[s], parts[s]@[i], p));
    assert(scripts[s]@[i]@ == a);
    assert(script_ok(aig, p, parts[s]@[i], maps[n].input, maps[n].staged_io, off, a));
    lemma_counts(aig, *stageds[s], p, parts[s]@[i], maps[n].input, maps[n].staged_io, off, a);
}

} // verus!
