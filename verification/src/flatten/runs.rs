//! Where partitions find the states of the macros that they commit.

use super::assemble::{
    assign_offsets, block_macros, blocks_macros, final_offsets, flattened_with, lemma_cursor_grows,
    lemma_offsets_bound, lemma_offsets_stay, in_lane, offsets_fit, stages_macros, state_order, state_size,
    stateful_below, FlattenedScriptV1, Offsets,
};
use super::blocks::{arranged, law_arranged_once, lemma_arranged};
use super::machine::lemma_before;
use super::memory::{lemma_words, ranges_apart};
use super::part::count_dsps;
use super::stages::{part_costs, stage_flat, FlatStage, MapsView, Sums};
use crate::aig::AIG;
use crate::pe::commits::macros_among;
use crate::pe::partition::Partition;
use crate::pe::process::lists;
use crate::pe::waves::mac;
use crate::staging::StagedAIG;
use vstd::prelude::*;

verus! {

/// The `a`-th macro whose state partition `i` of major stage `s` commits.
pub open spec fn commit(parts: Seq<&[Partition]>, s: int, i: int, a: int) -> usize {
    parts[s]@[i].state_macros@[a]
}

/// Is there such a macro?
pub open spec fn is_commit(parts: Seq<&[Partition]>, s: int, i: int, a: int) -> bool {
    0 <= s < parts.len() && 0 <= i < parts[s]@.len() && 0 <= a < parts[s]@[i].state_macros@.len()
}

/// Is the state of every macro committed in one place at most?
pub open spec fn commits_once(parts: Seq<&[Partition]>) -> bool {
    forall|s: int, i: int, a: int, t: int, j: int, b: int|
        is_commit(parts, s, i, a) && is_commit(parts, t, j, b) && #[trigger] commit(parts, s, i, a)
            == #[trigger] commit(parts, t, j, b) ==> s == t && i == j && a == b
}

/// Does the partition commit its macro endpoint groups, all of which are DSPs?
pub open spec fn commits_dsps(aig: AIG, staged: StagedAIG, part: Partition) -> bool {
    &&& part.state_macros@.len() == macros_among(aig, staged, part.endpoints@, part.endpoints@.len() as int)
    &&& forall|a: int|
        0 <= a < part.state_macros@.len() ==> mac(aig, #[trigger] part.state_macros@[a]).kind is Dsp48e2
}

/// Which part of a block an entry comes from.
proof fn lemma_block_origin(parts: Seq<Partition>, block: Seq<usize>, n: nat, y: int) -> (k: int)
    requires
        0 <= y < block_macros(parts, block, n).len(),
    ensures
        0 <= k < n,
        ({
            let at = block_macros(parts, block, k as nat).len();
            let ids = parts[block[k] as int].state_macros@;
            0 <= y - at < ids.len() && block_macros(parts, block, n)[y] == ids[y - at]
        }),
    decreases n,
{
    let rest = block_macros(parts, block, (n - 1) as nat);
    if y < rest.len() {
        lemma_block_origin(parts, block, (n - 1) as nat, y)
    } else {
        n - 1
    }
}

/// Which place an entry comes from.
proof fn lemma_blocks_origin(parts: Seq<Partition>, blocks: Seq<Seq<usize>>, n: nat, y: int) -> (place: (int, int))
    requires
        0 <= y < blocks_macros(parts, blocks, n).len(),
    ensures
        0 <= place.0 < n,
        0 <= place.1 < blocks[place.0].len(),
        ({
            let (b, k) = place;
            let at = blocks_macros(parts, blocks, b as nat).len() + block_macros(parts, blocks[b], k as nat).len();
            let ids = parts[blocks[b][k] as int].state_macros@;
            0 <= y - at < ids.len() && blocks_macros(parts, blocks, n)[y] == ids[y - at]
        }),
    decreases n,
{
    let rest = blocks_macros(parts, blocks, (n - 1) as nat);
    if y < rest.len() {
        lemma_blocks_origin(parts, blocks, (n - 1) as nat, y)
    } else {
        let block = blocks[n - 1];
        let k = lemma_block_origin(parts, block, block.len(), y - rest.len());
        (n - 1, k)
    }
}

/// Where the macros of part `k` of block `b` of major stage `s` come among all.
pub open spec fn run_start(parts: Seq<&[Partition]>, flats: Seq<FlatStage>, s: int, b: int, k: int) -> nat {
    let blocks = lists(flats[s].blocks@);
    stages_macros(parts, flats, s as nat).len() + blocks_macros(parts[s]@, blocks, b as nat).len() + block_macros(
        parts[s]@,
        blocks[b],
        k as nat,
    ).len()
}

/// Which major stage and place an entry comes from.
proof fn lemma_stages_origin(parts: Seq<&[Partition]>, flats: Seq<FlatStage>, n: nat, y: int) -> (place: (
    int,
    int,
    int,
))
    requires
        0 <= y < stages_macros(parts, flats, n).len(),
    ensures
        ({
            let (s, b, k) = place;
            let blocks = lists(flats[s].blocks@);
            let at = run_start(parts, flats, s, b, k);
            let ids = parts[s]@[blocks[b][k] as int].state_macros@;
            &&& 0 <= s < n
            &&& 0 <= b < blocks.len()
            &&& 0 <= k < blocks[b].len()
            &&& 0 <= y - at < ids.len()
            &&& stages_macros(parts, flats, n)[y] == ids[y - at]
        }),
    decreases n,
{
    let rest = stages_macros(parts, flats, (n - 1) as nat);
    if y < rest.len() {
        lemma_stages_origin(parts, flats, (n - 1) as nat, y)
    } else {
        let blocks = lists(flats[n - 1].blocks@);
        let (b, k) = lemma_blocks_origin(parts[n - 1]@, blocks, blocks.len(), y - rest.len());
        (n - 1, b, k)
    }
}

proof fn lemma_block_found(parts: Seq<Partition>, block: Seq<usize>, n: nat, k: int, a: int)
    requires
        0 <= k < n <= block.len(),
        0 <= a < parts[block[k] as int].state_macros@.len(),
    ensures
        ({
            let y = block_macros(parts, block, k as nat).len() + a;
            0 <= y < block_macros(parts, block, n).len() && block_macros(parts, block, n)[y]
                == parts[block[k] as int].state_macros@[a]
        }),
    decreases n,
{
    if k < n - 1 {
        lemma_block_found(parts, block, (n - 1) as nat, k, a);
    }
}

proof fn lemma_blocks_found(parts: Seq<Partition>, blocks: Seq<Seq<usize>>, n: nat, b: int, k: int, a: int)
    requires
        0 <= b < n <= blocks.len(),
        0 <= k < blocks[b].len(),
        0 <= a < parts[blocks[b][k] as int].state_macros@.len(),
    ensures
        ({
            let y = blocks_macros(parts, blocks, b as nat).len() + block_macros(parts, blocks[b], k as nat).len() + a;
            0 <= y < blocks_macros(parts, blocks, n).len() && blocks_macros(parts, blocks, n)[y]
                == parts[blocks[b][k] as int].state_macros@[a]
        }),
    decreases n,
{
    if b < n - 1 {
        lemma_blocks_found(parts, blocks, (n - 1) as nat, b, k, a);
    } else {
        lemma_block_found(parts, blocks[b], blocks[b].len(), k, a);
    }
}

proof fn lemma_stages_found(
    parts: Seq<&[Partition]>,
    flats: Seq<FlatStage>,
    n: nat,
    s: int,
    b: int,
    k: int,
    a: int,
)
    requires
        0 <= s < n <= flats.len(),
        0 <= b < lists(flats[s].blocks@).len(),
        0 <= k < lists(flats[s].blocks@)[b].len(),
        0 <= a < parts[s]@[lists(flats[s].blocks@)[b][k] as int].state_macros@.len(),
    ensures
        ({
            let y = run_start(parts, flats, s, b, k) + a;
            0 <= y < stages_macros(parts, flats, n).len() && stages_macros(parts, flats, n)[y]
                == parts[s]@[lists(flats[s].blocks@)[b][k] as int].state_macros@[a]
        }),
    decreases n,
{
    if s < n - 1 {
        lemma_stages_found(parts, flats, (n - 1) as nat, s, b, k, a);
    } else {
        let blocks = lists(flats[s].blocks@);
        lemma_blocks_found(parts[s]@, blocks, blocks.len(), b, k, a);
    }
}

/// An entry that is new gets the next free offset, and keeps it.
proof fn lemma_new_offset(aig: AIG, ids: Seq<usize>, origin: int, x: int)
    requires
        0 <= origin,
        0 <= x < ids.len(),
        forall|y: int| 0 <= y < x ==> #[trigger] ids[y] != ids[x],
        assign_offsets(aig, ids, ids.len(), Offsets { off: Map::empty(), cursor: origin }).cursor <= u32::MAX,
    ensures
        ({
            let base = Offsets { off: Map::<usize, u32>::empty(), cursor: origin };
            let here = assign_offsets(aig, ids, x as nat, base);
            let next = assign_offsets(aig, ids, (x + 1) as nat, base);
            let end = assign_offsets(aig, ids, ids.len(), base);
            &&& end.off.contains_key(ids[x])
            &&& end.off[ids[x]] == here.cursor
            &&& next.cursor == here.cursor + mac(aig, ids[x]).kind.spec_state_words()
            &&& origin <= here.cursor
            &&& next.cursor <= end.cursor
        }),
{
    let base = Offsets { off: Map::<usize, u32>::empty(), cursor: origin };
    let n = ids.len();
    lemma_offsets_bound(aig, ids, x as nat, base);
    let here = assign_offsets(aig, ids, x as nat, base);
    assert(!here.off.contains_key(ids[x])) by {
        if here.off.contains_key(ids[x]) {
            let k = choose|k: int| 0 <= k < x && ids[k] == ids[x];
            assert(ids[k] != ids[x]);
        }
    }
    lemma_cursor_grows(aig, ids, x as nat, n, base);
    lemma_cursor_grows(aig, ids, (x + 1) as nat, n, base);
    lemma_offsets_stay(aig, ids, (x + 1) as nat, n, base, ids[x]);
}

/// Where a part is on the blocks of its major stage.
proof fn lemma_part_place(
    aig: AIG,
    staged: StagedAIG,
    parts: Seq<Partition>,
    num_blocks: nat,
    zero_word: u32,
    s0: Sums,
    s1: Sums,
    m0: MapsView,
    m1: MapsView,
    flat: FlatStage,
    i: int,
) -> (place: (int, int))
    requires
        stage_flat(aig, staged, parts, num_blocks, zero_word, s0, s1, m0, m1, flat),
        num_blocks >= 1,
        parts.len() <= usize::MAX,
        0 <= i < parts.len(),
    ensures
        ({
            let blocks = lists(flat.blocks@);
            let (b, k) = place;
            &&& 0 <= b < blocks.len()
            &&& 0 <= k < blocks[b].len()
            &&& blocks[b][k] == i
            &&& forall|c: int, l: int|
                0 <= c < blocks.len() && 0 <= l < blocks[c].len() && #[trigger] blocks[c][l] == i ==> c == b && l == k
            &&& forall|c: int, l: int|
                0 <= c < blocks.len() && 0 <= l < blocks[c].len() ==> #[trigger] blocks[c][l] < parts.len()
        }),
{
    let blocks = lists(flat.blocks@);
    let costs = part_costs(parts);
    lemma_arranged(costs, num_blocks, parts.len());
    law_arranged_once(costs, num_blocks, parts.len(), i as usize);
    let b = choose|b: int|
        0 <= b < num_blocks && (#[trigger] arranged(costs, num_blocks, parts.len())[b]).contains(i as usize);
    let k = blocks[b].index_of(i as usize);
    assert(blocks[b][k] == i as usize);
    (b, k)
}

/// Is there such a place on the blocks of a major stage?
spec fn is_place(flats: Seq<FlatStage>, t: int, c: int, l: int) -> bool {
    0 <= t < flats.len() && 0 <= c < lists(flats[t].blocks@).len() && 0 <= l < lists(flats[t].blocks@)[c].len()
}

/// The partition at a place.
spec fn part_at(flats: Seq<FlatStage>, t: int, c: int, l: int) -> int {
    lists(flats[t].blocks@)[c][l] as int
}

/// Does the partition have this place, and no other?
spec fn only_place(flats: Seq<FlatStage>, t: int, i: int, b: int, k: int) -> bool {
    &&& is_place(flats, t, b, k)
    &&& part_at(flats, t, b, k) == i
    &&& forall|c: int, l: int|
        is_place(flats, t, c, l) && #[trigger] part_at(flats, t, c, l) == i ==> c == b && l == k
}

/// Does every partition have one place?
#[verifier::opaque]
spec fn well_placed(parts: Seq<&[Partition]>, flats: Seq<FlatStage>) -> bool {
    &&& flats.len() == parts.len()
    &&& forall|t: int, c: int, l: int|
        is_place(flats, t, c, l) ==> 0 <= #[trigger] part_at(flats, t, c, l) < parts[t]@.len()
    &&& forall|t: int, i: int| #[trigger] has_place(parts, flats, t, i)
}

/// Does the partition have one place, if there is such a partition?
spec fn has_place(parts: Seq<&[Partition]>, flats: Seq<FlatStage>, t: int, i: int) -> bool {
    0 <= t < parts.len() && 0 <= i < parts[t]@.len() ==> exists|b: int, k: int| #[trigger]
        only_place(flats, t, i, b, k)
}

proof fn lemma_well_placed(
    aig: AIG,
    stageds: Seq<&StagedAIG>,
    parts: Seq<&[Partition]>,
    num_blocks: usize,
    layout: Seq<usize>,
    sums: Seq<Sums>,
    maps: Seq<MapsView>,
    flats: Seq<FlatStage>,
    scripts: Seq<Vec<Vec<u32>>>,
    f: FlattenedScriptV1,
)
    requires
        flattened_with(aig, stageds, parts, num_blocks, layout, sums, maps, flats, scripts, f),
        num_blocks >= 1,
        forall|t: int| 0 <= t < parts.len() ==> (#[trigger] parts[t])@.len() <= usize::MAX,
    ensures
        well_placed(parts, flats),
{
    reveal(well_placed);
    let nb = num_blocks as nat;
    let zero_word = ((layout.len() + 31) / 32) as u32;
    assert forall|t: int, i: int| #[trigger] has_place(parts, flats, t, i) by {
        if 0 <= t < parts.len() && 0 <= i < parts[t]@.len() {
            assert(parts[t]@.len() <= usize::MAX);
            let (b, k) = lemma_part_place(aig, *stageds[t], parts[t]@, nb, zero_word, sums[t], sums[t + 1], maps[t],
                maps[t + 1], flats[t], i);
            assert(only_place(flats, t, i, b, k));
        }
    }
    assert forall|t: int, c: int, l: int| is_place(flats, t, c, l) implies 0 <= #[trigger] part_at(flats, t, c, l)
        < parts[t]@.len() by {
        assert(parts[t]@.len() <= usize::MAX);
        assert(stage_flat(
            aig,
            *stageds[t],
            parts[t]@,
            nb,
            zero_word,
            sums[t],
            sums[t + 1],
            maps[t],
            maps[t + 1],
            flats[t],
        ));
        lemma_arranged(part_costs(parts[t]@), nb, parts[t]@.len());
    }
}

/// Do the macros of a partition come one after the other from an entry on, and none
/// of them earlier?
#[verifier::opaque]
spec fn is_run_at(ids: Seq<usize>, parts: Seq<&[Partition]>, s: int, i: int, at: int) -> bool {
    &&& 0 <= at
    &&& forall|a: int| #[trigger] is_commit(parts, s, i, a) ==> entry_is(ids, at + a, commit(parts, s, i, a))
}

/// Is the entry the given macro, for the first time?
spec fn entry_is(ids: Seq<usize>, x: int, m: usize) -> bool {
    0 <= x < ids.len() && ids[x] == m && forall|y: int| 0 <= y < x ==> #[trigger] ids[y] != m
}

proof fn lemma_run(aig: AIG, parts: Seq<&[Partition]>, flats: Seq<FlatStage>, s: int, i: int) -> (at: int)
    requires
        well_placed(parts, flats),
        commits_once(parts),
        0 <= s < parts.len(),
        0 <= i < parts[s]@.len(),
    ensures
        is_run_at(state_order(aig, parts, flats), parts, s, i, at),
{
    reveal(well_placed);
    reveal(is_run_at);
    let ids = state_order(aig, parts, flats);
    let all = stages_macros(parts, flats, flats.len());
    assert(has_place(parts, flats, s, i));
    let (b, k) = choose|b: int, k: int| #[trigger] only_place(flats, s, i, b, k);
    let at = run_start(parts, flats, s, b, k) as int;
    assert forall|a: int| #[trigger] is_commit(parts, s, i, a) implies entry_is(
        ids,
        at + a,
        commit(parts, s, i, a),
    ) by {
        lemma_stages_found(parts, flats, flats.len(), s, b, k, a);
        assert(ids[at + a] == all[at + a]);
        assert forall|y: int| 0 <= y < at + a implies #[trigger] ids[y] != commit(parts, s, i, a) by {
            assert(ids[y] == all[y]);
            let (t, c, l) = lemma_stages_origin(parts, flats, flats.len(), y);
            let j = part_at(flats, t, c, l);
            let x = y - run_start(parts, flats, t, c, l);
            assert(is_place(flats, t, c, l));
            assert(is_commit(parts, t, j, x));
            assert(ids[y] == commit(parts, t, j, x));
            if ids[y] == commit(parts, s, i, a) {
                assert(t == s && j == i && x == a);
                assert(c == b && l == k);
            }
        }
    }
    at
}

/// The states of the DSPs of a partition follow each other, two words each, from the
/// first one on.
proof fn lemma_run_offsets(
    aig: AIG,
    parts: Seq<&[Partition]>,
    ids: Seq<usize>,
    origin: int,
    s: int,
    i: int,
    at: int,
    d: int,
)
    requires
        is_run_at(ids, parts, s, i, at),
        0 <= origin,
        assign_offsets(aig, ids, ids.len(), Offsets { off: Map::empty(), cursor: origin }).cursor <= u32::MAX,
        forall|a: int|
            0 <= a < parts[s]@[i].state_macros@.len() ==> mac(
                aig,
                #[trigger] parts[s]@[i].state_macros@[a],
            ).kind is Dsp48e2,
        is_commit(parts, s, i, d),
    ensures
        0 <= at,
        at + d < ids.len(),
        ids[at + d] == commit(parts, s, i, d),
        ({
            let base = Offsets { off: Map::<usize, u32>::empty(), cursor: origin };
            let end = assign_offsets(aig, ids, ids.len(), base);
            let here = assign_offsets(aig, ids, at as nat, base).cursor;
            &&& end.off.contains_key(commit(parts, s, i, d))
            &&& end.off[commit(parts, s, i, d)] == here + 2 * d
            &&& assign_offsets(aig, ids, (at + d + 1) as nat, base).cursor == here + 2 * d + 2
            &&& origin <= here
            &&& here + 2 * d + 2 <= end.cursor
        }),
    decreases d,
{
    reveal(is_run_at);
    if d > 0 {
        assert(is_commit(parts, s, i, d - 1));
        lemma_run_offsets(aig, parts, ids, origin, s, i, at, d - 1);
    }
    let m = commit(parts, s, i, d);
    assert(entry_is(ids, at + d, m));
    assert(m == parts[s]@[i].state_macros@[d]);
    lemma_new_offset(aig, ids, origin, at + d);
}

/// The runs of two partitions share nothing.
proof fn lemma_runs_apart(
    aig: AIG,
    parts: Seq<&[Partition]>,
    ids: Seq<usize>,
    origin: int,
    s: int,
    i: int,
    x: int,
    t: int,
    j: int,
    y: int,
)
    requires
        commits_once(parts),
        is_run_at(ids, parts, s, i, x),
        is_run_at(ids, parts, t, j, y),
        is_commit(parts, s, i, 0),
        is_commit(parts, t, j, 0),
        (s, i) != (t, j),
    ensures
        x + parts[s]@[i].state_macros@.len() <= y || y + parts[t]@[j].state_macros@.len() <= x,
{
    reveal(is_run_at);
    let n = parts[s]@[i].state_macros@.len() as int;
    let m = parts[t]@[j].state_macros@.len() as int;
    if x + n > y && y + m > x {
        // A common entry would be committed twice.
        let z = if x <= y {
            y
        } else {
            x
        };
        assert(is_commit(parts, s, i, z - x) && is_commit(parts, t, j, z - y));
        assert(entry_is(ids, x + (z - x), commit(parts, s, i, z - x)));
        assert(entry_is(ids, y + (z - y), commit(parts, t, j, z - y)));
        assert(commit(parts, s, i, z - x) == commit(parts, t, j, z - y));
        assert(false);
    }
}

/// Partitions find the states of their DSPs. Word 9 of a script is the number of the
/// partition's DSPs, and word 10 is where the state of the first one is: the others
/// follow it, two words each, in the order in which the partition commits them, behind
/// the SRAMs. No two partitions share a word of these, and all words are allocated.
pub proof fn law_dsp_states_are_found(
    aig: AIG,
    stageds: Seq<&StagedAIG>,
    parts: Seq<&[Partition]>,
    num_blocks: usize,
    layout: Seq<usize>,
    sums: Seq<Sums>,
    maps: Seq<MapsView>,
    flats: Seq<FlatStage>,
    scripts: Seq<Vec<Vec<u32>>>,
    f: FlattenedScriptV1,
    s: int,
    i: int,
    d: int,
    t: int,
    j: int,
)
    requires
        flattened_with(aig, stageds, parts, num_blocks, layout, sums, maps, flats, scripts, f),
        num_blocks >= 1,
        commits_once(parts),
        forall|t: int| 0 <= t < parts.len() ==> (#[trigger] parts[t])@.len() <= usize::MAX,
        0 <= s < parts.len(),
        0 <= i < parts[s]@.len(),
        commits_dsps(aig, *stageds[s], parts[s]@[i]),
        0 <= t < parts.len(),
        0 <= j < parts[t]@.len(),
        commits_dsps(aig, *stageds[t], parts[t]@[j]),
    ensures
        ({
            let a = scripts[s]@[i]@;
            let b = scripts[t]@[j]@;
            let off = final_offsets(aig, parts, flats, f.sram_storage_size).off;
            &&& a[9] == parts[s]@[i].state_macros@.len()
            &&& 0 <= d < a[9] ==> off.contains_key(parts[s]@[i].state_macros@[d])
                && off[parts[s]@[i].state_macros@[d]] == a[10] + 2 * d
            &&& a[9] > 0 ==> f.sram_storage_size <= a[10] && a[10] + 2 * a[9] <= f.sram_storage_size
                + f.macro_storage_size
            &&& (s, i) != (t, j) && a[9] > 0 && b[9] > 0 ==> ranges_apart(
                a[10] as int,
                2 * a[9],
                b[10] as int,
                2 * b[9],
            )
        }),
{
    let ids = state_order(aig, parts, flats);
    let origin = f.sram_storage_size as int;
    let base = Offsets { off: Map::<usize, u32>::empty(), cursor: origin };
    let n = parts[s]@[i].state_macros@.len() as int;
    let m = parts[t]@[j].state_macros@.len() as int;
    lemma_well_placed(aig, stageds, parts, num_blocks, layout, sums, maps, flats, scripts, f);
    lemma_words(aig, stageds, parts, num_blocks, layout, sums, maps, flats, scripts, f, s, i);
    lemma_words(aig, stageds, parts, num_blocks, layout, sums, maps, flats, scripts, f, t, j);
    lemma_dsp_count(aig, *stageds[s], parts[s]@[i]);
    lemma_dsp_count(aig, *stageds[t], parts[t]@[j]);
    let x = lemma_run(aig, parts, flats, s, i);
    let y = lemma_run(aig, parts, flats, t, j);
    assert(assign_offsets(aig, ids, ids.len(), base).cursor == origin + f.macro_storage_size);
    if n > 0 {
        lemma_run_offsets(aig, parts, ids, origin, s, i, x, 0);
        lemma_run_offsets(aig, parts, ids, origin, s, i, x, n - 1);
        if 0 <= d < n {
            lemma_run_offsets(aig, parts, ids, origin, s, i, x, d);
        }
    }
    if (s, i) != (t, j) && n > 0 && m > 0 {
        lemma_run_offsets(aig, parts, ids, origin, t, j, y, 0);
        lemma_run_offsets(aig, parts, ids, origin, t, j, y, m - 1);
        lemma_runs_apart(aig, parts, ids, origin, s, i, x, t, j, y);
        if x + n <= y {
            lemma_cursor_grows(aig, ids, (x + n) as nat, y as nat, base);
        } else {
            lemma_cursor_grows(aig, ids, (y + m) as nat, x as nat, base);
        }
    }
}

/// A partition counts its macro endpoint groups.
proof fn lemma_dsp_count(aig: AIG, staged: StagedAIG, part: Partition)
    ensures
        count_dsps(aig, staged, part.endpoints@) == macros_among(
            aig,
            staged,
            part.endpoints@,
            part.endpoints@.len() as int,
        ),
{
    let n = part.endpoints@.len() as int;
    lemma_before(aig, staged, part, n);
    assert(part.endpoints@.take(n) =~= part.endpoints@);
}

/// A macro with state is among those whose states are laid out.
proof fn lemma_stateful_listed(aig: AIG, n: nat, m: usize)
    requires
        m < n <= usize::MAX,
        mac(aig, m).kind is Dsp48e2 || mac(aig, m).kind is Srlc32e,
    ensures
        stateful_below(aig, n).contains(m),
    decreases n,
{
    let rest = stateful_below(aig, (n - 1) as nat);
    let all = stateful_below(aig, n);
    if m < n - 1 {
        lemma_stateful_listed(aig, (n - 1) as nat, m);
        assert(all[rest.index_of(m)] == m);
    } else {
        assert(all[rest.len() as int] == m);
    }
}

/// Two states that are laid out share nothing.
proof fn lemma_offsets_apart(aig: AIG, ids: Seq<usize>, n: nat, base: Offsets, x: usize, y: usize)
    requires
        base.off == Map::<usize, u32>::empty(),
        0 <= base.cursor,
        n <= ids.len(),
        assign_offsets(aig, ids, n, base).cursor <= u32::MAX,
        assign_offsets(aig, ids, n, base).off.contains_key(x),
        assign_offsets(aig, ids, n, base).off.contains_key(y),
        x != y,
    ensures
        ({
            let off = assign_offsets(aig, ids, n, base).off;
            ranges_apart(off[x] as int, state_size(aig, x), off[y] as int, state_size(aig, y))
        }),
    decreases n,
{
    if n > 0 {
        let rest = assign_offsets(aig, ids, (n - 1) as nat, base);
        lemma_cursor_grows(aig, ids, (n - 1) as nat, n, base);
        lemma_offsets_bound(aig, ids, (n - 1) as nat, base);
        if rest.off.contains_key(x) && rest.off.contains_key(y) {
            lemma_offsets_apart(aig, ids, (n - 1) as nat, base, x, y);
        }
    }
}

/// Every macro with state has a place for it, two words for a DSP and one for an SRLC32E,
/// behind the SRAMs and within what is allocated. No two macros share a word, and that of a
/// macro in a lane can be told by the descriptor of the lane.
pub proof fn law_macro_states_apart(
    aig: AIG,
    stageds: Seq<&StagedAIG>,
    parts: Seq<&[Partition]>,
    num_blocks: usize,
    layout: Seq<usize>,
    sums: Seq<Sums>,
    maps: Seq<MapsView>,
    flats: Seq<FlatStage>,
    scripts: Seq<Vec<Vec<u32>>>,
    f: FlattenedScriptV1,
    x: usize,
    y: usize,
)
    requires
        flattened_with(aig, stageds, parts, num_blocks, layout, sums, maps, flats, scripts, f),
        aig.macros.vals().len() <= usize::MAX,
        x < aig.macros.vals().len(),
        !(mac(aig, x).kind is Carry4),
    ensures
        ({
            let off = final_offsets(aig, parts, flats, f.sram_storage_size).off;
            let size = |m: usize|
                if mac(aig, m).kind is Dsp48e2 {
                    2int
                } else {
                    1int
                };
            &&& off.contains_key(x)
            &&& f.sram_storage_size <= off[x]
            &&& off[x] + size(x) <= f.sram_storage_size + f.macro_storage_size
            &&& x != y && y < aig.macros.vals().len() && !(mac(aig, y).kind is Carry4) ==> off.contains_key(y)
                && ranges_apart(off[x] as int, size(x), off[y] as int, size(y))
            &&& in_lane(parts, x) ==> off[x] < 0x1_0000
        }),
{
    let ids = state_order(aig, parts, flats);
    let n = aig.macros.vals().len();
    let base = Offsets { off: Map::<usize, u32>::empty(), cursor: f.sram_storage_size as int };
    let front = stages_macros(parts, flats, flats.len());
    let back = stateful_below(aig, n);
    lemma_offsets_bound(aig, ids, ids.len(), base);
    lemma_stateful_listed(aig, n, x);
    assert(ids[front.len() + back.index_of(x)] == x);
    let all = final_offsets(aig, parts, flats, f.sram_storage_size);
    assert(all == assign_offsets(aig, ids, ids.len(), base));
    assert(all.off.contains_key(x));
    assert(f.sram_storage_size <= all.off[x]);
    assert(all.off[x] + state_size(aig, x) <= all.cursor);
    assert(offsets_fit(parts, all.off));
    assert(in_lane(parts, x) ==> all.off[x] < 0x1_0000);
    if x != y && y < n && !(mac(aig, y).kind is Carry4) {
        lemma_stateful_listed(aig, n, y);
        assert(ids[front.len() + back.index_of(y)] == y);
        lemma_offsets_apart(aig, ids, ids.len(), base, x, y);
    }
}

} // verus!
