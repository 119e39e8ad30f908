//! Assembling the scripts of all partitions.

use super::error::FlattenError;
use super::outputs::sram_data_ok;
use super::script::{script_fault, script_ok};
use super::stages::{flatten_stage, parts_sized, stage_fault, stage_flat, FlatStage, Maps, MapsView, Sums, MAX_STATE};
use crate::aig::AIG;
use crate::collections::{pos_get, pos_insert, pos_new, pos_view};
use crate::pe::budget::endpoints_readable;
use crate::pe::partition::{MacroStage, Partition};
use crate::pe::process::lists;
use crate::pe::waves::{mac, producers_ok};
use crate::staging::StagedAIG;
use indexmap::IndexMap;
use vstd::prelude::*;

verus! {

/// Offsets of macro states: what is assigned so far, and the next free one.
pub ghost struct Offsets {
    pub off: Map<usize, u32>,
    pub cursor: int,
}

/// Offsets with those of further macros, each of which gets one the first time
/// it comes.
pub open spec fn assign_offsets(aig: AIG, ids: Seq<usize>, n: nat, base: Offsets) -> Offsets
    decreases n,
{
    if n == 0 {
        base
    } else {
        let rest = assign_offsets(aig, ids, (n - 1) as nat, base);
        let m = ids[n - 1];
        if rest.off.contains_key(m) {
            rest
        } else {
            Offsets {
                off: rest.off.insert(m, rest.cursor as u32),
                cursor: rest.cursor + mac(aig, m).kind.spec_state_words(),
            }
        }
    }
}

/// The macros whose state the first `k` parts of a block commit.
pub open spec fn block_macros(parts: Seq<Partition>, block: Seq<usize>, k: nat) -> Seq<usize>
    decreases k,
{
    if k == 0 {
        Seq::empty()
    } else {
        block_macros(parts, block, (k - 1) as nat) + parts[block[k - 1] as int].state_macros@
    }
}

/// The macros whose state the first `b` blocks commit.
pub open spec fn blocks_macros(parts: Seq<Partition>, blocks: Seq<Seq<usize>>, b: nat) -> Seq<usize>
    decreases b,
{
    if b == 0 {
        Seq::empty()
    } else {
        blocks_macros(parts, blocks, (b - 1) as nat) + block_macros(parts, blocks[b - 1], blocks[b - 1].len())
    }
}

/// The macros whose state the first `s` major stages commit.
pub open spec fn stages_macros(parts: Seq<&[Partition]>, flats: Seq<FlatStage>, s: nat) -> Seq<usize>
    decreases s,
{
    if s == 0 {
        Seq::empty()
    } else {
        let blocks = lists(flats[s - 1].blocks@);
        stages_macros(parts, flats, (s - 1) as nat) + blocks_macros(parts[s - 1]@, blocks, blocks.len())
    }
}

/// The first `n` macros of the graph that have state.
pub open spec fn stateful_below(aig: AIG, n: nat) -> Seq<usize>
    decreases n,
{
    if n == 0 {
        Seq::empty()
    } else if mac(aig, (n - 1) as usize).kind.spec_has_state() {
        stateful_below(aig, (n - 1) as nat).push((n - 1) as usize)
    } else {
        stateful_below(aig, (n - 1) as nat)
    }
}

/// The macros in the order in which their states are laid out: those that
/// partitions commit, block by block, and then all others.
pub open spec fn state_order(aig: AIG, parts: Seq<&[Partition]>, flats: Seq<FlatStage>) -> Seq<usize> {
    stages_macros(parts, flats, flats.len()) + stateful_below(aig, aig.macros.vals().len())
}

/// The macros in the order in which their states are laid out.
fn make_state_order(aig: &AIG, parts: &[&[Partition]], flats: &Vec<FlatStage>) -> (ids: Vec<usize>)
    requires
        aig.macros.wf(),
        flats@.len() == parts@.len(),
        forall|s: int, b: int, k: int|
            0 <= s < flats@.len() && 0 <= b < flats@[s].blocks@.len() && 0 <= k < flats@[s].blocks@[b]@.len()
                ==> #[trigger] flats@[s].blocks@[b]@[k] < parts@[s]@.len(),
    ensures
        ids@ == state_order(*aig, parts@, flats@),
{
    let mut ids: Vec<usize> = Vec::new();
    let mut s: usize = 0;
    while s < flats.len()
        invariant
            flats@.len() == parts@.len(),
            forall|s: int, b: int, k: int|
                0 <= s < flats@.len() && 0 <= b < flats@[s].blocks@.len() && 0 <= k < flats@[s].blocks@[b]@.len()
                    ==> #[trigger] flats@[s].blocks@[b]@[k] < parts@[s]@.len(),
            s <= flats@.len(),
            ids@ == stages_macros(parts@, flats@, s as nat),
        decreases flats@.len() - s,
    {
        let ghost ids0 = ids@;
        let ghost bl = lists(flats@[s as int].blocks@);
        let ghost ps = parts@[s as int]@;
        let mut b: usize = 0;
        while b < flats[s].blocks.len()
            invariant
                flats@.len() == parts@.len(),
                s < flats@.len(),
                bl == lists(flats@[s as int].blocks@),
                ps == parts@[s as int]@,
                forall|s: int, b: int, k: int|
                    0 <= s < flats@.len() && 0 <= b < flats@[s].blocks@.len() && 0 <= k < flats@[s].blocks@[b]@.len()
                        ==> #[trigger] flats@[s].blocks@[b]@[k] < parts@[s]@.len(),
                b <= bl.len(),
                ids@ == ids0 + blocks_macros(ps, bl, b as nat),
            decreases bl.len() - b,
        {
            let ghost ids1 = ids@;
            let mut k: usize = 0;
            while k < flats[s].blocks[b].len()
                invariant
                    flats@.len() == parts@.len(),
                    s < flats@.len(),
                    b < flats@[s as int].blocks@.len(),
                    bl == lists(flats@[s as int].blocks@),
                    ps == parts@[s as int]@,
                    forall|s: int, b: int, k: int|
                        0 <= s < flats@.len() && 0 <= b < flats@[s].blocks@.len() && 0 <= k
                            < flats@[s].blocks@[b]@.len() ==> #[trigger] flats@[s].blocks@[b]@[k] < parts@[s]@.len(),
                    k <= bl[b as int].len(),
                    ids@ == ids1 + block_macros(ps, bl[b as int], k as nat),
                decreases bl[b as int].len() - k,
            {
                let id = flats[s].blocks[b][k];
                assert(flats@[s as int].blocks@[b as int]@[k as int] < parts@[s as int]@.len());
                let row = parts[s];
                ids.extend_from_slice(row[id].state_macros.as_slice());
                assert(ids@ =~= ids1 + block_macros(ps, bl[b as int], (k + 1) as nat));
                k += 1;
            }
            assert(ids@ =~= ids0 + blocks_macros(ps, bl, (b + 1) as nat));
            b += 1;
        }
        s += 1;
    }
    let ghost ids2 = ids@;
    let n = aig.macros.len();
    let mut i: usize = 0;
    while i < n
        invariant
            aig.macros.wf(),
            n == aig.macros.vals().len(),
            i <= n,
            ids@ == ids2 + stateful_below(*aig, i as nat),
        decreases n - i,
    {
        if aig.macros.value(i).kind.has_state() {
            ids.push(i);
        }
        assert(ids@ =~= ids2 + stateful_below(*aig, (i + 1) as nat));
        i += 1;
    }
    ids
}

/// The words of a macro's state.
pub open spec fn state_size(aig: AIG, m: usize) -> int {
    mac(aig, m).kind.spec_state_words() as int
}

pub(super) proof fn lemma_offsets_bound(aig: AIG, ids: Seq<usize>, n: nat, base: Offsets)
    requires
        base.off == Map::<usize, u32>::empty(),
        0 <= base.cursor,
        n <= ids.len(),
    ensures
        base.cursor <= assign_offsets(aig, ids, n, base).cursor,
        assign_offsets(aig, ids, n, base).cursor <= u32::MAX ==> forall|m: usize| #[trigger]
            assign_offsets(aig, ids, n, base).off.contains_key(m) ==> base.cursor <= assign_offsets(
                aig,
                ids,
                n,
                base,
            ).off[m] && assign_offsets(aig, ids, n, base).off[m] + state_size(aig, m) <= assign_offsets(
                aig,
                ids,
                n,
                base,
            ).cursor,
        forall|m: usize| #[trigger]
            assign_offsets(aig, ids, n, base).off.contains_key(m) <==> exists|i: int| 0 <= i < n && ids[i] == m,
    decreases n,
{
    let all = assign_offsets(aig, ids, n, base);
    if n > 0 {
        lemma_offsets_bound(aig, ids, (n - 1) as nat, base);
        let rest = assign_offsets(aig, ids, (n - 1) as nat, base);
        assert forall|m: usize| #[trigger] all.off.contains_key(m) <==> exists|i: int| 0 <= i < n && ids[i] == m by {
            if all.off.contains_key(m) {
                if rest.off.contains_key(m) {
                    let i = choose|i: int| 0 <= i < n - 1 && ids[i] == m;
                    assert(ids[i] == m);
                } else {
                    assert(ids[n - 1] == m);
                }
            }
            if exists|i: int| 0 <= i < n && ids[i] == m {
                let i = choose|i: int| 0 <= i < n && ids[i] == m;
                if i < n - 1 {
                    assert(rest.off.contains_key(m));
                }
            }
        }
        if all.cursor <= u32::MAX {
            assert forall|m: usize| #[trigger] all.off.contains_key(m) implies base.cursor <= all.off[m] && all.off[m]
                + state_size(aig, m) <= all.cursor by {
                if rest.off.contains_key(m) {
                    assert(all.off[m] == rest.off[m]);
                }
            }
        }
    }
}

/// The states of two macros do not overlap: they come in the order in which the
/// macros first occur, behind the origin.
pub proof fn law_macro_states_in_order(aig: AIG, ids: Seq<usize>, origin: int, i: int, j: int)
    requires
        0 <= origin,
        0 <= i < j < ids.len(),
        ids[i] != ids[j],
        forall|k: int| 0 <= k < j ==> #[trigger] ids[k] != ids[j],
        assign_offsets(aig, ids, ids.len(), Offsets { off: Map::empty(), cursor: origin }).cursor <= u32::MAX,
    ensures
        ({
            let off = assign_offsets(aig, ids, ids.len(), Offsets { off: Map::empty(), cursor: origin }).off;
            off.contains_key(ids[i]) && off.contains_key(ids[j]) && origin <= off[ids[i]] && off[ids[i]]
                + state_size(aig, ids[i]) <= off[ids[j]]
        }),
{
    let base = Offsets { off: Map::<usize, u32>::empty(), cursor: origin };
    let n = ids.len();
    lemma_offsets_bound(aig, ids, j as nat, base);
    lemma_offsets_bound(aig, ids, (j + 1) as nat, base);
    let a = assign_offsets(aig, ids, j as nat, base);
    let b = assign_offsets(aig, ids, (j + 1) as nat, base);
    assert(a.off.contains_key(ids[i])) by {
        assert(0 <= i < j && ids[i] == ids[i]);
    }
    assert(!a.off.contains_key(ids[j])) by {
        if a.off.contains_key(ids[j]) {
            let k = choose|k: int| 0 <= k < j && ids[k] == ids[j];
            assert(ids[k] != ids[j]);
        }
    }
    lemma_cursor_grows(aig, ids, j as nat, n, base);
    lemma_cursor_grows(aig, ids, (j + 1) as nat, n, base);
    assert(b.off[ids[j]] == a.cursor);
    assert(b.off[ids[i]] == a.off[ids[i]]);
    lemma_offsets_stay(aig, ids, (j + 1) as nat, n, base, ids[i]);
    lemma_offsets_stay(aig, ids, (j + 1) as nat, n, base, ids[j]);
}

pub(super) proof fn lemma_offsets_stay(aig: AIG, ids: Seq<usize>, k: nat, n: nat, base: Offsets, m: usize)
    requires
        k <= n <= ids.len(),
        assign_offsets(aig, ids, k, base).off.contains_key(m),
    ensures
        assign_offsets(aig, ids, n, base).off.contains_key(m),
        assign_offsets(aig, ids, n, base).off[m] == assign_offsets(aig, ids, k, base).off[m],
    decreases n,
{
    if k < n {
        lemma_offsets_stay(aig, ids, k, (n - 1) as nat, base, m);
    }
}

/// Where all macros with state are DSPs, and SRAMs end at a 64-bit boundary, the
/// states of macros are 64-bit aligned.
pub proof fn law_dsp_states_aligned(aig: AIG, ids: Seq<usize>, n: nat, origin: int)
    requires
        0 <= origin,
        origin % 2 == 0,
        n <= ids.len(),
        forall|k: int| 0 <= k < ids.len() ==> mac(aig, #[trigger] ids[k]).kind is Dsp48e2,
        assign_offsets(aig, ids, n, Offsets { off: Map::empty(), cursor: origin }).cursor <= u32::MAX,
    ensures
        assign_offsets(aig, ids, n, Offsets { off: Map::empty(), cursor: origin }).cursor % 2 == 0,
        forall|m: usize| #[trigger]
            assign_offsets(aig, ids, n, Offsets { off: Map::empty(), cursor: origin }).off.contains_key(m)
                ==> assign_offsets(aig, ids, n, Offsets { off: Map::empty(), cursor: origin }).off[m] % 2 == 0,
    decreases n,
{
    let base = Offsets { off: Map::<usize, u32>::empty(), cursor: origin };
    if n > 0 {
        lemma_cursor_grows(aig, ids, (n - 1) as nat, n, base);
        law_dsp_states_aligned(aig, ids, (n - 1) as nat, origin);
        lemma_offsets_bound(aig, ids, (n - 1) as nat, base);
        let rest = assign_offsets(aig, ids, (n - 1) as nat, base);
        let all = assign_offsets(aig, ids, n, base);
        assert(mac(aig, ids[n - 1]).kind is Dsp48e2);
        assert forall|m: usize| #[trigger] all.off.contains_key(m) implies all.off[m] % 2 == 0 by {
            if rest.off.contains_key(m) {
                assert(all.off[m] == rest.off[m]);
            }
        }
    }
}

/// Does the macro stand in a lane of the phase?
pub open spec fn phase_has(phase: MacroStage, m: usize) -> bool {
    exists|l: int| 0 <= l < phase.lanes@.len() && (#[trigger] phase.lanes@[l]).macro_i == m
}

/// Does the macro stand in a lane of the partition?
pub open spec fn part_has(p: Partition, m: usize) -> bool {
    exists|w: int| 0 <= w < p.macro_stages@.len() && phase_has(#[trigger] p.macro_stages@[w], m)
}

/// Does the macro stand in a lane of one of the partitions?
pub open spec fn stage_has(parts: Seq<Partition>, m: usize) -> bool {
    exists|i: int| 0 <= i < parts.len() && part_has(#[trigger] parts[i], m)
}

/// Does the macro stand in a lane?
pub open spec fn in_lane(parts: Seq<&[Partition]>, m: usize) -> bool {
    exists|s: int| 0 <= s < parts.len() && stage_has((#[trigger] parts[s])@, m)
}

/// Does the macro stand in a lane of the partition?
fn find_in_part(p: &Partition, m: usize) -> (b: bool)
    ensures
        b == part_has(*p, m),
{
    let mut w: usize = 0;
    while w < p.macro_stages.len()
        invariant
            w <= p.macro_stages@.len(),
            forall|v: int| 0 <= v < w ==> !phase_has(#[trigger] p.macro_stages@[v], m),
        decreases p.macro_stages@.len() - w,
    {
        let phase = &p.macro_stages[w];
        let mut l: usize = 0;
        while l < phase.lanes.len()
            invariant
                w < p.macro_stages@.len(),
                *phase == p.macro_stages@[w as int],
                l <= phase.lanes@.len(),
                forall|k: int| 0 <= k < l ==> (#[trigger] phase.lanes@[k]).macro_i != m,
            decreases phase.lanes@.len() - l,
        {
            if phase.lanes[l].macro_i == m {
                assert(phase.lanes@[l as int].macro_i == m);
                assert(phase_has(p.macro_stages@[w as int], m));
                return true;
            }
            l += 1;
        }
        w += 1;
    }
    false
}

/// Does the macro stand in a lane?
fn find_in_lanes(parts: &[&[Partition]], m: usize) -> (b: bool)
    ensures
        b == in_lane(parts@, m),
{
    let mut s: usize = 0;
    while s < parts.len()
        invariant
            s <= parts@.len(),
            forall|v: int| 0 <= v < s ==> !stage_has((#[trigger] parts@[v])@, m),
        decreases parts@.len() - s,
    {
        let stage = parts[s];
        let mut i: usize = 0;
        while i < stage.len()
            invariant
                s < parts@.len(),
                stage == parts@[s as int],
                i <= stage@.len(),
                forall|k: int| 0 <= k < i ==> !part_has(#[trigger] stage@[k], m),
            decreases stage@.len() - i,
        {
            if find_in_part(&stage[i], m) {
                assert(part_has(stage@[i as int], m));
                assert(stage_has(parts@[s as int]@, m));
                return true;
            }
            i += 1;
        }
        s += 1;
    }
    false
}

/// Do the offsets of macros that stand in lanes fit into the upper half of a
/// lane's descriptor?
pub open spec fn offsets_fit(parts: Seq<&[Partition]>, off: Map<usize, u32>) -> bool {
    forall|m: usize| #[trigger] off.contains_key(m) && in_lane(parts, m) ==> off[m] < LANE_OFFSET_END
}

/// Does macro `ids[i]` stand in a lane, with an offset that would not fit?
pub open spec fn offset_lost(
    aig: AIG,
    parts: Seq<&[Partition]>,
    ids: Seq<usize>,
    origin: int,
    i: int,
) -> bool {
    let before = assign_offsets(aig, ids, i as nat, Offsets { off: Map::empty(), cursor: origin });
    0 <= i < ids.len() && !before.off.contains_key(ids[i]) && in_lane(parts, ids[i]) && before.cursor
        >= LANE_OFFSET_END
}

/// The end of the state offsets that the descriptor of a lane can hold.
pub const LANE_OFFSET_END: u32 = 0x1_0000;

/// Why do macro states get no offsets: because a macro does not exist, or
/// because they are too large together or begin too late?
pub open spec fn offsets_fault(
    aig: AIG,
    parts: Seq<&[Partition]>,
    ids: Seq<usize>,
    origin: int,
    e: FlattenError,
) -> bool {
    if e is Malformed {
        exists|i: int| 0 <= i < ids.len() && #[trigger] ids[i] >= aig.macros.vals().len()
    } else {
        e is StateTooLarge && (assign_offsets(
            aig,
            ids,
            ids.len(),
            Offsets { off: Map::empty(), cursor: origin },
        ).cursor > u32::MAX || exists|i: int| #[trigger] offset_lost(aig, parts, ids, origin, i))
    }
}

pub(super) proof fn lemma_cursor_grows(aig: AIG, ids: Seq<usize>, k: nat, n: nat, base: Offsets)
    requires
        k <= n,
    ensures
        assign_offsets(aig, ids, k, base).cursor <= assign_offsets(aig, ids, n, base).cursor,
    decreases n,
{
    if k < n {
        lemma_cursor_grows(aig, ids, k, (n - 1) as nat, base);
    }
}

/// Assigns offsets to macro states. The error is a macro that does not exist,
/// or that there is too much state.
fn make_offsets(aig: &AIG, parts: &[&[Partition]], ids: &Vec<usize>, origin: u32) -> (r: Result<
    (IndexMap<usize, u32>, u32),
    FlattenError,
>)
    requires
        aig.macros.wf(),
    ensures
        r matches Ok((off, end)) ==> {
            let o = assign_offsets(
                *aig,
                ids@,
                ids@.len(),
                Offsets { off: Map::empty(), cursor: origin as int },
            );
            pos_view(off) == o.off && end == o.cursor && origin <= end && offsets_fit(parts@, o.off)
        },
        r matches Err(e) ==> offsets_fault(*aig, parts@, ids@, origin as int, e),
{
    let ghost base = Offsets { off: Map::<usize, u32>::empty(), cursor: origin as int };
    let mut off = pos_new();
    let mut cursor: u32 = origin;
    let mut i: usize = 0;
    assert(pos_view(off) =~= base.off);
    while i < ids.len()
        invariant
            aig.macros.wf(),
            base == (Offsets { off: Map::empty(), cursor: origin as int }),
            i <= ids@.len(),
            origin <= cursor,
            pos_view(off) == assign_offsets(*aig, ids@, i as nat, base).off,
            cursor == assign_offsets(*aig, ids@, i as nat, base).cursor,
            offsets_fit(parts@, pos_view(off)),
        decreases ids@.len() - i,
    {
        let m = ids[i];
        if m >= aig.macros.len() {
            return Err(FlattenError::Malformed);
        }
        if pos_get(&off, m).is_none() {
            let w = aig.macros.value(m).kind.state_words() as u32;
            assert(w == mac(*aig, m).kind.spec_state_words());
            if w > u32::MAX - cursor {
                proof {
                    assert(assign_offsets(*aig, ids@, (i + 1) as nat, base).cursor == cursor + w);
                    lemma_cursor_grows(*aig, ids@, (i + 1) as nat, ids@.len(), base);
                    assert(base == Offsets { off: Map::empty(), cursor: origin as int });
                }
                return Err(FlattenError::StateTooLarge);
            }
            if cursor >= LANE_OFFSET_END && find_in_lanes(parts, m) {
                assert(offset_lost(*aig, parts@, ids@, origin as int, i as int));
                return Err(FlattenError::StateTooLarge);
            }
            let ghost off0 = pos_view(off);
            pos_insert(&mut off, m, cursor);
            assert(offsets_fit(parts@, pos_view(off))) by {
                assert forall|x: usize| #[trigger]
                    pos_view(off).contains_key(x) && in_lane(parts@, x) implies pos_view(off)[x]
                    < LANE_OFFSET_END by {
                    if x != m {
                        assert(off0.contains_key(x));
                    }
                }
            }
            cursor = cursor + w;
        }
        i += 1;
    }
    Ok((off, cursor))
}

/// The script of a block without partitions.
pub open spec fn idle_block() -> Seq<u32> {
    Seq::new(
        256,
        |i: int|
            if i == 1 {
                1
            } else {
                0
            },
    )
}

/// The scripts of the first `k` parts of a block.
pub open spec fn parts_words(scripts: Seq<Vec<u32>>, block: Seq<usize>, k: nat) -> Seq<u32>
    decreases k,
{
    if k == 0 {
        Seq::empty()
    } else {
        parts_words(scripts, block, (k - 1) as nat) + scripts[block[k - 1] as int]@
    }
}

/// The script of a block: those of its parts, the last one of which is marked.
pub open spec fn block_words(scripts: Seq<Vec<u32>>, block: Seq<usize>) -> Seq<u32> {
    if block.len() == 0 {
        idle_block()
    } else {
        parts_words(scripts, block, (block.len() - 1) as nat) + scripts[block.last() as int]@.update(1, 1)
    }
}

/// The scripts of the first `b` blocks.
pub open spec fn blocks_words(scripts: Seq<Vec<u32>>, blocks: Seq<Seq<usize>>, b: nat) -> Seq<u32>
    decreases b,
{
    if b == 0 {
        Seq::empty()
    } else {
        blocks_words(scripts, blocks, (b - 1) as nat) + block_words(scripts, blocks[b - 1])
    }
}

/// The scripts of the first `s` major stages.
pub open spec fn stages_words(scripts: Seq<Vec<Vec<u32>>>, flats: Seq<FlatStage>, s: nat) -> Seq<u32>
    decreases s,
{
    if s == 0 {
        Seq::empty()
    } else {
        let blocks = lists(flats[s - 1].blocks@);
        stages_words(scripts, flats, (s - 1) as nat) + blocks_words(scripts[s - 1]@, blocks, blocks.len())
    }
}

/// Where the script of block `b` of major stage `s` starts.
pub open spec fn block_start(scripts: Seq<Vec<Vec<u32>>>, flats: Seq<FlatStage>, s: int, b: int) -> nat {
    stages_words(scripts, flats, s as nat).len() + blocks_words(
        scripts[s]@,
        lists(flats[s].blocks@),
        b as nat,
    ).len()
}

/// Appends the script of a block.
fn push_block(data: &mut Vec<u32>, scripts: &Vec<Vec<u32>>, block: &Vec<usize>)
    requires
        forall|k: int| 0 <= k < block@.len() ==> (#[trigger] block@[k]) < scripts@.len(),
        forall|i: int| 0 <= i < scripts@.len() ==> (#[trigger] scripts@[i])@.len() >= 2,
    ensures
        final(data)@ == old(data)@ + block_words(scripts@, block@),
{
    let ghost d0 = data@;
    let n = block.len();
    if n == 0 {
        let mut i: usize = 0;
        while i < 256
            invariant
                i <= 256,
                data@ == d0 + idle_block().take(i as int),
            decreases 256 - i,
        {
            data.push(
                if i == 1 {
                    1
                } else {
                    0
                },
            );
            assert(data@ =~= d0 + idle_block().take(i + 1));
            i += 1;
        }
        assert(idle_block().take(256) =~= idle_block());
        return ;
    }
    let mut k: usize = 0;
    assert(data@ =~= d0 + parts_words(scripts@, block@, 0));
    while k < n - 1
        invariant
            n == block@.len(),
            n >= 1,
            k <= n - 1,
            forall|k: int| 0 <= k < block@.len() ==> (#[trigger] block@[k]) < scripts@.len(),
            data@ == d0 + parts_words(scripts@, block@, k as nat),
        decreases n - 1 - k,
    {
        assert(block@[k as int] < scripts@.len());
        data.extend_from_slice(scripts[block[k]].as_slice());
        assert(data@ =~= d0 + parts_words(scripts@, block@, (k + 1) as nat));
        k += 1;
    }
    let at = data.len();
    let last = block[n - 1];
    assert(block@[n - 1] < scripts@.len());
    assert(scripts@[last as int]@.len() >= 2);
    let ghost d1 = data@;
    data.extend_from_slice(scripts[last].as_slice());
    assert(data@ =~= d1 + scripts@[last as int]@);
    let end = data.len();
    assert(at + 1 < end);
    data.set(at + 1, 1);
    assert(data@ =~= d1 + scripts@[last as int]@.update(1, 1));
    assert(data@ =~= d0 + block_words(scripts@, block@));
}

/// A flattened script, for partition executor version 1.
/// See [`FlattenedScriptV1::blocks_data`] for the format details.
///
/// Generally, a script contains a number of major stages.
/// Each stage consists of the same number of blocks.
/// Each block contains a list of flattened partitions.
pub struct FlattenedScriptV1 {
    /// the number of blocks
    pub num_blocks: usize,
    /// the number of major stages
    pub num_major_stages: usize,
    /// the CSR start indices of stages and blocks.
    ///
    /// this length is num_blocks * num_major_stages + 1
    pub blocks_start: Vec<usize>,
    /// the partition instructions.
    ///
    /// the instructions follow a special format.
    /// it consists of zero or more partitions.
    /// 1. metadata section [1x256]:
    ///    the number of boomerang stages (zero if the block has no partition),
    ///    whether this is the last partition of its block,
    ///    the number of valid write-outs, the write-out destination offset,
    ///    the srams count and the memory offset for the first one,
    ///    the number of global read rounds,
    ///    the number of output-duplicate write-outs,
    ///    the number of macro phases, the number of DSPs, the offset of their
    ///    state, and one header for each phase; padding towards 128;
    ///    the location of early write-outs, excl. mem, compressed to 128.
    /// 2. initial read-global permutation [2x]*rounds
    ///    32-bit indices and 32-bit valid masks for each of the 256 threads.
    ///    if the valid mask is zero, the memory is not read.
    ///    the highest bit of the index tells whether it is offset from the
    ///    previous iteration or from the current one.
    /// 3. boomerang sections
    ///    1. local shuffle permutation
    ///       32-bit indices * 16 for each of the 256 threads.
    ///    2. input (with inv) * 8192bits * (3+1padding)
    ///       0xy: and gate, out = (a^x)&(b^y).
    ///       100: passthrough, out = a.
    /// 4. global write-outs.
    ///    1. sram & additional endpoint copy permutations, inv. [16x].
    ///       followed by [4x] invert, set0, and two 0 paddings.
    ///    2. permutation for the write-out enabler pins, inv. [16]
    ///       followed by clock invert, clock set0, data invert, and 0 padding
    pub blocks_data: Vec<u32>,
    /// the state size including DFF and I/O states only.
    ///
    /// the inputs are always at front.
    pub reg_io_state_size: u32,
    /// the u32 array length for storing SRAMs.
    pub sram_storage_size: u32,
    /// the u32 array length for storing persistent word-level macro state.
    pub macro_storage_size: u32,
    /// expected input AIG pins layout
    pub input_layout: Vec<usize>,
    /// maps from primary outputs, FF:D and SRAM:PORT_R_RD_DATA AIG pins
    /// to state offset, index with invert.
    pub output_map: IndexMap<usize, u32>,
    /// maps from primary inputs, FF:Q/SRAM:* input AIG pins to state offset,
    /// index WITHOUT invert.
    pub input_map: IndexMap<usize, u32>,
    /// the relation between major stage, block and part indices as given in
    /// construction.
    pub stages_blocks_parts: Vec<Vec<Vec<usize>>>,
}

/// Where the first `n` primary inputs are found.
pub open spec fn layout_map(layout: Seq<usize>, n: nat) -> Map<usize, u32>
    decreases n,
{
    if n == 0 {
        Map::empty()
    } else if layout[n - 1] == usize::MAX {
        layout_map(layout, (n - 1) as nat)
    } else {
        layout_map(layout, (n - 1) as nat).insert(layout[n - 1], (n - 1) as u32)
    }
}

/// Where the scripts of all blocks of the first `s` major stages start.
pub open spec fn starts_list(scripts: Seq<Vec<Vec<u32>>>, flats: Seq<FlatStage>, s: nat) -> Seq<usize>
    decreases s,
{
    if s == 0 {
        Seq::empty()
    } else {
        starts_list(scripts, flats, (s - 1) as nat) + Seq::new(
            flats[s - 1].blocks@.len(),
            |b: int| block_start(scripts, flats, s - 1, b) as usize,
        )
    }
}

/// Offsets of macro states behind the SRAMs.
pub open spec fn final_offsets(
    aig: AIG,
    parts: Seq<&[Partition]>,
    flats: Seq<FlatStage>,
    srams: u32,
) -> Offsets {
    let ids = state_order(aig, parts, flats);
    assign_offsets(aig, ids, ids.len(), Offsets { off: Map::empty(), cursor: srams as int })
}

/// Are these the scripts of the partitions of all major stages?
pub open spec fn scripts_ok(
    aig: AIG,
    parts: Seq<&[Partition]>,
    flats: Seq<FlatStage>,
    maps: MapsView,
    off: Map<usize, u32>,
    scripts: Seq<Vec<Vec<u32>>>,
) -> bool {
    &&& offsets_fit(parts, off)
    &&& scripts.len() == parts.len()
    &&& forall|s: int| 0 <= s < parts.len() ==> (#[trigger] scripts[s])@.len() == parts[s]@.len()
    &&& forall|s: int, i: int|
        0 <= s < parts.len() && 0 <= i < parts[s]@.len() ==> script_ok(
            aig,
            flats[s].parts@[i],
            parts[s]@[i],
            maps.input,
            maps.staged_io,
            off,
            (#[trigger] scripts[s]@[i])@,
        )
}

/// Are the first `n` major stages flattened, up to their scripts, with the given
/// sums and maps before and behind each of them?
pub open spec fn begun(
    aig: AIG,
    stageds: Seq<&StagedAIG>,
    parts: Seq<&[Partition]>,
    num_blocks: usize,
    layout: Seq<usize>,
    n: int,
    sums: Seq<Sums>,
    maps: Seq<MapsView>,
    flats: Seq<FlatStage>,
) -> bool {
    let zero_word = ((layout.len() + 31) / 32) as u32;
    &&& sums.len() == n + 1
    &&& maps.len() == n + 1
    &&& flats.len() == n
    // The inputs are at front, then comes a word that is never written.
    &&& sums[0] == Sums { state: (zero_word + 1) as u32, srams: 0, macros: 0 }
    &&& maps[0] == MapsView { input: layout_map(layout, layout.len()), staged_io: Map::empty(), output: Map::empty() }
    &&& forall|s: int|
        0 <= s < n ==> stage_flat(
            aig,
            *stageds[s],
            parts[s]@,
            num_blocks as nat,
            zero_word,
            sums[s],
            sums[s + 1],
            maps[s],
            maps[s + 1],
            #[trigger] flats[s],
        )
}

/// What stands against going on once the first major stages are flattened, up
/// to their scripts: the next one, the states of macros, or a script?
pub open spec fn next_fault(
    aig: AIG,
    stageds: Seq<&StagedAIG>,
    parts: Seq<&[Partition]>,
    num_blocks: usize,
    sums: Seq<Sums>,
    maps: Seq<MapsView>,
    flats: Seq<FlatStage>,
    e: FlattenError,
) -> bool {
    let n = flats.len() as int;
    if n < parts.len() {
        stage_fault(aig, *stageds[n], parts[n]@, num_blocks as nat, sums[n], e)
    } else {
        ||| offsets_fault(aig, parts, state_order(aig, parts, flats), sums[n].srams as int, e)
        ||| exists|s: int, i: int|
            0 <= s < n && 0 <= i < parts[s]@.len() && script_fault(
                aig,
                #[trigger] parts[s]@[i],
                maps[n].input,
                maps[n].staged_io,
                e,
            )
    }
}

/// What stands against flattening the partitions?
pub open spec fn flatten_fault(
    aig: AIG,
    stageds: Seq<&StagedAIG>,
    parts: Seq<&[Partition]>,
    num_blocks: usize,
    layout: Seq<usize>,
    e: FlattenError,
) -> bool {
    if layout.len() > MAX_INPUTS {
        e is StateTooLarge
    } else {
        exists|n: int, sums: Seq<Sums>, maps: Seq<MapsView>, flats: Seq<FlatStage>|
            0 <= n <= parts.len() && #[trigger] begun(
                aig,
                stageds,
                parts,
                num_blocks,
                layout,
                n,
                sums,
                maps,
                flats,
            ) && next_fault(aig, stageds, parts, num_blocks, sums, maps, flats, e)
    }
}

/// The most primary inputs that a state can hold beside the word that reads zero:
/// the bits of all its words but one.
pub const MAX_INPUTS: usize = 0xffff_ffe0;

/// Is this the flattened script of the partitions, with the given
/// intermediate results: sums and maps before and behind each major stage, the
/// flattened major stages, and the scripts of all partitions?
pub open spec fn flattened_with(
    aig: AIG,
    stageds: Seq<&StagedAIG>,
    parts: Seq<&[Partition]>,
    num_blocks: usize,
    layout: Seq<usize>,
    sums: Seq<Sums>,
    maps: Seq<MapsView>,
    flats: Seq<FlatStage>,
    scripts: Seq<Vec<Vec<u32>>>,
    f: FlattenedScriptV1,
) -> bool {
    let n = parts.len() as int;
    let end = sums[n];
    let off = final_offsets(aig, parts, flats, end.srams);
    &&& begun(aig, stageds, parts, num_blocks, layout, n, sums, maps, flats)
    &&& scripts_ok(aig, parts, flats, maps[n], off.off, scripts)
    &&& f.num_blocks == num_blocks
    &&& f.num_major_stages == n
    &&& f.input_layout@ == layout
    &&& f.blocks_data@ == stages_words(scripts, flats, n as nat) + Seq::new(2048, |i: int| 0u32)
    &&& f.blocks_start@ == starts_list(scripts, flats, n as nat).push(
        stages_words(scripts, flats, n as nat).len() as usize,
    )
    &&& end.state <= MAX_STATE
    &&& f.reg_io_state_size == end.state
    &&& f.sram_storage_size == end.srams
    &&& end.srams <= off.cursor <= u32::MAX
    &&& f.macro_storage_size == off.cursor - end.srams
    &&& pos_view(f.input_map) == maps[n].input
    &&& pos_view(f.output_map) == maps[n].output
    &&& f.stages_blocks_parts@.len() == n
    &&& forall|s: int|
        0 <= s < n ==> lists((#[trigger] f.stages_blocks_parts@[s])@) == lists(flats[s].blocks@)
}

/// Is this the flattened script of the partitions?
pub open spec fn flattened(
    aig: AIG,
    stageds: Seq<&StagedAIG>,
    parts: Seq<&[Partition]>,
    num_blocks: usize,
    layout: Seq<usize>,
    f: FlattenedScriptV1,
) -> bool {
    exists|sums: Seq<Sums>, maps: Seq<MapsView>, flats: Seq<FlatStage>, scripts: Seq<Vec<Vec<u32>>>| #[trigger]
        flattened_with(aig, stageds, parts, num_blocks, layout, sums, maps, flats, scripts, f)
}

/// Records where primary inputs are found.
fn map_layout(layout: &Vec<usize>) -> (m: IndexMap<usize, u32>)
    ensures
        pos_view(m) == layout_map(layout@, layout@.len()),
{
    let mut m = pos_new();
    let mut i: usize = 0;
    assert(pos_view(m) =~= Map::<usize, u32>::empty());
    while i < layout.len()
        invariant
            i <= layout@.len(),
            pos_view(m) == layout_map(layout@, i as nat),
        decreases layout@.len() - i,
    {
        if layout[i] != usize::MAX {
            pos_insert(&mut m, layout[i], i as u32);
        }
        i += 1;
    }
    m
}

/// A copy of lists.
fn copy_lists(v: &Vec<Vec<usize>>) -> (r: Vec<Vec<usize>>)
    ensures
        lists(r@) == lists(v@),
{
    let mut r: Vec<Vec<usize>> = Vec::new();
    let mut i: usize = 0;
    while i < v.len()
        invariant
            i <= v@.len(),
            r@.len() == i,
            forall|k: int| 0 <= k < i ==> (#[trigger] r@[k])@ == v@[k]@,
        decreases v@.len() - i,
    {
        let c = v[i].clone();
        assert(c@ =~= v@[i as int]@);
        r.push(c);
        i += 1;
    }
    assert(lists(r@) =~= lists(v@));
    r
}

/// Builds the scripts of the partitions of a major stage.
fn build_scripts(
    aig: &AIG,
    parts: &[Partition],
    flat: &FlatStage,
    maps: &Maps,
    off: &IndexMap<usize, u32>,
    Ghost(staged): Ghost<StagedAIG>,
) -> (r: Result<Vec<Vec<u32>>, FlattenError>)
    requires
        aig.macros_wf(),
        producers_ok(*aig),
        flat.parts@.len() == parts@.len(),
        forall|i: int|
            0 <= i < parts@.len() ==> super::stages::part_flat(*aig, staged, parts@[i], #[trigger] flat.parts@[i]),
    ensures
        r matches Ok(scripts) ==> scripts@.len() == parts@.len() && forall|i: int|
            0 <= i < parts@.len() ==> script_ok(
                *aig,
                flat.parts@[i],
                parts@[i],
                maps@.input,
                maps@.staged_io,
                pos_view(*off),
                (#[trigger] scripts@[i])@,
            ) && scripts@[i]@.len() >= 256,
        r matches Err(e) ==> exists|i: int|
            0 <= i < parts@.len() && script_fault(*aig, #[trigger] parts@[i], maps@.input, maps@.staged_io, e),
{
    let n = parts.len();
    let mut scripts: Vec<Vec<u32>> = Vec::new();
    let mut i: usize = 0;
    while i < n
        invariant
            aig.macros_wf(),
            producers_ok(*aig),
            n == parts@.len(),
            flat.parts@.len() == n,
            forall|i: int|
                0 <= i < parts@.len() ==> super::stages::part_flat(
                    *aig,
                    staged,
                    parts@[i],
                    #[trigger] flat.parts@[i],
                ),
            i <= n,
            scripts@.len() == i,
            forall|j: int|
                0 <= j < i ==> script_ok(
                    *aig,
                    flat.parts@[j],
                    parts@[j],
                    maps@.input,
                    maps@.staged_io,
                    pos_view(*off),
                    (#[trigger] scripts@[j])@,
                ) && scripts@[j]@.len() >= 256,
        decreases n - i,
    {
        assert(super::stages::part_flat(*aig, staged, parts@[i as int], flat.parts@[i as int]));
        match flat.parts[i].build_script(aig, &parts[i], &maps.input, &maps.staged_io, off) {
            Err(e) => {
                assert(script_fault(*aig, parts@[i as int], maps@.input, maps@.staged_io, e));
                return Err(e);
            },
            Ok(script) => {
                proof {
                    super::script::lemma_script_len(
                        *aig,
                        flat.parts@[i as int],
                        parts@[i as int],
                        maps@.input,
                        maps@.staged_io,
                        pos_view(*off),
                        script@,
                    );
                }
                scripts.push(script);
            },
        }
        i += 1;
    }
    Ok(scripts)
}

/// Are the places of all parts on blocks in range?
spec fn flats_in_range(parts: Seq<&[Partition]>, flats: Seq<FlatStage>) -> bool {
    forall|s: int, b: int, k: int|
        0 <= s < flats.len() && 0 <= b < flats[s].blocks@.len() && 0 <= k < flats[s].blocks@[b]@.len()
            ==> #[trigger] flats[s].blocks@[b]@[k] < parts[s]@.len()
}

proof fn lemma_flat_range(
    aig: AIG,
    staged: StagedAIG,
    parts: Seq<Partition>,
    num_blocks: nat,
    zero_word: u32,
    s0: Sums,
    s1: Sums,
    m0: MapsView,
    m1: MapsView,
    flat: FlatStage,
)
    requires
        stage_flat(aig, staged, parts, num_blocks, zero_word, s0, s1, m0, m1, flat),
        num_blocks >= 1,
        parts.len() <= usize::MAX,
    ensures
        flat.blocks@.len() == num_blocks,
        forall|b: int, k: int|
            0 <= b < flat.blocks@.len() && 0 <= k < flat.blocks@[b]@.len() ==> #[trigger] flat.blocks@[b]@[k]
                < parts.len(),
{
    let bl = lists(flat.blocks@);
    super::blocks::lemma_arranged(super::stages::part_costs(parts), num_blocks, parts.len());
    assert forall|b: int, k: int| 0 <= b < flat.blocks@.len() && 0 <= k < flat.blocks@[b]@.len() implies
        #[trigger] flat.blocks@[b]@[k] < parts.len() by {
        assert(bl[b][k] < parts.len());
    }
}

/// Appends the scripts of all blocks, and records where they start.
fn push_blocks(
    data: &mut Vec<u32>,
    starts: &mut Vec<usize>,
    scripts: &Vec<Vec<Vec<u32>>>,
    flats: &Vec<FlatStage>,
    Ghost(parts): Ghost<Seq<&[Partition]>>,
)
    requires
        old(data)@.len() == 0,
        old(starts)@.len() == 0,
        scripts@.len() == flats@.len(),
        parts.len() == flats@.len(),
        flats_in_range(parts, flats@),
        forall|s: int| 0 <= s < flats@.len() ==> (#[trigger] scripts@[s])@.len() == parts[s]@.len(),
        forall|s: int, i: int|
            0 <= s < flats@.len() && 0 <= i < scripts@[s]@.len() ==> (#[trigger] scripts@[s]@[i])@.len() >= 2,
    ensures
        final(data)@ == stages_words(scripts@, flats@, flats@.len()),
        final(starts)@ == starts_list(scripts@, flats@, flats@.len()),
{
    let mut s: usize = 0;
    while s < flats.len()
        invariant
            scripts@.len() == flats@.len(),
            parts.len() == flats@.len(),
            flats_in_range(parts, flats@),
            forall|s: int| 0 <= s < flats@.len() ==> (#[trigger] scripts@[s])@.len() == parts[s]@.len(),
            forall|s: int, i: int|
                0 <= s < flats@.len() && 0 <= i < scripts@[s]@.len() ==> (#[trigger] scripts@[s]@[i])@.len() >= 2,
            s <= flats@.len(),
            data@ == stages_words(scripts@, flats@, s as nat),
            starts@ == starts_list(scripts@, flats@, s as nat),
        decreases flats@.len() - s,
    {
        let ghost d0 = data@;
        let ghost t0 = starts@;
        let ghost bl = lists(flats@[s as int].blocks@);
        let ghost row = Seq::new(
            flats@[s as int].blocks@.len(),
            |b: int| block_start(scripts@, flats@, s as int, b) as usize,
        );
        let mut b: usize = 0;
        assert(data@ =~= d0 + blocks_words(scripts@[s as int]@, bl, 0));
        while b < flats[s].blocks.len()
            invariant
                scripts@.len() == flats@.len(),
                parts.len() == flats@.len(),
                s < flats@.len(),
                flats_in_range(parts, flats@),
                forall|s: int| 0 <= s < flats@.len() ==> (#[trigger] scripts@[s])@.len() == parts[s]@.len(),
                forall|s: int, i: int|
                    0 <= s < flats@.len() && 0 <= i < scripts@[s]@.len() ==> (#[trigger] scripts@[s]@[i])@.len() >= 2,
                bl == lists(flats@[s as int].blocks@),
                row == Seq::new(
                    flats@[s as int].blocks@.len(),
                    |b: int| block_start(scripts@, flats@, s as int, b) as usize,
                ),
                d0 == stages_words(scripts@, flats@, s as nat),
                b <= bl.len(),
                data@ == d0 + blocks_words(scripts@[s as int]@, bl, b as nat),
                starts@ == t0 + row.take(b as int),
            decreases bl.len() - b,
        {
            starts.push(data.len());
            assert(starts@ =~= t0 + row.take(b + 1));
            proof {
                assert forall|k: int| 0 <= k < flats@[s as int].blocks@[b as int]@.len() implies (
                #[trigger] flats@[s as int].blocks@[b as int]@[k]) < scripts@[s as int]@.len() by {
                    assert(flats@[s as int].blocks@[b as int]@[k] < parts[s as int]@.len());
                }
                assert forall|i: int| 0 <= i < scripts@[s as int]@.len() implies (
                #[trigger] scripts@[s as int]@[i])@.len() >= 2 by {}
            }
            push_block(data, &scripts[s], &flats[s].blocks[b]);
            assert(data@ =~= d0 + blocks_words(scripts@[s as int]@, bl, (b + 1) as nat));
            b += 1;
        }
        assert(row.take(bl.len() as int) =~= row);
        assert(starts@ =~= starts_list(scripts@, flats@, (s + 1) as nat));
        s += 1;
    }
}

/// Flattens partitions of several major stages.
fn build_flattened_script_v1(
    aig: &AIG,
    stageds: &[&StagedAIG],
    parts_in_stages: &[&[Partition]],
    num_blocks: usize,
    input_layout: Vec<usize>,
) -> (r: Result<FlattenedScriptV1, FlattenError>)
    requires
        endpoints_readable(*aig),
        sram_data_ok(*aig),
        producers_ok(*aig),
        stageds@.len() == parts_in_stages@.len(),
        forall|s: int| 0 <= s < stageds@.len() ==> (#[trigger] stageds@[s]).wf(*aig),
        forall|s: int| 0 <= s < parts_in_stages@.len() ==> parts_sized((#[trigger] parts_in_stages@[s])@),
        num_blocks >= 1,
    ensures
        r matches Ok(f) ==> flattened(*aig, stageds@, parts_in_stages@, num_blocks, input_layout@, f),
        r matches Err(e) ==> flatten_fault(*aig, stageds@, parts_in_stages@, num_blocks, input_layout@, e),
{
    let ghost layout = input_layout@;
    let ghost parts = parts_in_stages@;
    let n = parts_in_stages.len();
    let len = input_layout.len();
    if len > MAX_INPUTS {
        return Err(FlattenError::StateTooLarge);
    }
    let zero_word: u32 = ((len + 31) / 32) as u32;
    let mut maps = Maps { input: map_layout(&input_layout), staged_io: pos_new(), output: pos_new() };
    let mut sums = Sums { state: zero_word + 1, srams: 0, macros: 0 };
    let ghost mut all_sums: Seq<Sums> = seq![sums];
    let ghost mut all_maps: Seq<MapsView> = seq![maps@];
    let mut flats: Vec<FlatStage> = Vec::new();
    proof {
        assert(maps@.staged_io =~= Map::<usize, u32>::empty());
        assert(maps@.output =~= Map::<usize, u32>::empty());
    }
    let ghost first_sums = sums;
    let ghost first_maps = maps@;
    let mut s: usize = 0;
    while s < n
        invariant
            endpoints_readable(*aig),
            sram_data_ok(*aig),
            parts == parts_in_stages@,
            n == parts.len(),
            stageds@.len() == n,
            forall|s: int| 0 <= s < stageds@.len() ==> (#[trigger] stageds@[s]).wf(*aig),
            forall|s: int| 0 <= s < parts.len() ==> parts_sized((#[trigger] parts[s])@),
            num_blocks >= 1,
            zero_word < MAX_STATE,
            layout.len() <= MAX_INPUTS,
            zero_word == (layout.len() + 31) / 32,
            first_sums == (Sums { state: (zero_word + 1) as u32, srams: 0, macros: 0 }),
            first_maps == (MapsView {
                input: layout_map(layout, layout.len()),
                staged_io: Map::empty(),
                output: Map::empty(),
            }),
            layout == input_layout@,
            sums.state <= MAX_STATE,
            s <= n,
            flats@.len() == s,
            all_sums.len() == s + 1,
            all_maps.len() == s + 1,
            all_sums[0] == first_sums,
            all_maps[0] == first_maps,
            all_sums[s as int] == sums,
            all_maps[s as int] == maps@,
            flats_in_range(parts, flats@),
            forall|t: int|
                0 <= t < s ==> stage_flat(
                    *aig,
                    *stageds@[t],
                    parts[t]@,
                    num_blocks as nat,
                    zero_word,
                    all_sums[t],
                    all_sums[t + 1],
                    all_maps[t],
                    all_maps[t + 1],
                    #[trigger] flats@[t],
                ),
        decreases n - s,
    {
        let ghost flats0 = flats@;
        assert(stageds@[s as int].wf(*aig));
        assert(parts_sized(parts[s as int]@));
        let row = parts_in_stages[s];
        let row_len = row.len();
        let ghost sums0 = all_sums;
        let ghost maps0 = all_maps;
        match flatten_stage(aig, stageds[s], row, num_blocks, zero_word, sums, &mut maps) {
            Err(e) => {
                proof {
                    assert(begun(
                        *aig,
                        stageds@,
                        parts,
                        num_blocks,
                        layout,
                        s as int,
                        all_sums,
                        all_maps,
                        flats@,
                    ));
                    assert(next_fault(*aig, stageds@, parts, num_blocks, all_sums, all_maps, flats@, e));
                }
                return Err(e);
            },
            Ok((flat, next)) => {
                proof {
                    lemma_flat_range(
                        *aig,
                        *stageds@[s as int],
                        parts[s as int]@,
                        num_blocks as nat,
                        zero_word,
                        sums,
                        next,
                        maps0[s as int],
                        maps@,
                        flat,
                    );
                    all_sums = all_sums.push(next);
                    all_maps = all_maps.push(maps@);
                }
                flats.push(flat);
                sums = next;
            },
        }
        proof {
            assert forall|t: int| 0 <= t < s + 1 implies stage_flat(
                *aig,
                *stageds@[t],
                parts[t]@,
                num_blocks as nat,
                zero_word,
                all_sums[t],
                all_sums[t + 1],
                all_maps[t],
                all_maps[t + 1],
                #[trigger] flats@[t],
            ) by {
                if t < s {
                    assert(flats@[t] == flats0[t]);
                    assert(all_sums[t] == sums0[t] && all_sums[t + 1] == sums0[t + 1]);
                    assert(all_maps[t] == maps0[t] && all_maps[t + 1] == maps0[t + 1]);
                }
            }
            assert forall|t: int, b: int, k: int|
                0 <= t < flats@.len() && 0 <= b < flats@[t].blocks@.len() && 0 <= k < flats@[t].blocks@[b]@.len()
                    implies #[trigger] flats@[t].blocks@[b]@[k] < parts[t]@.len() by {
                if t < s {
                    assert(flats@[t] == flats0[t]);
                    assert(flats0[t].blocks@[b]@[k] < parts[t]@.len());
                }
            }
        }
        s += 1;
    }
    assert(begun(*aig, stageds@, parts, num_blocks, layout, n as int, all_sums, all_maps, flats@));
    let ids = make_state_order(aig, parts_in_stages, &flats);
    let (off, end) = match make_offsets(aig, parts_in_stages, &ids, sums.srams) {
        Err(e) => {
            assert(next_fault(*aig, stageds@, parts, num_blocks, all_sums, all_maps, flats@, e));
            return Err(e);
        },
        Ok(o) => o,
    };
    let mut scripts: Vec<Vec<Vec<u32>>> = Vec::new();
    let mut stages_blocks_parts: Vec<Vec<Vec<usize>>> = Vec::new();
    let mut t: usize = 0;
    while t < n
        invariant
            endpoints_readable(*aig),
            producers_ok(*aig),
            parts == parts_in_stages@,
            layout == input_layout@,
            layout.len() <= MAX_INPUTS,
            n == parts.len(),
            stageds@.len() == n,
            flats@.len() == n,
            all_maps.len() == n + 1,
            all_maps[n as int] == maps@,
            begun(*aig, stageds@, parts, num_blocks, layout, n as int, all_sums, all_maps, flats@),
            forall|t: int|
                0 <= t < n ==> stage_flat(
                    *aig,
                    *stageds@[t],
                    parts[t]@,
                    num_blocks as nat,
                    zero_word,
                    all_sums[t],
                    all_sums[t + 1],
                    all_maps[t],
                    all_maps[t + 1],
                    #[trigger] flats@[t],
                ),
            t <= n,
            scripts@.len() == t,
            stages_blocks_parts@.len() == t,
            forall|u: int| 0 <= u < t ==> (#[trigger] scripts@[u])@.len() == parts[u]@.len(),
            forall|u: int, i: int|
                0 <= u < t && 0 <= i < parts[u]@.len() ==> script_ok(
                    *aig,
                    flats@[u].parts@[i],
                    parts[u]@[i],
                    maps@.input,
                    maps@.staged_io,
                    pos_view(off),
                    (#[trigger] scripts@[u]@[i])@,
                ) && scripts@[u]@[i]@.len() >= 256,
            forall|u: int|
                0 <= u < t ==> lists((#[trigger] stages_blocks_parts@[u])@) == lists(flats@[u].blocks@),
        decreases n - t,
    {
        let ghost sc0 = scripts@;
        let ghost bp0 = stages_blocks_parts@;
        proof {
            assert(stage_flat(
                *aig,
                *stageds@[t as int],
                parts[t as int]@,
                num_blocks as nat,
                zero_word,
                all_sums[t as int],
                all_sums[t + 1],
                all_maps[t as int],
                all_maps[t + 1],
                flats@[t as int],
            ));
        }
        match build_scripts(aig, parts_in_stages[t], &flats[t], &maps, &off, Ghost(*stageds@[t as int])) {
            Err(e) => {
                proof {
                    let i = choose|i: int|
                        0 <= i < parts[t as int]@.len() && script_fault(
                            *aig,
                            #[trigger] parts[t as int]@[i],
                            maps@.input,
                            maps@.staged_io,
                            e,
                        );
                    assert(script_fault(*aig, parts[t as int]@[i], all_maps[n as int].input,
                        all_maps[n as int].staged_io, e));
                    assert(next_fault(*aig, stageds@, parts, num_blocks, all_sums, all_maps, flats@, e));
                }
                return Err(e);
            },
            Ok(sc) => {
                scripts.push(sc);
            },
        }
        stages_blocks_parts.push(copy_lists(&flats[t].blocks));
        proof {
            assert forall|u: int| 0 <= u < t + 1 implies (#[trigger] scripts@[u])@.len() == parts[u]@.len() by {
                if u < t {
                    assert(scripts@[u] == sc0[u]);
                }
            }
            assert forall|u: int, i: int| 0 <= u < t + 1 && 0 <= i < parts[u]@.len() implies script_ok(
                *aig,
                flats@[u].parts@[i],
                parts[u]@[i],
                maps@.input,
                maps@.staged_io,
                pos_view(off),
                (#[trigger] scripts@[u]@[i])@,
            ) && scripts@[u]@[i]@.len() >= 256 by {
                if u < t {
                    assert(scripts@[u] == sc0[u]);
                    assert(sc0[u]@[i]@.len() >= 256);
                }
            }
            assert forall|u: int| 0 <= u < t + 1 implies lists((#[trigger] stages_blocks_parts@[u])@) == lists(
                flats@[u].blocks@,
            ) by {
                if u < t {
                    assert(stages_blocks_parts@[u] == bp0[u]);
                }
            }
        }
        t += 1;
    }
    let mut blocks_data: Vec<u32> = Vec::new();
    let mut blocks_start: Vec<usize> = Vec::new();
    proof {
        assert forall|s: int, i: int| 0 <= s < flats@.len() && 0 <= i < scripts@[s]@.len() implies (
        #[trigger] scripts@[s]@[i])@.len() >= 2 by {
            assert(scripts@[s]@.len() == parts[s]@.len());
        }
    }
    push_blocks(&mut blocks_data, &mut blocks_start, &scripts, &flats, Ghost(parts));
    blocks_start.push(blocks_data.len());
    let ghost words = blocks_data@;
    let mut i: usize = 0;
    while i < 2048
        invariant
            i <= 2048,
            blocks_data@ == words + Seq::new(i as nat, |i: int| 0u32),
        decreases 2048 - i,
    {
        blocks_data.push(0);
        assert(blocks_data@ =~= words + Seq::new((i + 1) as nat, |i: int| 0u32));
        i += 1;
    }
    let f = FlattenedScriptV1 {
        num_blocks,
        num_major_stages: n,
        blocks_start,
        blocks_data,
        reg_io_state_size: sums.state,
        sram_storage_size: sums.srams,
        macro_storage_size: end - sums.srams,
        input_layout,
        output_map: maps.output,
        input_map: maps.input,
        stages_blocks_parts,
    };
    proof {
        assert(flattened_with(
            *aig,
            stageds@,
            parts,
            num_blocks,
            layout,
            all_sums,
            all_maps,
            flats@,
            scripts@,
            f,
        ));
    }
    Ok(f)
}

impl FlattenedScriptV1 {
    /// Builds a flattened script.
    ///
    /// `parts_in_stages` gives the partitions to flatten. It is better sorted
    /// in advance in descending order of #layers for better duty cycling.
    ///
    /// `num_blocks` should be set to the hardware allowances, i.e. the number
    /// of SMs in your GPU.
    ///
    /// `input_layout` should give the expected primary input memory layout,
    /// each one is an AIG bit index. Padding bits should be set to
    /// `usize::MAX`.
    pub fn from(
        aig: &AIG,
        stageds: &[&StagedAIG],
        parts_in_stages: &[&[Partition]],
        num_blocks: usize,
        input_layout: Vec<usize>,
    ) -> (r: Result<FlattenedScriptV1, FlattenError>)
        requires
            endpoints_readable(*aig),
            sram_data_ok(*aig),
            producers_ok(*aig),
            stageds@.len() == parts_in_stages@.len(),
            forall|s: int| 0 <= s < stageds@.len() ==> (#[trigger] stageds@[s]).wf(*aig),
            forall|s: int| 0 <= s < parts_in_stages@.len() ==> parts_sized((#[trigger] parts_in_stages@[s])@),
            num_blocks >= 1,
        ensures
            r matches Ok(f) ==> flattened(*aig, stageds@, parts_in_stages@, num_blocks, input_layout@, f),
            r matches Err(e) ==> flatten_fault(*aig, stageds@, parts_in_stages@, num_blocks, input_layout@, e),
    {
        build_flattened_script_v1(aig, stageds, parts_in_stages, num_blocks, input_layout)
    }
}

} // verus!
