//! Flattening the partitions of a major stage.

use super::blocks::{arrange_blocks, arranged, law_arranged_once, lemma_arranged, total_cost};
use super::error::FlattenError;
use super::layout::{all_outs, indexed_last};
use super::outputs::{
    all_fine, endpoint_stored, group_fault, group_of, input_map_after, output_map_after, sram_data_ok,
    staged_map_after, starts_ok,
};
use super::part::{part_shaped, words_needed, FlatteningPart, PartStarts};
use crate::aig::AIG;
use crate::collections::pos_view;
use crate::pe::budget::{activations, count_words, endpoints_readable};
use crate::pe::partition::Partition;
use crate::pe::process::lists;
use crate::staging::StagedAIG;
use indexmap::IndexMap;
use vstd::prelude::*;

verus! {

/// What is used so far: words of state, of SRAM storage and of macro state.
#[derive(Debug, Clone, Copy, PartialEq, Eq, Structural)]
pub struct Sums {
    pub state: u32,
    pub srams: u32,
    pub macros: u32,
}

/// Where pins and literals are found.
pub struct Maps {
    pub input: IndexMap<usize, u32>,
    pub staged_io: IndexMap<usize, u32>,
    pub output: IndexMap<usize, u32>,
}

/// The same, as mathematical values.
pub ghost struct MapsView {
    pub input: Map<usize, u32>,
    pub staged_io: Map<usize, u32>,
    pub output: Map<usize, u32>,
}

impl Maps {
    pub open spec fn view(&self) -> MapsView {
        MapsView { input: pos_view(self.input), staged_io: pos_view(self.staged_io), output: pos_view(self.output) }
    }
}

/// A major stage being flattened: the partitions of each block, and each
/// partition.
pub struct FlatStage {
    pub blocks: Vec<Vec<usize>>,
    pub parts: Vec<FlatteningPart>,
}

/// The sum over the first `k` parts of a block.
pub open spec fn sum_in(block: Seq<usize>, k: nat, w: spec_fn(int) -> nat) -> nat
    decreases k,
{
    if k == 0 {
        0
    } else {
        sum_in(block, (k - 1) as nat, w) + w(block[k - 1] as int)
    }
}

/// The sum over all parts of the first `b` blocks.
pub open spec fn sum_before(blocks: Seq<Seq<usize>>, b: nat, w: spec_fn(int) -> nat) -> nat
    decreases b,
{
    if b == 0 {
        0
    } else {
        sum_before(blocks, (b - 1) as nat, w) + sum_in(blocks[b - 1], blocks[b - 1].len(), w)
    }
}

/// The sum over all parts that come before part `k` of block `b`.
pub open spec fn sum_upto(blocks: Seq<Seq<usize>>, b: int, k: int, w: spec_fn(int) -> nat) -> nat {
    sum_before(blocks, b as nat, w) + sum_in(blocks[b], k as nat, w)
}

/// The words of state of a part.
pub open spec fn state_words_of(parts: Seq<FlatteningPart>) -> spec_fn(int) -> nat {
    |i: int| parts[i].shape.num_writeouts as nat
}

/// The words of SRAM storage of a part.
pub open spec fn sram_words_of(parts: Seq<FlatteningPart>) -> spec_fn(int) -> nat {
    |i: int| parts[i].shape.num_srams as nat * 8192
}

/// The words of macro state of a part.
pub open spec fn macro_words_of(parts: Seq<FlatteningPart>) -> spec_fn(int) -> nat {
    |i: int| parts[i].shape.macro_state_words as nat
}

/// The starts of part `k` of block `b`: parts are laid out block by block.
pub open spec fn starts_at(
    parts: Seq<FlatteningPart>,
    blocks: Seq<Seq<usize>>,
    zero_word: u32,
    sums: Sums,
    b: int,
    k: int,
) -> PartStarts {
    PartStarts {
        zero_bit_pos: (zero_word * 32) as u32,
        state_start: (sums.state + sum_upto(blocks, b, k, state_words_of(parts))) as u32,
        sram_start: (sums.srams + sum_upto(blocks, b, k, sram_words_of(parts))) as u32,
        macro_state_start: (sums.macros + sum_upto(blocks, b, k, macro_words_of(parts))) as u32,
    }
}

/// Do sums over the same shapes agree?
proof fn lemma_sums_same(a: Seq<FlatteningPart>, b: Seq<FlatteningPart>)
    requires
        a.len() == b.len(),
        forall|i: int| 0 <= i < a.len() ==> (#[trigger] a[i]).shape == b[i].shape,
    ensures
        forall|i: int| 0 <= i < a.len() ==> #[trigger] state_words_of(a)(i) == state_words_of(b)(i),
        forall|i: int| 0 <= i < a.len() ==> #[trigger] sram_words_of(a)(i) == sram_words_of(b)(i),
        forall|i: int| 0 <= i < a.len() ==> #[trigger] macro_words_of(a)(i) == macro_words_of(b)(i),
{
    assert forall|i: int| 0 <= i < a.len() implies #[trigger] state_words_of(a)(i) == state_words_of(b)(i) by {
        assert(a[i].shape == b[i].shape);
    }
    assert forall|i: int| 0 <= i < a.len() implies #[trigger] sram_words_of(a)(i) == sram_words_of(b)(i) by {
        assert(a[i].shape == b[i].shape);
    }
    assert forall|i: int| 0 <= i < a.len() implies #[trigger] macro_words_of(a)(i) == macro_words_of(b)(i) by {
        assert(a[i].shape == b[i].shape);
    }
}

proof fn lemma_sum_in_same(block: Seq<usize>, k: nat, n: int, v: spec_fn(int) -> nat, w: spec_fn(int) -> nat)
    requires
        k <= block.len(),
        forall|j: int| 0 <= j < block.len() ==> (#[trigger] block[j]) < n,
        forall|i: int| 0 <= i < n ==> #[trigger] v(i) == w(i),
    ensures
        sum_in(block, k, v) == sum_in(block, k, w),
    decreases k,
{
    if k > 0 {
        lemma_sum_in_same(block, (k - 1) as nat, n, v, w);
        assert(block[k - 1] < n);
        assert(v(block[k - 1] as int) == w(block[k - 1] as int));
    }
}

proof fn lemma_sum_before_same(
    blocks: Seq<Seq<usize>>,
    b: nat,
    n: int,
    v: spec_fn(int) -> nat,
    w: spec_fn(int) -> nat,
)
    requires
        b <= blocks.len(),
        forall|c: int, j: int| 0 <= c < blocks.len() && 0 <= j < blocks[c].len() ==> #[trigger] blocks[c][j] < n,
        forall|i: int| 0 <= i < n ==> #[trigger] v(i) == w(i),
    ensures
        sum_before(blocks, b, v) == sum_before(blocks, b, w),
    decreases b,
{
    if b > 0 {
        lemma_sum_before_same(blocks, (b - 1) as nat, n, v, w);
        assert forall|j: int| 0 <= j < blocks[b - 1].len() implies (#[trigger] blocks[b - 1][j]) < n by {}
        lemma_sum_in_same(blocks[b - 1], blocks[b - 1].len(), n, v, w);
    }
}

/// Starts depend on the shapes only.
proof fn lemma_starts_same(
    a: Seq<FlatteningPart>,
    c: Seq<FlatteningPart>,
    blocks: Seq<Seq<usize>>,
    zero_word: u32,
    sums: Sums,
    b: int,
    k: int,
)
    requires
        a.len() == c.len(),
        forall|i: int| 0 <= i < a.len() ==> (#[trigger] a[i]).shape == c[i].shape,
        forall|c: int, j: int|
            0 <= c < blocks.len() && 0 <= j < blocks[c].len() ==> #[trigger] blocks[c][j] < a.len(),
        0 <= b < blocks.len(),
        0 <= k <= blocks[b].len(),
    ensures
        starts_at(a, blocks, zero_word, sums, b, k) == starts_at(c, blocks, zero_word, sums, b, k),
{
    lemma_sums_same(a, c);
    let n = a.len() as int;
    assert forall|j: int| 0 <= j < blocks[b].len() implies (#[trigger] blocks[b][j]) < n by {}
    lemma_sum_in_same(blocks[b], k as nat, n, state_words_of(a), state_words_of(c));
    lemma_sum_in_same(blocks[b], k as nat, n, sram_words_of(a), sram_words_of(c));
    lemma_sum_in_same(blocks[b], k as nat, n, macro_words_of(a), macro_words_of(c));
    lemma_sum_before_same(blocks, b as nat, n, state_words_of(a), state_words_of(c));
    lemma_sum_before_same(blocks, b as nat, n, sram_words_of(a), sram_words_of(c));
    lemma_sum_before_same(blocks, b as nat, n, macro_words_of(a), macro_words_of(c));
}

pub(super) proof fn lemma_sum_in_grows(block: Seq<usize>, k: nat, l: nat, w: spec_fn(int) -> nat)
    requires
        k <= l,
    ensures
        sum_in(block, k, w) <= sum_in(block, l, w),
    decreases l,
{
    if k < l {
        lemma_sum_in_grows(block, k, (l - 1) as nat, w);
    }
}

pub(super) proof fn lemma_sum_before_grows(blocks: Seq<Seq<usize>>, b: nat, c: nat, w: spec_fn(int) -> nat)
    requires
        b <= c,
    ensures
        sum_before(blocks, b, w) <= sum_before(blocks, c, w),
    decreases c,
{
    if b < c {
        lemma_sum_before_grows(blocks, b, (c - 1) as nat, w);
    }
}

/// What is summed up over some parts is no more than the sum over all.
pub(super) proof fn lemma_sum_part(blocks: Seq<Seq<usize>>, b: int, k: int, w: spec_fn(int) -> nat)
    requires
        0 <= b < blocks.len(),
        0 <= k < blocks[b].len(),
    ensures
        sum_upto(blocks, b, k, w) + w(blocks[b][k] as int) <= sum_before(blocks, blocks.len(), w),
{
    lemma_sum_in_grows(blocks[b], (k + 1) as nat, blocks[b].len(), w);
    lemma_sum_before_grows(blocks, (b + 1) as nat, blocks.len(), w);
}

/// The largest state, in words: the positions of its bits have 32 bits.
pub const MAX_STATE: u32 = 0x0800_0000;

/// Is every part in one place only?
spec fn once(blocks: Seq<Seq<usize>>) -> bool {
    forall|b: int, k: int, c: int, l: int| #[trigger] once_at(blocks, b, k, c, l)
}

spec fn once_at(blocks: Seq<Seq<usize>>, b: int, k: int, c: int, l: int) -> bool {
    0 <= b < blocks.len() && 0 <= c < blocks.len() && 0 <= k < blocks[b].len() && 0 <= l < blocks[c].len()
        && blocks[b][k] == blocks[c][l] ==> b == c && k == l
}

/// Has the place been visited when place `l` of block `c` is next?
spec fn place_before(b: int, k: int, c: int, l: int) -> bool {
    b < c || (b == c && k < l)
}

/// Gives every part its starts, block by block. The error is that there is too
/// much state.
fn allocate_starts(
    blocks: &Vec<Vec<usize>>,
    parts: &mut Vec<FlatteningPart>,
    zero_word: u32,
    sums: Sums,
) -> (r: Result<Sums, FlattenError>)
    requires
        forall|b: int, k: int|
            0 <= b < blocks@.len() && 0 <= k < lists(blocks@)[b].len() ==> #[trigger] lists(blocks@)[b][k]
                < old(parts)@.len(),
        once(lists(blocks@)),
        zero_word < MAX_STATE,
        forall|i: int| 0 <= i < old(parts)@.len() ==> (#[trigger] old(parts)@[i]).wf(),
        sums.state <= MAX_STATE,
    ensures
        final(parts)@.len() == old(parts)@.len(),
        forall|i: int|
            0 <= i < old(parts)@.len() ==> (#[trigger] final(parts)@[i]).wf() && final(parts)@[i].shape
                == old(parts)@[i].shape && final(parts)@[i].comb_outputs_activations
                == old(parts)@[i].comb_outputs_activations && final(parts)@[i].tables == old(parts)@[i].tables,
        r is Ok ==> forall|b: int, k: int|
            0 <= b < blocks@.len() && 0 <= k < lists(blocks@)[b].len() ==> (
            #[trigger] final(parts)@[lists(blocks@)[b][k] as int]).starts == starts_at(
                old(parts)@,
                lists(blocks@),
                zero_word,
                sums,
                b,
                k,
            ) && starts_ok(final(parts)@[lists(blocks@)[b][k] as int]),
        r matches Ok(s) ==> s.state <= MAX_STATE && s.state == sums.state + sum_before(
            lists(blocks@),
            blocks@.len(),
            state_words_of(old(parts)@),
        ) && s.srams == sums.srams + sum_before(lists(blocks@), blocks@.len(), sram_words_of(old(parts)@)) && s.macros
            == sums.macros + sum_before(lists(blocks@), blocks@.len(), macro_words_of(old(parts)@)),
        r matches Err(e) ==> e is StateTooLarge && !(sums.state + sum_before(
            lists(blocks@),
            blocks@.len(),
            state_words_of(old(parts)@),
        ) <= MAX_STATE && sums.srams + sum_before(lists(blocks@), blocks@.len(), sram_words_of(old(parts)@))
            <= u32::MAX && sums.macros + sum_before(lists(blocks@), blocks@.len(), macro_words_of(old(parts)@))
            <= u32::MAX),
{
    let ghost p0 = parts@;
    let ghost bl = lists(blocks@);
    let mut cur = sums;
    let mut b: usize = 0;
    while b < blocks.len()
        invariant
            bl == lists(blocks@),
            p0 == old(parts)@,
            b <= blocks@.len(),
            forall|b: int, k: int| 0 <= b < blocks@.len() && 0 <= k < bl[b].len() ==> #[trigger] bl[b][k] < p0.len(),
            once(bl),
            zero_word < MAX_STATE,
            parts@.len() == p0.len(),
            forall|i: int|
                0 <= i < p0.len() ==> (#[trigger] parts@[i]).wf() && parts@[i].shape == p0[i].shape
                    && parts@[i].comb_outputs_activations == p0[i].comb_outputs_activations && parts@[i].tables
                    == p0[i].tables,
            cur.state <= MAX_STATE,
            cur.state == sums.state + sum_before(bl, b as nat, state_words_of(p0)),
            cur.srams == sums.srams + sum_before(bl, b as nat, sram_words_of(p0)),
            cur.macros == sums.macros + sum_before(bl, b as nat, macro_words_of(p0)),
            forall|c: int, l: int|
                0 <= c < blocks@.len() && 0 <= l < bl[c].len() && place_before(c, l, b as int, 0) ==> (
                #[trigger] parts@[bl[c][l] as int]).starts == starts_at(p0, bl, zero_word, sums, c, l) && starts_ok(
                    parts@[bl[c][l] as int],
                ),
        decreases blocks@.len() - b,
    {
        let n = blocks[b].len();
        let mut k: usize = 0;
        while k < n
            invariant
                bl == lists(blocks@),
                p0 == old(parts)@,
                b < blocks@.len(),
                n == bl[b as int].len(),
                n == blocks@[b as int]@.len(),
                k <= n,
                forall|b: int, k: int|
                    0 <= b < blocks@.len() && 0 <= k < bl[b].len() ==> #[trigger] bl[b][k] < p0.len(),
                once(bl),
                zero_word < MAX_STATE,
                parts@.len() == p0.len(),
                forall|i: int|
                    0 <= i < p0.len() ==> (#[trigger] parts@[i]).wf() && parts@[i].shape == p0[i].shape
                        && parts@[i].comb_outputs_activations == p0[i].comb_outputs_activations && parts@[i].tables
                        == p0[i].tables,
                cur.state <= MAX_STATE,
                cur.state == sums.state + sum_upto(bl, b as int, k as int, state_words_of(p0)),
                cur.srams == sums.srams + sum_upto(bl, b as int, k as int, sram_words_of(p0)),
                cur.macros == sums.macros + sum_upto(bl, b as int, k as int, macro_words_of(p0)),
                forall|c: int, l: int|
                    0 <= c < blocks@.len() && 0 <= l < bl[c].len() && place_before(c, l, b as int, k as int) ==> (
                    #[trigger] parts@[bl[c][l] as int]).starts == starts_at(p0, bl, zero_word, sums, c, l)
                        && starts_ok(parts@[bl[c][l] as int]),
            decreases n - k,
        {
            let id = blocks[b][k];
            assert(bl[b as int][k as int] == id);
            let ghost parts1 = parts@;
            assert(parts@[id as int].shape == p0[id as int].shape);
            assert(parts@[id as int].wf());
            parts[id].starts = PartStarts {
                zero_bit_pos: zero_word * 32,
                state_start: cur.state,
                sram_start: cur.srams,
                macro_state_start: cur.macros,
            };
            let w = parts[id].shape.num_writeouts;
            let s: u32 = parts[id].shape.num_srams * 8192;
            let m = parts[id].shape.macro_state_words;
            proof {
                assert(parts@[id as int].wf()) by {
                    let x = parts1[id as int];
                    let y = parts@[id as int];
                    assert(x.wf());
                    assert forall|i: int| #[trigger] y.act_ok(i) by {
                        assert(x.act_ok(i));
                    }
                    assert forall|i: int, j: int| #[trigger] y.apart(i, j) by {
                        assert(x.apart(i, j));
                    }
                }
                assert forall|i: int| 0 <= i < p0.len() implies (#[trigger] parts@[i]).wf() && parts@[i].shape
                    == p0[i].shape && parts@[i].comb_outputs_activations == p0[i].comb_outputs_activations
                    && parts@[i].tables == p0[i].tables by {
                    if i != id {
                        assert(parts@[i] == parts1[i]);
                    }
                    assert(parts1[i].shape == p0[i].shape);
                }
                assert(state_words_of(p0)(id as int) == w);
                assert(sram_words_of(p0)(id as int) == s);
                assert(macro_words_of(p0)(id as int) == m);
            }
            if w > MAX_STATE - cur.state || s > u32::MAX - cur.srams || m > u32::MAX - cur.macros {
                proof {
                    lemma_sum_part(bl, b as int, k as int, state_words_of(p0));
                    lemma_sum_part(bl, b as int, k as int, sram_words_of(p0));
                    lemma_sum_part(bl, b as int, k as int, macro_words_of(p0));
                }
                return Err(FlattenError::StateTooLarge);
            }
            proof {
                assert forall|c: int, l: int|
                    0 <= c < blocks@.len() && 0 <= l < bl[c].len() && place_before(c, l, b as int, k + 1) implies (
                #[trigger] parts@[bl[c][l] as int]).starts == starts_at(p0, bl, zero_word, sums, c, l) && starts_ok(
                    parts@[bl[c][l] as int],
                ) by {
                    if c == b && l == k {
                    } else {
                        assert(place_before(c, l, b as int, k as int));
                        assert(once_at(bl, c, l, b as int, k as int));
                        assert(parts@[bl[c][l] as int] == parts1[bl[c][l] as int]);
                    }
                }
            }
            cur = Sums { state: cur.state + w, srams: cur.srams + s, macros: cur.macros + m };
            k += 1;
        }
        b += 1;
    }
    Ok(cur)
}

/// The number of stages of each part.
pub open spec fn part_costs(parts: Seq<Partition>) -> Seq<usize> {
    Seq::new(parts.len(), |i: int| parts[i].stages@.len() as usize)
}

/// Is the partition laid out?
pub open spec fn part_laid(aig: AIG, staged: StagedAIG, part: Partition, p: FlatteningPart) -> bool {
    &&& part_shaped(staged, part)
    &&& p.wf()
    &&& p.shape.describes(aig, staged, part)
    &&& p.comb_outputs_activations.models(activations(aig, staged, part.endpoints@))
}

/// Is the partition flattened, with all its endpoints stored?
pub open spec fn part_flat(aig: AIG, staged: StagedAIG, part: Partition, p: FlatteningPart) -> bool {
    &&& part_shaped(staged, part)
    &&& p.wf()
    &&& p.shape.describes(aig, staged, part)
    &&& p.comb_outputs_activations.models(activations(aig, staged, part.endpoints@))
    &&& forall|i: int| 0 <= i < part.endpoints@.len() ==> #[trigger] endpoint_stored(aig, staged, part, p, i)
}

/// Are the endpoint groups of the partition written out, wherever the results
/// of its stages are?
pub open spec fn groups_placed(aig: AIG, staged: StagedAIG, part: Partition) -> bool {
    forall|pins: Map<usize, usize>| #[trigger]
        indexed_last(all_outs(part.stages@), pins) ==> all_fine(aig, staged, part, pins)
}

/// What of a partition stands against flattening it?
pub open spec fn part_fault(aig: AIG, staged: StagedAIG, part: Partition, e: FlattenError) -> bool {
    let words = words_needed(aig, staged, part);
    match e {
        FlattenError::Malformed => !part_shaped(staged, part),
        FlattenError::TooManyWords => part_shaped(staged, part) && (words.0 > 256 || words.1 > 256),
        FlattenError::Unplaced(_)
        | FlattenError::NotDsp
        | FlattenError::ConstantOutput
        | FlattenError::ConstantOne => part_shaped(staged, part) && exists|pins: Map<usize, usize>, i: int|
            indexed_last(all_outs(part.stages@), pins) && 0 <= i < part.endpoints@.len() && #[trigger] group_fault(
                pins,
                group_of(&aig, &staged, &part, i),
                e,
            ),
        _ => false,
    }
}

/// The words of state that each partition needs.
pub open spec fn state_needed(aig: AIG, staged: StagedAIG, parts: Seq<Partition>) -> spec_fn(int) -> nat {
    |i: int| words_needed(aig, staged, parts[i]).0 as nat
}

/// The words of SRAM storage that each partition needs.
pub open spec fn srams_needed(aig: AIG, staged: StagedAIG, parts: Seq<Partition>) -> spec_fn(int) -> nat {
    |i: int| count_words(aig, staged, parts[i].endpoints@).0 * 8192
}

/// The words of macro state that each partition needs.
pub open spec fn macros_needed(aig: AIG, staged: StagedAIG, parts: Seq<Partition>) -> spec_fn(int) -> nat {
    |i: int| count_words(aig, staged, parts[i].endpoints@).2
}

/// Does what the partitions of a major stage need fit behind what is used?
pub open spec fn stage_fits(aig: AIG, staged: StagedAIG, parts: Seq<Partition>, num_blocks: nat, s0: Sums) -> bool {
    let costs = part_costs(parts);
    let blocks = arranged(costs, num_blocks, parts.len());
    &&& total_cost(costs, costs.len()) <= usize::MAX
    &&& s0.state + sum_before(blocks, blocks.len(), state_needed(aig, staged, parts)) <= MAX_STATE
    &&& s0.srams + sum_before(blocks, blocks.len(), srams_needed(aig, staged, parts)) <= u32::MAX
    &&& s0.macros + sum_before(blocks, blocks.len(), macros_needed(aig, staged, parts)) <= u32::MAX
}

/// What stands against flattening a major stage: one of its partitions, or that
/// they need too much?
pub open spec fn stage_fault(
    aig: AIG,
    staged: StagedAIG,
    parts: Seq<Partition>,
    num_blocks: nat,
    s0: Sums,
    e: FlattenError,
) -> bool {
    if e is StateTooLarge {
        !stage_fits(aig, staged, parts, num_blocks, s0)
    } else {
        exists|i: int| 0 <= i < parts.len() && part_fault(aig, staged, #[trigger] parts[i], e)
    }
}

/// Where pins and literals are found once the first `n` parts are flattened.
pub open spec fn maps_after(
    aig: AIG,
    staged: StagedAIG,
    parts: Seq<Partition>,
    fps: Seq<FlatteningPart>,
    n: nat,
    base: MapsView,
) -> MapsView
    decreases n,
{
    if n == 0 {
        base
    } else {
        let rest = maps_after(aig, staged, parts, fps, (n - 1) as nat, base);
        MapsView {
            input: input_map_after(aig, staged, fps[n - 1], parts[n - 1].endpoints@, rest.input),
            staged_io: staged_map_after(aig, staged, fps[n - 1], parts[n - 1].endpoints@, rest.staged_io),
            output: output_map_after(aig, staged, fps[n - 1], parts[n - 1].endpoints@, rest.output),
        }
    }
}

proof fn lemma_maps_same(
    aig: AIG,
    staged: StagedAIG,
    parts: Seq<Partition>,
    a: Seq<FlatteningPart>,
    b: Seq<FlatteningPart>,
    n: nat,
    base: MapsView,
)
    requires
        forall|i: int| 0 <= i < n ==> #[trigger] a[i] == b[i],
    ensures
        maps_after(aig, staged, parts, a, n, base) == maps_after(aig, staged, parts, b, n, base),
    decreases n,
{
    if n > 0 {
        lemma_maps_same(aig, staged, parts, a, b, (n - 1) as nat, base);
        assert(a[n - 1] == b[n - 1]);
    }
}

/// Is the major stage flattened, from the sums and maps before it to those
/// behind it?
pub open spec fn stage_flat(
    aig: AIG,
    staged: StagedAIG,
    parts: Seq<Partition>,
    num_blocks: nat,
    zero_word: u32,
    s0: Sums,
    s1: Sums,
    m0: MapsView,
    m1: MapsView,
    flat: FlatStage,
) -> bool {
    let blocks = lists(flat.blocks@);
    &&& blocks == arranged(part_costs(parts), num_blocks, parts.len())
    &&& flat.parts@.len() == parts.len()
    &&& forall|i: int| 0 <= i < parts.len() ==> part_flat(aig, staged, parts[i], #[trigger] flat.parts@[i])
    &&& forall|b: int, k: int|
        0 <= b < blocks.len() && 0 <= k < blocks[b].len() ==> (#[trigger] flat.parts@[blocks[b][k] as int]).starts
            == starts_at(flat.parts@, blocks, zero_word, s0, b, k)
    &&& s1.state == s0.state + sum_before(blocks, blocks.len(), state_words_of(flat.parts@))
    &&& s1.srams == s0.srams + sum_before(blocks, blocks.len(), sram_words_of(flat.parts@))
    &&& s1.macros == s0.macros + sum_before(blocks, blocks.len(), macro_words_of(flat.parts@))
    &&& m1 == maps_after(aig, staged, parts, flat.parts@, parts.len(), m0)
}

proof fn lemma_once(costs: Seq<usize>, num_blocks: nat, n: nat)
    requires
        num_blocks >= 1,
        n <= costs.len(),
        n <= usize::MAX,
    ensures
        once(arranged(costs, num_blocks, n)),
{
    let blocks = arranged(costs, num_blocks, n);
    lemma_arranged(costs, num_blocks, n);
    assert forall|b: int, k: int, c: int, l: int| #[trigger] once_at(blocks, b, k, c, l) by {
        if 0 <= b < blocks.len() && 0 <= c < blocks.len() && 0 <= k < blocks[b].len() && 0 <= l < blocks[c].len()
            && blocks[b][k] == blocks[c][l] {
            let i = blocks[b][k];
            assert(blocks[b][k] < n);
            law_arranged_once(costs, num_blocks, n, i);
            assert(blocks[b][k] == i && blocks[c][l] == i);
        }
    }
}

/// The numbers of stages of the parts, as long as they can be summed up.
fn make_costs(parts: &[Partition]) -> (r: Option<Vec<usize>>)
    ensures
        r matches Some(c) ==> c@ == part_costs(parts@) && total_cost(c@, c@.len()) <= usize::MAX,
        r is None ==> total_cost(part_costs(parts@), parts@.len()) > usize::MAX,
{
    let mut costs: Vec<usize> = Vec::new();
    let mut total: usize = 0;
    let n = parts.len();
    let mut i: usize = 0;
    while i < n
        invariant
            n == parts@.len(),
            i <= n,
            costs@ == part_costs(parts@).take(i as int),
            total == total_cost(part_costs(parts@), i as nat),
        decreases n - i,
    {
        let c = parts[i].stages.len();
        if c > usize::MAX - 3 || c + 3 > usize::MAX - total {
            proof {
                super::blocks::lemma_total_grows(part_costs(parts@), (i + 1) as nat, n as nat);
            }
            return None;
        }
        total = total + c + 3;
        costs.push(c);
        assert(costs@ =~= part_costs(parts@).take(i + 1));
        i += 1;
    }
    assert(part_costs(parts@).take(n as int) =~= part_costs(parts@));
    Some(costs)
}

/// Are all parts small enough to be counted?
pub open spec fn parts_sized(parts: Seq<Partition>) -> bool {
    forall|i: int| 0 <= i < parts.len() ==> (#[trigger] parts[i]).endpoints@.len() <= usize::MAX / 16
}

/// Lays out what the parts write out.
fn init_parts(aig: &AIG, staged: &StagedAIG, parts: &[Partition]) -> (r: Result<Vec<FlatteningPart>, FlattenError>)
    requires
        endpoints_readable(*aig),
        staged.wf(*aig),
        parts_sized(parts@),
    ensures
        r matches Ok(fps) ==> fps@.len() == parts@.len() && forall|i: int|
            0 <= i < parts@.len() ==> part_laid(*aig, *staged, parts@[i], #[trigger] fps@[i]),
        r matches Err(e) ==> !(e is StateTooLarge) && exists|i: int|
            0 <= i < parts@.len() && part_fault(*aig, *staged, #[trigger] parts@[i], e),
{
    let n = parts.len();
    let mut fps: Vec<FlatteningPart> = Vec::new();
    let mut i: usize = 0;
    while i < n
        invariant
            endpoints_readable(*aig),
            staged.wf(*aig),
            parts_sized(parts@),
            n == parts@.len(),
            i <= n,
            fps@.len() == i,
            forall|j: int|
                0 <= j < i ==> part_laid(*aig, *staged, parts@[j], #[trigger] fps@[j]),
        decreases n - i,
    {
        assert(parts@[i as int].endpoints@.len() <= usize::MAX / 16);
        match FlatteningPart::init_afters_writeouts(aig, staged, &parts[i]) {
            Err(e) => {
                assert(part_fault(*aig, *staged, parts@[i as int], e));
                return Err(e);
            },
            Ok(p) => {
                assert(part_shaped(*staged, parts@[i as int]));
                assert(part_laid(*aig, *staged, parts@[i as int], p));
                fps.push(p);
            },
        }
        i += 1;
    }
    Ok(fps)
}

/// Partitions that are laid out take the words that they need.
proof fn lemma_needed(aig: AIG, staged: StagedAIG, parts: Seq<Partition>, fps: Seq<FlatteningPart>)
    requires
        fps.len() == parts.len(),
        forall|i: int| 0 <= i < parts.len() ==> part_laid(aig, staged, parts[i], #[trigger] fps[i]),
    ensures
        forall|i: int|
            0 <= i < parts.len() ==> #[trigger] state_words_of(fps)(i) == state_needed(aig, staged, parts)(i),
        forall|i: int|
            0 <= i < parts.len() ==> #[trigger] sram_words_of(fps)(i) == srams_needed(aig, staged, parts)(i),
        forall|i: int|
            0 <= i < parts.len() ==> #[trigger] macro_words_of(fps)(i) == macros_needed(aig, staged, parts)(i),
{
    assert forall|i: int| 0 <= i < parts.len() implies #[trigger] state_words_of(fps)(i) == state_needed(
        aig,
        staged,
        parts,
    )(i) by {
        assert(part_laid(aig, staged, parts[i], fps[i]));
    }
    assert forall|i: int| 0 <= i < parts.len() implies #[trigger] sram_words_of(fps)(i) == srams_needed(
        aig,
        staged,
        parts,
    )(i) by {
        assert(part_laid(aig, staged, parts[i], fps[i]));
    }
    assert forall|i: int| 0 <= i < parts.len() implies #[trigger] macro_words_of(fps)(i) == macros_needed(
        aig,
        staged,
        parts,
    )(i) by {
        assert(part_laid(aig, staged, parts[i], fps[i]));
    }
}

/// Flattens the partitions of a major stage, up to their scripts.
pub fn flatten_stage(
    aig: &AIG,
    staged: &StagedAIG,
    parts: &[Partition],
    num_blocks: usize,
    zero_word: u32,
    sums: Sums,
    maps: &mut Maps,
) -> (r: Result<(FlatStage, Sums), FlattenError>)
    requires
        endpoints_readable(*aig),
        sram_data_ok(*aig),
        staged.wf(*aig),
        parts_sized(parts@),
        num_blocks >= 1,
        zero_word < MAX_STATE,
        sums.state <= MAX_STATE,
    ensures
        r matches Ok((flat, s1)) ==> stage_flat(
            *aig,
            *staged,
            parts@,
            num_blocks as nat,
            zero_word,
            sums,
            s1,
            old(maps)@,
            final(maps)@,
            flat,
        ) && s1.state <= MAX_STATE,
        r matches Err(e) ==> stage_fault(*aig, *staged, parts@, num_blocks as nat, sums, e),
{
    let ghost m0 = maps@;
    let n = parts.len();
    let costs = match make_costs(parts) {
        None => {
            return Err(FlattenError::StateTooLarge);
        },
        Some(c) => c,
    };
    let blocks = arrange_blocks(&costs, num_blocks);
    let ghost bl = lists(blocks@);
    let mut fps = match init_parts(aig, staged, parts) {
        Err(e) => {
            return Err(e);
        },
        Ok(f) => f,
    };
    let ghost f0 = fps@;
    proof {
        lemma_arranged(costs@, num_blocks as nat, n as nat);
        lemma_once(costs@, num_blocks as nat, n as nat);
    }
    proof {
        lemma_needed(*aig, *staged, parts@, fps@);
        lemma_sum_before_same(bl, bl.len(), n as int, state_words_of(f0), state_needed(*aig, *staged, parts@));
        lemma_sum_before_same(bl, bl.len(), n as int, sram_words_of(f0), srams_needed(*aig, *staged, parts@));
        lemma_sum_before_same(bl, bl.len(), n as int, macro_words_of(f0), macros_needed(*aig, *staged, parts@));
    }
    let s1 = match allocate_starts(&blocks, &mut fps, zero_word, sums) {
        Err(e) => {
            return Err(e);
        },
        Ok(s) => s,
    };
    let ghost f1 = fps@;
    proof {
        assert forall|i: int| 0 <= i < n implies starts_ok(#[trigger] f1[i]) by {
            law_arranged_once(costs@, num_blocks as nat, n as nat, i as usize);
            let b = choose|b: int|
                0 <= b < num_blocks && (#[trigger] arranged(costs@, num_blocks as nat, n as nat)[b]).contains(
                    i as usize,
                );
            let k = bl[b].index_of(i as usize);
            assert(bl[b][k] == i as usize);
            assert(starts_ok(f1[bl[b][k] as int]));
        }
    }
    let mut i: usize = 0;
    while i < n
        invariant
            endpoints_readable(*aig),
            sram_data_ok(*aig),
            staged.wf(*aig),
            n == parts@.len(),
            i <= n,
            fps@.len() == n,
            f1.len() == n,
            forall|j: int|
                0 <= j < n ==> (#[trigger] fps@[j]).wf() && fps@[j].shape == f1[j].shape && fps@[j].starts
                    == f1[j].starts && starts_ok(fps@[j]) && part_shaped(*staged, parts@[j])
                    && fps@[j].shape.describes(*aig, *staged, parts@[j]) && fps@[j].comb_outputs_activations.models(
                    activations(*aig, *staged, parts@[j].endpoints@),
                ),
            forall|j: int| 0 <= j < i ==> part_flat(*aig, *staged, parts@[j], #[trigger] fps@[j]),
            maps@ == maps_after(*aig, *staged, parts@, fps@, i as nat, m0),
        decreases n - i,
    {
        let ghost f2 = fps@;
        let ghost m2 = maps@;
        assert(fps@[i as int].wf());
        match fps[i].make_inputs_outputs(
            aig,
            staged,
            &parts[i],
            &mut maps.input,
            &mut maps.staged_io,
            &mut maps.output,
        ) {
            Err(e) => {
                proof {
                    let part = parts@[i as int];
                    let pins = f2[i as int].shape.pins();
                    assert(indexed_last(all_outs(part.stages@), pins));
                    let k = choose|k: int|
                        0 <= k < part.endpoints@.len() && group_fault(
                            pins,
                            #[trigger] group_of(aig, staged, &part, k),
                            e,
                        );
                    assert(group_fault(pins, group_of(aig, staged, &part, k), e));
                    assert(part_fault(*aig, *staged, parts@[i as int], e));
                }
                return Err(e);
            },
            Ok(()) => {},
        }
        proof {
            lemma_maps_same(*aig, *staged, parts@, f2, fps@, i as nat, m0);
            let m3 = maps_after(*aig, *staged, parts@, fps@, (i + 1) as nat, m0);
            assert(maps@.input == m3.input);
            assert(maps@.staged_io == m3.staged_io);
            assert(maps@.output == m3.output);
            assert forall|j: int| 0 <= j < i + 1 implies part_flat(*aig, *staged, parts@[j], #[trigger] fps@[j]) by {
                if j < i {
                    assert(fps@[j] == f2[j]);
                }
            }
            assert forall|j: int| 0 <= j < n implies (#[trigger] fps@[j]).wf() && fps@[j].shape == f1[j].shape
                && fps@[j].starts == f1[j].starts && starts_ok(fps@[j]) && part_shaped(*staged, parts@[j])
                && fps@[j].shape.describes(*aig, *staged, parts@[j]) && fps@[j].comb_outputs_activations.models(
                activations(*aig, *staged, parts@[j].endpoints@),
            ) by {
                assert(f2[j].shape == f1[j].shape);
                if j != i {
                    assert(fps@[j] == f2[j]);
                }
            }
        }
        i += 1;
    }
    proof {
        assert forall|j: int| 0 <= j < n implies (#[trigger] f0[j]).shape == fps@[j].shape by {
            assert(f1[j].shape == f0[j].shape);
            assert(fps@[j].shape == f1[j].shape);
        }
        assert forall|b: int, k: int| 0 <= b < bl.len() && 0 <= k < bl[b].len() implies (
        #[trigger] fps@[bl[b][k] as int]).starts == starts_at(fps@, bl, zero_word, sums, b, k) by {
            assert(bl[b][k] < n);
            assert(fps@[bl[b][k] as int].starts == f1[bl[b][k] as int].starts);
            lemma_starts_same(f0, fps@, bl, zero_word, sums, b, k);
        }
        lemma_sums_same(f0, fps@);
        lemma_sum_before_same(bl, bl.len(), n as int, state_words_of(f0), state_words_of(fps@));
        lemma_sum_before_same(bl, bl.len(), n as int, sram_words_of(f0), sram_words_of(fps@));
        lemma_sum_before_same(bl, bl.len(), n as int, macro_words_of(f0), macro_words_of(fps@));
    }
    Ok((FlatStage { blocks, parts: fps }, s1))
}

} // verus!
