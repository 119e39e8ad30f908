//! A partition being flattened.

use super::activations::{count_flags, lemma_flags_imply, lemma_flags_set, Activations};
use super::error::FlattenError;
use super::layout::{
    after_stage, all_outs, index_pins, indexed_last, lemma_after_rows, lemma_all_outs_len, make_after, stage_outs,
    stage_shaped,
};
use super::tables::{as_code, has_code, literal_code, query_permute, Tables};
use crate::aig::{EndpointGroup, AIG};
use crate::collections::{gate_get, gate_view, map_get, map_view};
use crate::pe::budget::{activations, are_groups, count_dups, count_words, endpoints_readable, lemma_group_pins};
use crate::pe::grid::width;
use crate::pe::partition::Partition;
use crate::pe::rounds::count_write_outs;
use crate::pe::stage::BoomerangStage;
use crate::staging::StagedAIG;
use indexmap::IndexMap;
use vstd::prelude::*;

verus! {

/// The number of macros among some endpoint groups.
pub open spec fn count_dsps(aig: AIG, staged: StagedAIG, endpoints: Seq<usize>) -> nat
    decreases endpoints.len(),
{
    if endpoints.len() == 0 {
        0
    } else {
        count_dsps(aig, staged, endpoints.drop_last()) + (if staged.group(&aig, endpoints.last() as int) is Macro {
            1nat
        } else {
            0nat
        })
    }
}

/// What a partition writes out, and how many words that takes.
///
/// The words come in this order: those that stages write out, two for each
/// macro, those for outputs with several activations, one for each SRAM.
pub struct PartShape {
    /// for each boomerang stage, the result bits layout.
    pub afters: Vec<Vec<usize>>,
    /// the bits that the stages write out.
    pub parts_after_writeouts: Vec<usize>,
    /// the position of each pin among them.
    pub after_writeout_pin2pos: IndexMap<usize, usize>,
    /// the number of SRAMs to simulate in this part.
    pub num_srams: u32,
    /// number of normal writeouts
    pub num_normal_writeouts: u32,
    /// number of writeout words for output duplication
    pub num_duplicate_writeouts: u32,
    /// number of total writeouts
    pub num_writeouts: u32,
    /// the number of DSP endpoints committed by this part.
    pub num_dsps: u32,
    /// write-out words used by DSP P ports (2 each, 48 bits).
    pub dsp_state_words: u32,
    /// total u32 words of persistent macro state owned by this part.
    pub macro_state_words: u32,
}

impl PartShape {
    /// The pins that are written out, with their positions.
    pub open spec fn pins(self) -> Map<usize, usize> {
        map_view(self.after_writeout_pin2pos)
    }

    /// The numbers belong together and stay within a block.
    pub open spec fn wf(self) -> bool {
        &&& self.parts_after_writeouts@.len() == 32 * self.num_normal_writeouts
        &&& indexed_last(self.parts_after_writeouts@, self.pins())
        &&& self.dsp_state_words == 2 * self.num_dsps
        &&& self.num_writeouts == self.num_normal_writeouts + self.dsp_state_words + self.num_duplicate_writeouts
            + self.num_srams
        &&& self.num_writeouts <= 256
        &&& 4 * self.num_srams + 4 * self.num_dsps + self.num_duplicate_writeouts <= 256
    }

    /// The shape lays out what the stages of a partition leave behind and write
    /// out.
    pub open spec fn lays_out(self, part: Partition) -> bool {
        &&& self.afters@.len() == part.stages@.len()
        &&& forall|k: int|
            0 <= k < part.stages@.len() ==> (#[trigger] self.afters@[k])@ == after_stage(part.stages@[k].hier@)
        &&& self.num_normal_writeouts == count_write_outs(part.stages@)
    }

    /// The shape is that of a partition.
    pub open spec fn describes(self, aig: AIG, staged: StagedAIG, part: Partition) -> bool {
        let (srams, _, state) = count_words(aig, staged, part.endpoints@);
        &&& self.lays_out(part)
        &&& self.parts_after_writeouts@ == all_outs(part.stages@)
        &&& self.num_srams == srams
        &&& self.num_dsps == count_dsps(aig, staged, part.endpoints@)
        &&& self.macro_state_words == state
        &&& self.num_duplicate_writeouts == (count_dups(activations(aig, staged, part.endpoints@)) + 31) / 32
    }

    /// The end of the positions for outputs with several activations.
    pub open spec fn dup_end(self) -> int {
        32 * (self.num_writeouts - self.num_srams)
    }

    /// The end of the gathers for outputs with several activations.
    pub open spec fn dup_gather_end(self) -> int {
        32 * (4 * self.num_srams + 4 * self.num_dsps + self.num_duplicate_writeouts)
    }

    /// Positions of pins are positions.
    pub(crate) proof fn lemma_positions(self)
        requires
            self.wf(),
        ensures
            forall|v: usize| #[trigger] self.pins().contains_key(v) ==> self.pins()[v] < 32 * self.num_normal_writeouts
                && self.pins()[v] < 8192,
    {
    }
}

/// Where a partition keeps its state.
#[derive(Debug, Clone, Copy)]
pub struct PartStarts {
    /// bit position of a state word that is never written by anyone.
    ///
    /// It reads 0 for the whole simulation, and gives a home to flip-flops
    /// whose D is a hard constant zero.
    pub zero_bit_pos: u32,
    /// the starting offset for FFs, outputs, and SRAM read results.
    pub state_start: u32,
    /// the starting offset of SRAM storage.
    pub sram_start: u32,
    /// the starting offset of this part's run in the macro-state array.
    pub macro_state_start: u32,
}

/// temporaries for a part being flattened.
pub struct FlatteningPart {
    pub shape: PartShape,
    pub starts: PartStarts,
    /// the outputs categorized into activations
    pub comb_outputs_activations: Activations,
    /// the current (placed) count of duplicate permutes
    pub cnt_placed_duplicate_permute: u32,
    pub tables: Tables,
}

/// Has the stage the right rows, and do its words exist?
fn check_stage(stage: &BoomerangStage) -> (b: bool)
    ensures
        b == stage_shaped(*stage),
{
    if stage.hier.len() != 14 {
        return false;
    }
    let mut len: usize = 8192;
    let mut h: usize = 0;
    while h < 14
        invariant
            stage.hier@.len() == 14,
            h <= 14,
            h <= 13 ==> len == width(h as int),
            forall|k: int| 0 <= k < h ==> (#[trigger] stage.hier@[k])@.len() == width(k),
        decreases 14 - h,
    {
        if stage.hier[h].len() != len {
            assert(stage.hier@[h as int]@.len() != width(h as int));
            return false;
        }
        len = len / 2;
        h += 1;
    }
    let mut i: usize = 0;
    while i < stage.write_outs.len()
        invariant
            i <= stage.write_outs@.len(),
            forall|k: int| 0 <= k < i ==> #[trigger] stage.write_outs@[k] < 256,
        decreases stage.write_outs@.len() - i,
    {
        if stage.write_outs[i] >= 256 {
            return false;
        }
        i += 1;
    }
    true
}

/// Is the partition made of stages with the right rows, and of endpoint groups
/// that exist?
pub open spec fn part_shaped(staged: StagedAIG, part: Partition) -> bool {
    &&& forall|k: int| 0 <= k < part.stages@.len() ==> stage_shaped(#[trigger] part.stages@[k])
    &&& are_groups(staged, part.endpoints@)
}

/// Is the partition made of stages with the right rows, and of endpoint groups
/// that exist?
fn check_part(staged: &StagedAIG, part: &Partition) -> (b: bool)
    requires
        staged.group_count() <= usize::MAX,
    ensures
        b == part_shaped(*staged, *part),
{
    let mut k: usize = 0;
    while k < part.stages.len()
        invariant
            k <= part.stages@.len(),
            forall|j: int| 0 <= j < k ==> stage_shaped(#[trigger] part.stages@[j]),
        decreases part.stages@.len() - k,
    {
        if !check_stage(&part.stages[k]) {
            return false;
        }
        k += 1;
    }
    let n = staged.num_endpoint_groups();
    let mut i: usize = 0;
    while i < part.endpoints.len()
        invariant
            n == staged.group_count(),
            i <= part.endpoints@.len(),
            forall|j: int| 0 <= j < i ==> #[trigger] part.endpoints@[j] < n,
        decreases part.endpoints@.len() - i,
    {
        if part.endpoints[i] >= n {
            return false;
        }
        i += 1;
    }
    true
}

/// The words of a partition's write-outs and gathers.
pub open spec fn words_needed(aig: AIG, staged: StagedAIG, part: Partition) -> (int, int) {
    let (srams, _, _) = count_words(aig, staged, part.endpoints@);
    let dsps = count_dsps(aig, staged, part.endpoints@);
    let dups = (count_dups(activations(aig, staged, part.endpoints@)) + 31) / 32;
    (
        (count_write_outs(part.stages@) + 2 * dsps + dups + srams) as int,
        (4 * srams + 4 * dsps + dups) as int,
    )
}

/// Counts the words that the stages write out, as long as they are no more
/// than 256.
fn count_outs(stages: &Vec<BoomerangStage>) -> (r: Option<usize>)
    ensures
        r matches Some(n) ==> n == count_write_outs(stages@) && n <= 256,
        r is None ==> count_write_outs(stages@) > 256,
{
    let mut n: usize = 0;
    let mut k: usize = 0;
    while k < stages.len()
        invariant
            k <= stages@.len(),
            n <= 256,
            n == count_write_outs(stages@.take(k as int)),
        decreases stages@.len() - k,
    {
        proof {
            assert(stages@.take(k + 1).drop_last() =~= stages@.take(k as int));
        }
        let more = stages[k].write_outs.len();
        if more > 256 - n {
            proof {
                lemma_outs_grow(stages@, k + 1);
            }
            return None;
        }
        n += more;
        k += 1;
    }
    assert(stages@.take(stages@.len() as int) =~= stages@);
    Some(n)
}

proof fn lemma_outs_grow(stages: Seq<BoomerangStage>, k: int)
    requires
        0 <= k <= stages.len(),
    ensures
        count_write_outs(stages.take(k)) <= count_write_outs(stages),
    decreases stages.len() - k,
{
    if k < stages.len() {
        lemma_outs_grow(stages, k + 1);
        assert(stages.take(k + 1).drop_last() =~= stages.take(k));
    } else {
        assert(stages.take(k) =~= stages);
    }
}

/// The layouts of the results of all stages.
fn make_afters(stages: &Vec<BoomerangStage>) -> (afters: Vec<Vec<usize>>)
    requires
        forall|k: int| 0 <= k < stages@.len() ==> stage_shaped(#[trigger] stages@[k]),
    ensures
        afters@.len() == stages@.len(),
        forall|k: int| 0 <= k < stages@.len() ==> (#[trigger] afters@[k])@ == after_stage(stages@[k].hier@),
{
    let mut afters: Vec<Vec<usize>> = Vec::new();
    let mut k: usize = 0;
    while k < stages.len()
        invariant
            forall|k: int| 0 <= k < stages@.len() ==> stage_shaped(#[trigger] stages@[k]),
            k <= stages@.len(),
            afters@.len() == k,
            forall|j: int| 0 <= j < k ==> (#[trigger] afters@[j])@ == after_stage(stages@[j].hier@),
        decreases stages@.len() - k,
    {
        assert(stage_shaped(stages@[k as int]));
        afters.push(make_after(&stages[k].hier));
        k += 1;
    }
    afters
}

/// The bits that all stages write out.
fn make_outs(stages: &Vec<BoomerangStage>, afters: &Vec<Vec<usize>>) -> (outs: Vec<usize>)
    requires
        forall|k: int| 0 <= k < stages@.len() ==> stage_shaped(#[trigger] stages@[k]),
        afters@.len() == stages@.len(),
        forall|k: int| 0 <= k < stages@.len() ==> (#[trigger] afters@[k])@ == after_stage(stages@[k].hier@),
    ensures
        outs@ == all_outs(stages@),
{
    let mut outs: Vec<usize> = Vec::new();
    let mut k: usize = 0;
    assert(stages@.take(0) =~= Seq::<BoomerangStage>::empty());
    while k < stages.len()
        invariant
            forall|k: int| 0 <= k < stages@.len() ==> stage_shaped(#[trigger] stages@[k]),
            afters@.len() == stages@.len(),
            forall|k: int| 0 <= k < stages@.len() ==> (#[trigger] afters@[k])@ == after_stage(stages@[k].hier@),
            k <= stages@.len(),
            outs@ == all_outs(stages@.take(k as int)),
        decreases stages@.len() - k,
    {
        let ghost before = outs@;
        let ghost stage = stages@[k as int];
        proof {
            assert(stage_shaped(stages@[k as int]));
            lemma_after_rows(stage.hier@, 1);
            assert(stages@.take(k + 1).drop_last() =~= stages@.take(k as int));
        }
        let after = &afters[k];
        let mut i: usize = 0;
        while i < stages[k].write_outs.len()
            invariant
                k < stages@.len(),
                stage == stages@[k as int],
                stage_shaped(stage),
                after@ == after_stage(stage.hier@),
                after@.len() == 8192,
                i <= stage.write_outs@.len(),
                outs@ == before + stage_outs(stage, i as nat),
            decreases stage.write_outs@.len() - i,
        {
            let w = stages[k].write_outs[i];
            assert(stage.write_outs@[i as int] < 256);
            let ghost o1 = outs@;
            let mut b: usize = 0;
            while b < 32
                invariant
                    w < 256,
                    after@.len() == 8192,
                    b <= 32,
                    outs@ == o1 + after@.subrange(w * 32, w * 32 + b),
                decreases 32 - b,
            {
                outs.push(after[w * 32 + b]);
                assert(outs@ =~= o1 + after@.subrange(w * 32, w * 32 + b + 1));
                b += 1;
            }
            assert(outs@ =~= before + stage_outs(stage, (i + 1) as nat));
            i += 1;
        }
        k += 1;
    }
    assert(stages@.take(stages@.len() as int) =~= stages@);
    outs
}

/// The endpoint groups of a partition, counted.
struct Counted {
    srams: usize,
    dsps: usize,
    state: usize,
    acts: Activations,
}

/// Counts the endpoint groups of a partition.
fn count_groups(aig: &AIG, staged: &StagedAIG, endpoints: &Vec<usize>) -> (r: Counted)
    requires
        endpoints_readable(*aig),
        staged.wf(*aig),
        are_groups(*staged, endpoints@),
        endpoints@.len() <= usize::MAX / 16,
    ensures
        r.srams == count_words(*aig, *staged, endpoints@).0,
        r.state == count_words(*aig, *staged, endpoints@).2,
        r.dsps == count_dsps(*aig, *staged, endpoints@),
        r.acts.wf(),
        r.acts.models(activations(*aig, *staged, endpoints@)),
        forall|i: int| 0 <= i < r.acts.pos@.len() ==> (#[trigger] r.acts.pos@[i]) is None,
        r.srams <= endpoints@.len(),
        r.dsps <= endpoints@.len(),
        r.acts.dups <= endpoints@.len(),
{
    let mut srams: usize = 0;
    let mut dsps: usize = 0;
    let mut state: usize = 0;
    let mut acts = Activations::new();
    let ghost mut model: Seq<(usize, usize)> = Seq::empty();
    let mut i: usize = 0;
    assert(endpoints@.take(0) =~= Seq::<usize>::empty());
    while i < endpoints.len()
        invariant
            endpoints_readable(*aig),
            staged.wf(*aig),
            are_groups(*staged, endpoints@),
            endpoints@.len() <= usize::MAX / 16,
            i <= endpoints@.len(),
            srams == count_words(*aig, *staged, endpoints@.take(i as int)).0,
            state == count_words(*aig, *staged, endpoints@.take(i as int)).2,
            dsps == count_dsps(*aig, *staged, endpoints@.take(i as int)),
            model == activations(*aig, *staged, endpoints@.take(i as int)),
            acts.wf(),
            acts.models(model),
            forall|i: int| 0 <= i < acts.pos@.len() ==> (#[trigger] acts.pos@[i]) is None,
            acts.list@.len() <= i,
            srams <= i,
            dsps <= i,
            state <= 2 * i,
        decreases endpoints@.len() - i,
    {
        let e = endpoints[i];
        proof {
            assert(endpoints@.take(i + 1).drop_last() =~= endpoints@.take(i as int));
            assert(endpoints@.take(i + 1).last() == e);
            assert(endpoints@[i as int] < staged.group_count());
            lemma_group_pins(*aig, *staged, e as int);
            crate::pe::budget::lemma_dff_literal(*aig, *staged, e as int);
        }
        match staged.get_endpoint_group(aig, e) {
            EndpointGroup::RAMBlock(_) => {
                srams += 1;
            },
            EndpointGroup::PrimaryOutput(idx) => {
                let a: (usize, usize) = (idx / 2, 2 + idx % 2);
                acts.add(a, Ghost(model));
                proof {
                    model = model.push(a);
                }
            },
            EndpointGroup::StagedIOPin(idx) => {
                let a: (usize, usize) = (idx, 2);
                acts.add(a, Ghost(model));
                proof {
                    model = model.push(a);
                }
            },
            EndpointGroup::DFF(dff) => {
                if dff.d_iv != 0 {
                    let a: (usize, usize) = (dff.d_iv / 2, dff.en_iv * 2 + dff.d_iv % 2);
                    acts.add(a, Ghost(model));
                    proof {
                        model = model.push(a);
                    }
                }
            },
            EndpointGroup::Macro(m) => {
                dsps += 1;
                state += m.kind.state_words();
            },
        }
        i += 1;
    }
    proof {
        assert(endpoints@.take(endpoints@.len() as int) =~= endpoints@);
        super::activations::lemma_flags_bound(acts.further());
    }
    Counted { srams, dsps, state, acts }
}

/// Is a placed activation stored under its condition, at the position of its
/// pin or, if it is not the first one of its pin, at a copy of it?
pub open spec fn act_placed(shape: PartShape, cnt: int, tables: Tables, first: bool, a: (usize, usize),
    q: u16) -> bool {
    &&& q < 8192
    &&& shape.pins().contains_key(a.0)
    &&& has_code(shape.pins(), (a.1 / 2) as usize)
    &&& tables.enable(q as int) == literal_code(shape.pins(), (a.1 / 2) as usize)
    &&& tables.inverted(q as int) == (a.1 % 2 == 1)
    &&& first ==> q == shape.pins()[a.0]
    &&& !first ==> {
        &&& shape.dup_end() - cnt <= q < shape.dup_end()
        &&& tables.gather(shape.dup_gather_end() - (shape.dup_end() - q)) == (
            shape.pins()[a.0] as u16,
            false,
            false,
        )
    }
}

impl FlatteningPart {
    /// The copies that are placed are counted, and there is room for all.
    pub open spec fn wf(self) -> bool {
        &&& self.shape.wf()
        &&& self.tables.wf()
        &&& self.comb_outputs_activations.wf()
        &&& self.comb_outputs_activations.dups <= 32 * self.shape.num_duplicate_writeouts
        &&& self.cnt_placed_duplicate_permute == count_flags(self.comb_outputs_activations.further_placed())
        &&& forall|i: int| #[trigger] self.act_ok(i)
        &&& forall|i: int, j: int| #[trigger] self.apart(i, j)
    }

    /// If activation `i` is placed, it is placed right.
    pub open spec fn act_ok(self, i: int) -> bool {
        0 <= i < self.comb_outputs_activations.list@.len() ==> (self.comb_outputs_activations.pos@[i] matches Some(q)
            ==> act_placed(
            self.shape,
            self.cnt_placed_duplicate_permute as int,
            self.tables,
            self.comb_outputs_activations.first@[i],
            self.comb_outputs_activations.list@[i],
            q,
        ))
    }

    /// Where an activation that is not placed yet goes: the first one of a pin
    /// to where the pin is, and any other one to the last position for copies
    /// that is free.
    pub open spec fn next_place(self, i: int) -> int {
        if self.comb_outputs_activations.first@[i] {
            self.shape.pins()[self.comb_outputs_activations.list@[i].0] as int
        } else {
            self.shape.dup_end() - (self.cnt_placed_duplicate_permute + 1)
        }
    }

    /// Two activations are not placed at one position.
    pub open spec fn apart(self, i: int, j: int) -> bool {
        0 <= i < j < self.comb_outputs_activations.list@.len() && self.comb_outputs_activations.pos@[i] is Some
            && self.comb_outputs_activations.pos@[j] is Some ==> self.comb_outputs_activations.pos@[i]
            != self.comb_outputs_activations.pos@[j]
    }

    /// Lays out what a partition writes out.
    ///
    /// A partition with stages or endpoint groups that do not exist is
    /// malformed. One with more words to write out or to gather than a block
    /// has threads is refused.
    pub fn init_afters_writeouts(
        aig: &AIG,
        staged: &StagedAIG,
        part: &Partition,
    ) -> (r: Result<FlatteningPart, FlattenError>)
        requires
            endpoints_readable(*aig),
            staged.wf(*aig),
            part.endpoints@.len() <= usize::MAX / 16,
        ensures
            r == Err::<FlatteningPart, FlattenError>(FlattenError::Malformed) <==> !part_shaped(*staged, *part),
            part_shaped(*staged, *part) ==> (r is Err <==> words_needed(*aig, *staged, *part).0 > 256 || words_needed(
                *aig,
                *staged,
                *part,
            ).1 > 256),
            r matches Err(e) ==> e == FlattenError::Malformed || e == FlattenError::TooManyWords,
            r matches Ok(p) ==> p.wf() && p.shape.describes(*aig, *staged, *part) && p.comb_outputs_activations.models(
                activations(*aig, *staged, part.endpoints@),
            ) && forall|i: int|
                0 <= i < p.comb_outputs_activations.pos@.len() ==> (
                #[trigger] p.comb_outputs_activations.pos@[i]) is None,
            r matches Ok(p) ==> p.starts == (PartStarts {
                zero_bit_pos: 0,
                state_start: 0,
                sram_start: 0,
                macro_state_start: 0,
            }),
            r matches Ok(p) ==> (forall|q: int| 0 <= q < 8192 ==> #[trigger] p.tables.enable(q) == (0u16, false, true))
                && (forall|g: int| 0 <= g < 8192 ==> #[trigger] p.tables.gather(g) == (0u16, false, true)),
    {
        if !check_part(staged, part) {
            return Err(FlattenError::Malformed);
        }
        let c = count_groups(aig, staged, &part.endpoints);
        let normal = match count_outs(&part.stages) {
            None => {
                return Err(FlattenError::TooManyWords);
            },
            Some(n) => n,
        };
        let dup_words: usize = (c.acts.dups + 31) / 32;
        let words: usize = normal + 2 * c.dsps + dup_words + c.srams;
        let lanes: usize = 4 * c.srams + 4 * c.dsps + dup_words;
        if words > 256 || lanes > 256 {
            return Err(FlattenError::TooManyWords);
        }
        proof {
            lemma_state_words(*aig, *staged, part.endpoints@);
            lemma_all_outs_len(part.stages@);
        }
        let afters = make_afters(&part.stages);
        let outs = make_outs(&part.stages, &afters);
        let pins = index_pins(&outs);
        let p = FlatteningPart {
            shape: PartShape {
                afters,
                parts_after_writeouts: outs,
                after_writeout_pin2pos: pins,
                num_srams: c.srams as u32,
                num_normal_writeouts: normal as u32,
                num_duplicate_writeouts: dup_words as u32,
                num_writeouts: words as u32,
                num_dsps: c.dsps as u32,
                dsp_state_words: (2 * c.dsps) as u32,
                macro_state_words: c.state as u32,
            },
            starts: PartStarts { zero_bit_pos: 0, state_start: 0, sram_start: 0, macro_state_start: 0 },
            comb_outputs_activations: c.acts,
            cnt_placed_duplicate_permute: 0,
            tables: Tables::new(),
        };
        proof {
            lemma_none_placed(p.comb_outputs_activations);
            assert forall|i: int| #[trigger] p.act_ok(i) by {}
            assert forall|i: int, j: int| #[trigger] p.apart(i, j) by {}
        }
        Ok(p)
    }

    /// Where a literal comes from: bit position, invert bit, and set-0 bit.
    pub fn query_permute_with_pin_iv(&self, pin_iv: usize) -> (r: Option<(u16, u8, u8)>)
        requires
            self.shape.wf(),
        ensures
            r is Some <==> has_code(self.shape.pins(), pin_iv),
            r matches Some(c) ==> as_code(c) == literal_code(self.shape.pins(), pin_iv) && c.0 < 8192 && c.1 <= 1,
    {
        proof {
            self.shape.lemma_positions();
        }
        query_permute(&self.shape.after_writeout_pin2pos, pin_iv)
    }

    /// The local position of a data output bit with the given literal and
    /// clock enable. If it is not placed already, it is placed, and so are its
    /// clock enable and, if it is not the first activation of its pin, a copy
    /// of the pin.
    pub fn get_or_place_output_with_activation(
        &mut self,
        pin_iv: usize,
        clken_iv: usize,
    ) -> (r: Result<u16, FlattenError>)
        requires
            old(self).wf(),
            clken_iv <= (usize::MAX - 1) / 2,
            old(self).comb_outputs_activations.list@.contains(
                ((pin_iv / 2) as usize, (clken_iv * 2 + pin_iv % 2) as usize),
            ),
        ensures
            final(self).wf(),
            final(self).shape == old(self).shape,
            final(self).starts == old(self).starts,
            final(self).comb_outputs_activations.list@ == old(self).comb_outputs_activations.list@,
            gate_view(final(self).comb_outputs_activations.ids) == gate_view(old(self).comb_outputs_activations.ids),
            final(self).comb_outputs_activations.dups == old(self).comb_outputs_activations.dups,
            r is Err ==> *final(self) == *old(self),
            old(self).comb_outputs_activations.place_of(
                ((pin_iv / 2) as usize, (clken_iv * 2 + pin_iv % 2) as usize),
            ) is Some ==> r is Ok && *final(self) == *old(self),
            old(self).comb_outputs_activations.place_of(
                ((pin_iv / 2) as usize, (clken_iv * 2 + pin_iv % 2) as usize),
            ) is None && r is Ok ==> ({
                let id = old(self).comb_outputs_activations.id(
                    ((pin_iv / 2) as usize, (clken_iv * 2 + pin_iv % 2) as usize),
                );
                &&& r->Ok_0 == old(self).next_place(id)
                &&& final(self).cnt_placed_duplicate_permute == old(self).cnt_placed_duplicate_permute + (if old(
                    self,
                ).comb_outputs_activations.first@[id] {
                    0int
                } else {
                    1
                })
            }),
            forall|i: int|
                0 <= i < old(self).comb_outputs_activations.pos@.len() && old(
                    self,
                ).comb_outputs_activations.list@[i] != (
                    (pin_iv / 2) as usize,
                    (clken_iv * 2 + pin_iv % 2) as usize,
                ) ==> #[trigger] final(self).comb_outputs_activations.pos@[i]
                    == old(self).comb_outputs_activations.pos@[i],
            forall|i: int|
                0 <= i < old(self).comb_outputs_activations.pos@.len() && old(self).comb_outputs_activations.pos@[i]
                    is Some ==> #[trigger] final(self).comb_outputs_activations.pos@[i]
                    == old(self).comb_outputs_activations.pos@[i],
            r matches Ok(q) ==> final(self).comb_outputs_activations.place_of(
                ((pin_iv / 2) as usize, (clken_iv * 2 + pin_iv % 2) as usize),
            ) == Some(q),
            r is Ok <==> has_code(old(self).shape.pins(), clken_iv) && old(self).shape.pins().contains_key(
                (pin_iv / 2) as usize,
            ),
            r matches Err(e) ==> e == FlattenError::Unplaced((pin_iv / 2) as usize) || e == FlattenError::Unplaced(
                (clken_iv / 2) as usize,
            ),
            r matches Err(FlattenError::Unplaced(pin)) ==> !old(self).shape.pins().contains_key(pin),
            final(self).tables.gathers_kept(
                old(self).tables,
                old(self).shape.dup_gather_end() - 32 * old(self).shape.num_duplicate_writeouts,
                old(self).shape.dup_gather_end(),
            ),
            forall|q: int|
                32 * old(self).shape.num_normal_writeouts <= q < 8192 && !(old(self).shape.dup_end() - 32
                    * old(self).shape.num_duplicate_writeouts <= q < old(self).shape.dup_end())
                    ==> #[trigger] final(self).tables.enable(q) == old(self).tables.enable(q),
            forall|q: int|
                32 * old(self).shape.num_normal_writeouts <= q < 8192 && !(old(self).shape.dup_end() - 32
                    * old(self).shape.num_duplicate_writeouts <= q < old(self).shape.dup_end())
                    ==> #[trigger] final(self).tables.inverted(q) == old(self).tables.inverted(q),
    {
        let pin: usize = pin_iv / 2;
        let key: usize = clken_iv * 2 + pin_iv % 2;
        let ghost s0 = *self;
        let ghost acts0 = self.comb_outputs_activations;
        proof {
            assert(gate_view(acts0.ids).contains_key((pin, key)));
        }
        let id = match gate_get(&self.comb_outputs_activations.ids, pin, key) {
            Some(id) => id,
            None => {
                assert(false);
                0
            },
        };
        assert(key / 2 == clken_iv);
        if let Some(q) = self.comb_outputs_activations.pos[id] {
            assert(self.act_ok(id as int));
            return Ok(q);
        }
        let (perm, inv, set0) = match self.query_permute_with_pin_iv(clken_iv) {
            None => {
                return Err(FlattenError::Unplaced(clken_iv / 2));
            },
            Some(c) => c,
        };
        let origpos = match map_get(&self.shape.after_writeout_pin2pos, pin) {
            None => {
                return Err(FlattenError::Unplaced(pin));
            },
            Some(p) => p,
        };
        proof {
            self.shape.lemma_positions();
            assert(self.shape.pins().contains_key(pin));
            assert(self.shape.pins()[pin] < 8192);
            assert(key / 2 == clken_iv);
            assert(key % 2 == pin_iv % 2);
            assert(acts0.list@[id as int] == (pin, key));
            lemma_flags_imply(acts0.further_placed(), acts0.further());
        }
        let data_inv = (pin_iv % 2) as u8;
        let q: usize = if self.comb_outputs_activations.first[id] {
            self.tables.place_clken_datainv(origpos, perm, inv, set0, data_inv);
            origpos
        } else {
            proof {
                lemma_room_for_copy(acts0, id as int);
            }
            self.cnt_placed_duplicate_permute = self.cnt_placed_duplicate_permute + 1;
            let cnt = self.cnt_placed_duplicate_permute as usize;
            let dup_pos: usize = ((self.shape.num_writeouts - self.shape.num_srams) * 32) as usize - cnt;
            let dup_perm_pos: usize = ((self.shape.num_srams * 4 + self.shape.num_dsps * 4
                + self.shape.num_duplicate_writeouts) * 32) as usize - cnt;
            self.tables.place_sram_duplicate(dup_perm_pos, (origpos as u16, 0, 0));
            self.tables.place_clken_datainv(dup_pos, perm, inv, set0, data_inv);
            dup_pos
        };
        let ghost t1 = self.tables;
        self.comb_outputs_activations.pos.set(id, Some(q as u16));
        proof {
            let first = acts0.first@[id as int];
            assert(q < 8192);
            assert((q as u16) as int == q);
            assert(t1.enable(q as int) == (perm, inv != 0, set0 != 0));
            assert(t1.inverted(q as int) == (data_inv != 0));
            if !first {
                let c = self.cnt_placed_duplicate_permute as int;
                assert(q == self.shape.dup_end() - c);
                assert(t1.gather(self.shape.dup_gather_end() - c) == (origpos as u16, false, false));
            }
            lemma_placed_one(s0, *self, id as int, q);
        }
        Ok(q as u16)
    }
}

/// Nothing is placed at first.
proof fn lemma_none_placed(acts: Activations)
    requires
        acts.wf(),
        forall|i: int| 0 <= i < acts.pos@.len() ==> (#[trigger] acts.pos@[i]) is None,
    ensures
        count_flags(acts.further_placed()) == 0,
{
    let none = Seq::new(acts.list@.len(), |i: int| false);
    lemma_no_flags(none);
    lemma_flags_imply(acts.further_placed(), none);
}

proof fn lemma_no_flags(s: Seq<bool>)
    requires
        forall|i: int| 0 <= i < s.len() ==> !s[i],
    ensures
        count_flags(s) == 0,
    decreases s.len(),
{
    if s.len() > 0 {
        lemma_no_flags(s.drop_last());
        assert(!s[s.len() - 1]);
    }
}

/// As long as a further activation is not placed, there is room for its copy.
proof fn lemma_room_for_copy(acts: Activations, id: int)
    requires
        acts.wf(),
        0 <= id < acts.list@.len(),
        !acts.first@[id],
        acts.pos@[id] is None,
    ensures
        count_flags(acts.further_placed()) + 1 <= acts.dups,
{
    let more = acts.further_placed().update(id, true);
    lemma_flags_set(acts.further_placed(), id);
    lemma_flags_imply(more, acts.further());
}

/// The words of macros' state are few.
proof fn lemma_state_words(aig: AIG, staged: StagedAIG, endpoints: Seq<usize>)
    ensures
        count_words(aig, staged, endpoints).2 <= 2 * count_dsps(aig, staged, endpoints),
    decreases endpoints.len(),
{
    if endpoints.len() > 0 {
        lemma_state_words(aig, staged, endpoints.drop_last());
    }
}

/// Placing one activation keeps the others.
proof fn lemma_placed_one(a: FlatteningPart, b: FlatteningPart, id: int, q: usize)
    requires
        a.wf(),
        b.shape == a.shape,
        b.tables.wf(),
        b.comb_outputs_activations.ids == a.comb_outputs_activations.ids,
        b.comb_outputs_activations.pins == a.comb_outputs_activations.pins,
        b.comb_outputs_activations.list == a.comb_outputs_activations.list,
        b.comb_outputs_activations.first == a.comb_outputs_activations.first,
        b.comb_outputs_activations.dups == a.comb_outputs_activations.dups,
        b.comb_outputs_activations.pos@ == a.comb_outputs_activations.pos@.update(id, Some(q as u16)),
        0 <= id < a.comb_outputs_activations.list@.len(),
        a.comb_outputs_activations.pos@[id] is None,
        q < 8192,
        b.cnt_placed_duplicate_permute == a.cnt_placed_duplicate_permute + (if a.comb_outputs_activations.first@[id] {
            0int
        } else {
            1int
        }),
        b.cnt_placed_duplicate_permute <= 32 * a.shape.num_duplicate_writeouts,
        act_placed(
            b.shape,
            b.cnt_placed_duplicate_permute as int,
            b.tables,
            b.comb_outputs_activations.first@[id],
            b.comb_outputs_activations.list@[id],
            q as u16,
        ),
        a.comb_outputs_activations.first@[id] ==> q == a.shape.pins()[a.comb_outputs_activations.list@[id].0]
            && b.tables.gathers_kept(a.tables, 0, 0),
        !a.comb_outputs_activations.first@[id] ==> q == a.shape.dup_end() - b.cnt_placed_duplicate_permute
            && b.tables.gathers_kept(
            a.tables,
            a.shape.dup_gather_end() - b.cnt_placed_duplicate_permute,
            a.shape.dup_gather_end() - b.cnt_placed_duplicate_permute + 1,
        ),
        b.tables.enables_kept(a.tables, q as int, q + 1),
    ensures
        b.wf(),
{
    let x = a.comb_outputs_activations;
    let y = b.comb_outputs_activations;
    a.shape.lemma_positions();
    assert(y.further() =~= x.further());
    if x.first@[id] {
        assert(y.further_placed() =~= x.further_placed());
    } else {
        assert(y.further_placed() =~= x.further_placed().update(id, true));
        lemma_flags_set(x.further_placed(), id);
    }
    assert forall|i: int| 0 <= i < x.list@.len() && i != id && x.pos@[i] is Some implies x.pos@[i].unwrap() != q
        && #[trigger] b.act_ok(i) by {
        assert(a.act_ok(i));
        let p = x.pos@[i].unwrap();
        if x.first@[i] {
            if x.first@[id] {
                if p == q {
                    let outs = a.shape.parts_after_writeouts@;
                    assert(outs[a.shape.pins()[x.list@[i].0] as int] == x.list@[i].0);
                    assert(outs[a.shape.pins()[x.list@[id].0] as int] == x.list@[id].0);
                    x.lemma_first(i, id);
                }
            }
        }
        assert(y.pos@[i] == x.pos@[i]);
        assert(b.tables.enable(p as int) == a.tables.enable(p as int));
        if !x.first@[i] {
            let g = a.shape.dup_gather_end() - (a.shape.dup_end() - p);
            assert(b.tables.gather(g) == a.tables.gather(g));
        }
    }
    assert forall|i: int| #[trigger] b.act_ok(i) by {
        if 0 <= i < y.list@.len() && i != id {
            if x.pos@[i] is Some {
                assert(b.act_ok(i));
            }
        }
    }
    assert forall|i: int, j: int| #[trigger] b.apart(i, j) by {
        assert(a.apart(i, j));
        if 0 <= i < j < y.list@.len() && y.pos@[i] is Some && y.pos@[j] is Some {
            if i == id {
                assert(y.pos@[j] == x.pos@[j]);
                assert(x.pos@[j] is Some);
                assert(b.act_ok(j));
                assert(x.pos@[j].unwrap() != q);
            } else if j == id {
                assert(y.pos@[i] == x.pos@[i]);
                assert(x.pos@[i] is Some);
                assert(b.act_ok(i));
                assert(x.pos@[i].unwrap() != q);
            }
        }
    }
    assert(y.wf());
}

} // verus!
