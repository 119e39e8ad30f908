//! What a machine does that runs the words of a script.

use super::bits::{bit_at, ones, ones_below};
use super::gates::stage_words;
use super::layout::stage_shaped;
use super::local::{is_bit, is_needed_bit, is_needed_word, local_of, ones_above, read_occupancy};
use super::part::FlatteningPart;
use super::phase::{phase_end, phase_start, phase_words};
use super::reads::{bits_taken, is_entry, is_read};
use super::run::{
    all_evaluate, bits_after_phase, bits_read, bits_written, law_partition_computes, law_pins_are_written,
    law_written_bits_hold, lemma_lane_at, state_holds, words_out,
};
use super::script::{
    all_codes, body_fine, codes_section, lemma_codes_len, metadata, num_rounds, occupied_after, out_code,
    positions_after, reads_section, script_body, script_ok, script_tail, start_ok, whole_script,
};
use super::semantics::{bits_after, lemma_stage_words_len, outs_hold};
use super::stages::part_flat;
use crate::aig::{respects_gates, AIG};
use crate::macros::MACRO_MAX_LANES;
use crate::pe::grid::shaped;
use crate::pe::partition::{MacroStage, Partition};
use crate::pe::rounds::count_write_outs;
use crate::pe::stage::BoomerangStage;
use crate::staging::StagedAIG;
use vstd::prelude::*;

verus! {

/// The bits of a word that a mask selects among the lowest `n`, the highest first.
pub open spec fn masked_bits(word: u32, mask: u32, n: nat) -> Seq<bool>
    decreases n,
{
    if n == 0 {
        Seq::empty()
    } else {
        let rest = masked_bits(word, mask, (n - 1) as nat);
        if bit_at(mask, (n - 1) as u32) {
            seq![bit_at(word, (n - 1) as u32)] + rest
        } else {
            rest
        }
    }
}

/// The bits that thread `t` has read in the first `r` rounds, the latest first. In
/// each round, every thread reads a word of the state and keeps the bits that a mask
/// selects; the words of a round are the index and the mask of each thread.
pub open spec fn thread_bits(script: Seq<u32>, state: spec_fn(u32) -> u32, t: int, r: nat) -> Seq<bool>
    decreases r,
{
    if r == 0 {
        Seq::empty()
    } else {
        let at = 256 + 512 * (r - 1) + 2 * t;
        masked_bits(state(script[at]), script[at + 1], 32) + thread_bits(script, state, t, (r - 1) as nat)
    }
}

/// The bits that a script begins with: 32 for each thread. Word 6 is the number of
/// rounds.
pub open spec fn bits_at_first(script: Seq<u32>, state: spec_fn(u32) -> u32) -> Seq<bool> {
    Seq::new(
        8192,
        |p: int|
            {
                let bits = thread_bits(script, state, p / 32, script[6] as nat);
                if p % 32 < bits.len() {
                    bits[p % 32]
                } else {
                    false
                }
            },
    )
}

proof fn lemma_masked_bits(word: u32, mask: u32, n: nat, k: u32)
    requires
        n <= 32,
    ensures
        masked_bits(word, mask, n).len() == ones_below(mask, n),
        k < n && bit_at(mask, k) ==> 0 <= ones_below(mask, n) - ones_below(mask, (k + 1) as nat) < ones_below(mask, n)
            && masked_bits(word, mask, n)[ones_below(mask, n) - ones_below(mask, (k + 1) as nat)] == bit_at(word, k),
    decreases n,
{
    if n > 0 {
        lemma_masked_bits(word, mask, (n - 1) as nat, k);
        if k < n && bit_at(mask, k) {
            assert(ones_below(mask, (k + 1) as nat) == ones_below(mask, k as nat) + 1);
        }
    }
}

/// The words of the rounds are found in the script.
spec fn rounds_found(script: Seq<u32>, rounds: Seq<Vec<(u32, u32)>>) -> bool {
    &&& rounds.len() == 256
    &&& forall|t: int, l: int|
        #![trigger is_entry(rounds, t, l)]
        is_entry(rounds, t, l) ==> l < script[6] && script[256 + 512 * l + 2 * t] == rounds[t]@[l].0 && script[256 + 512
            * l + 2 * t + 1] == rounds[t]@[l].1
    &&& forall|t: int, l: int|
        #![trigger is_entry(rounds, t, l)]
        0 <= t < 256 && 0 <= l < script[6] && !is_entry(rounds, t, l) ==> script[256 + 512 * l + 2 * t + 1] == 0
}

proof fn lemma_thread_bits(
    script: Seq<u32>,
    state: spec_fn(u32) -> u32,
    rounds: Seq<Vec<(u32, u32)>>,
    t: int,
    r: nat,
    l: int,
    k: u32,
)
    requires
        rounds_found(script, rounds),
        0 <= t < 256,
        r <= script[6],
    ensures
        ({
            let v = rounds[t]@;
            let n = if r <= v.len() {
                r as int
            } else {
                v.len() as int
            };
            let bits = thread_bits(script, state, t, r);
            &&& bits.len() == bits_taken(v.take(n))
            &&& l < n && is_bit(rounds, t, l, k) ==> {
                let at = bits_taken(v.subrange(l + 1, n)) + ones_above(v[l].1, k as int);
                0 <= at < bits.len() && bits[at] == bit_at(state(v[l].0), k)
            }
        }),
    decreases r,
{
    let v = rounds[t]@;
    if r == 0 {
        assert(v.take(0) =~= Seq::<(u32, u32)>::empty());
    } else {
        lemma_thread_bits(script, state, rounds, t, (r - 1) as nat, l, k);
        let at = 256 + 512 * (r - 1) + 2 * t;
        let first = masked_bits(state(script[at]), script[at + 1], 32);
        let rest = thread_bits(script, state, t, (r - 1) as nat);
        lemma_masked_bits(state(script[at]), script[at + 1], 32, k);
        if r <= v.len() {
            let n = r as int;
            assert(is_entry(rounds, t, r - 1));
            assert(v.take(n).drop_last() =~= v.take(n - 1));
            assert(v.take(n).last() == v[n - 1]);
            if l < n && is_bit(rounds, t, l, k) {
                if l == n - 1 {
                    assert(v.subrange(l + 1, n) =~= Seq::<(u32, u32)>::empty());
                } else {
                    assert(v.subrange(l + 1, n).drop_last() =~= v.subrange(l + 1, n - 1));
                    assert(v.subrange(l + 1, n).last() == v[n - 1]);
                }
            }
        } else {
            assert(!is_entry(rounds, t, r - 1));
            assert(script[at + 1] == 0);
            lemma_no_ones(32);
            assert(first =~= Seq::<bool>::empty());
            assert(first + rest =~= rest);
            assert(v.take(v.len() as int) =~= v);
        }
    }
}

proof fn lemma_no_ones(n: nat)
    requires
        n <= 32,
    ensures
        ones_below(0, n) == 0,
    decreases n,
{
    if n > 0 {
        lemma_no_ones((n - 1) as nat);
        let k = (n - 1) as u32;
        assert(k < 32 ==> (0u32 >> k) & 1 == 0) by (bit_vector);
    }
}

/// What the threads read is where the script expects it.
proof fn lemma_bits_at_first(script: Seq<u32>, state: spec_fn(u32) -> u32, rounds: Seq<Vec<(u32, u32)>>)
    requires
        rounds_found(script, rounds),
        forall|t: int| 0 <= t < 256 ==> bits_taken((#[trigger] rounds[t])@) <= 32,
    ensures
        bits_read(rounds, state, bits_at_first(script, state)),
{
    let local = bits_at_first(script, state);
    assert forall|t: int, l: int, k: u32| #[trigger] is_bit(rounds, t, l, k) implies local[local_of(
        rounds,
        t,
        l,
        k as int,
    )] == bit_at(state(rounds[t]@[l].0), k) by {
        let v = rounds[t]@;
        assert(is_entry(rounds, t, v.len() - 1));
        lemma_thread_bits(script, state, rounds, t, script[6] as nat, l, k);
        super::local::lemma_local_range(rounds, t, l, k);
        let p = local_of(rounds, t, l, k as int);
        assert(p / 32 == t && p % 32 == p - 32 * t);
        assert(v.take(v.len() as int) =~= v);
    }
}

/// What slot `i` of the write-outs takes: the number of a stage times 256 and the
/// number of a word that the stage leaves. The slots come two to a word behind the
/// first 128 words.
pub open spec fn slot_code(script: Seq<u32>, i: int) -> int {
    let w = script[128 + i / 2] as int;
    if i % 2 == 0 {
        w % 0x1_0000
    } else {
        w / 0x1_0000
    }
}

/// What is written out once stage `b` has left the given bits.
pub open spec fn written_after(script: Seq<u32>, b: int, bits: Seq<bool>, out: Seq<bool>) -> Seq<bool> {
    Seq::new(
        8192,
        |q: int|
            if slot_code(script, q / 32) / 256 == b {
                bits[32 * (slot_code(script, q / 32) % 256) + q % 32]
            } else {
                out[q]
            },
    )
}

/// What is written out once the words from `at` on have run, which begin with stage
/// `b` or phase `ph`. Word 0 is the number of stages, and word 8 that of phases. The
/// upper half of word `11 + ph` is the stage before which phase `ph` runs; phases
/// that are left run at last. Lane `l` of phase `ph` computes `outs(ph, l, s)` for its
/// output `s`.
pub open spec fn run_words(
    script: Seq<u32>,
    at: int,
    b: nat,
    ph: nat,
    local: Seq<bool>,
    outs: spec_fn(int, int, int) -> bool,
    out: Seq<bool>,
) -> Seq<bool>
    decreases script[0] - b, script[8] - ph,
{
    if ph < script[8] && (b >= script[0] || script[11 + ph as int] / 0x1_0000 == b) {
        let next = bits_after_phase(script.subrange(at, at + 384), local, |l: int, s: int| outs(ph as int, l, s));
        run_words(script, at + 384, b, ph + 1, next, outs, out)
    } else if b < script[0] {
        let next = bits_after(script.subrange(at, at + 5120), local);
        run_words(script, at + 5120, b + 1, ph, next, outs, written_after(script, b as int, next, out))
    } else {
        out
    }
}

/// What a script writes out when it runs on a state.
pub open spec fn bits_of_run(
    script: Seq<u32>,
    state: spec_fn(u32) -> u32,
    outs: spec_fn(int, int, int) -> bool,
) -> Seq<bool> {
    run_words(
        script,
        256 + 512 * script[6],
        0,
        0,
        bits_at_first(script, state),
        outs,
        Seq::new(8192, |q: int| false),
    )
}

/// Do the slots of the write-outs take what the stages write out, in their order?
spec fn codes_found(script: Seq<u32>, stages: Seq<BoomerangStage>) -> bool {
    &&& count_write_outs(stages) <= 256
    &&& forall|b: int, j: int|
        #![trigger stages[b].write_outs@[j]]
        0 <= b < stages.len() && 0 <= j < stages[b].write_outs@.len() ==> slot_code(
            script,
            count_write_outs(stages.take(b)) + j,
        ) == 256 * b + stages[b].write_outs@[j]
    &&& forall|i: int| count_write_outs(stages) <= i < 256 ==> #[trigger] slot_code(script, i) == 0xffff
}

/// Are the phases found in the header?
spec fn header_found(script: Seq<u32>, stages: Seq<BoomerangStage>, phases: Seq<MacroStage>) -> bool {
    &&& script[0] == stages.len()
    &&& script[8] == phases.len()
    &&& forall|i: int|
        0 <= i < phases.len() ==> script[11 + i] / 0x1_0000 == (#[trigger] phases[i]).after_stage
}

proof fn lemma_count_take(stages: Seq<BoomerangStage>, b: int)
    requires
        0 <= b < stages.len(),
    ensures
        count_write_outs(stages.take(b + 1)) == count_write_outs(stages.take(b)) + stages[b].write_outs@.len(),
        count_write_outs(stages.take(b + 1)) <= count_write_outs(stages),
    decreases stages.len() - b,
{
    assert(stages.take(b + 1).drop_last() =~= stages.take(b));
    assert(stages.take(b + 1).last() == stages[b]);
    if b + 1 < stages.len() {
        lemma_count_take(stages, b + 1);
    } else {
        assert(stages.take(b + 1) =~= stages);
    }
}

/// The stage that a slot belongs to.
proof fn lemma_slot_stage(stages: Seq<BoomerangStage>, n: int, i: int) -> (place: (int, int))
    requires
        0 <= n <= stages.len(),
        0 <= i < count_write_outs(stages.take(n)),
    ensures
        0 <= place.0 < n,
        0 <= place.1 < stages[place.0].write_outs@.len(),
        i == count_write_outs(stages.take(place.0)) + place.1,
    decreases n,
{
    if n > 0 {
        lemma_count_take(stages, n - 1);
        if i < count_write_outs(stages.take(n - 1)) {
            lemma_slot_stage(stages, n - 1, i)
        } else {
            (n - 1, i - count_write_outs(stages.take(n - 1)))
        }
    } else {
        assert(stages.take(0) =~= Seq::<BoomerangStage>::empty());
        (0, 0)
    }
}

proof fn lemma_words_out(stage: BoomerangStage, n: nat, bits: Seq<bool>, q: int)
    requires
        stage_shaped(stage),
        n <= stage.write_outs@.len(),
        bits.len() == 8192,
    ensures
        words_out(stage, n, bits).len() == 32 * n,
        0 <= q < 32 * n ==> words_out(stage, n, bits)[q] == bits[32 * stage.write_outs@[q / 32] + q % 32],
    decreases n,
{
    if n > 0 {
        lemma_words_out(stage, (n - 1) as nat, bits, q);
        let w = stage.write_outs@[n - 1] as int;
        assert(w < 256);
        if 32 * (n - 1) <= q < 32 * n {
            assert(q / 32 == n - 1);
            assert(q - 32 * (n - 1) == q % 32);
        }
    }
}

/// Running a stage writes out the words of the stage, behind those of the stages
/// before it.
proof fn lemma_written_after(
    script: Seq<u32>,
    stages: Seq<BoomerangStage>,
    b: int,
    bits: Seq<bool>,
    out: Seq<bool>,
    before: Seq<bool>,
)
    requires
        codes_found(script, stages),
        stages.len() <= 255,
        0 <= b < stages.len(),
        forall|k: int| 0 <= k < stages.len() ==> stage_shaped(#[trigger] stages[k]),
        bits.len() == 8192,
        out.len() == 8192,
        before.len() == 32 * count_write_outs(stages.take(b)),
        forall|q: int| 0 <= q < before.len() ==> #[trigger] out[q] == before[q],
    ensures
        ({
            let all = before + words_out(stages[b], stages[b].write_outs@.len(), bits);
            let next = written_after(script, b, bits, out);
            &&& all.len() == 32 * count_write_outs(stages.take(b + 1))
            &&& next.len() == 8192
            &&& forall|q: int| 0 <= q < all.len() ==> #[trigger] next[q] == all[q]
        }),
{
    let stage = stages[b];
    let n = stage.write_outs@.len();
    let more = words_out(stage, n, bits);
    let all = before + more;
    let next = written_after(script, b, bits, out);
    let start = count_write_outs(stages.take(b)) as int;
    assert(stage_shaped(stages[b]));
    lemma_count_take(stages, b);
    lemma_words_out(stage, n, bits, 0);
    assert forall|q: int| 0 <= q < all.len() implies #[trigger] next[q] == all[q] by {
        let i = q / 32;
        if q < before.len() {
            let (c, j) = lemma_slot_stage(stages, b, i);
            assert(stage_shaped(stages[c]));
            let w = stages[c].write_outs@[j];
            assert(slot_code(script, i) == 256 * c + w);
            assert(slot_code(script, i) / 256 == c);
            assert(out[q] == before[q]);
        } else {
            let j = i - start;
            let x = q - before.len();
            assert(x / 32 == j && x % 32 == q % 32);
            lemma_words_out(stage, n, bits, x);
            let w = stages[b].write_outs@[j];
            assert(w < 256);
            assert(slot_code(script, start + j) == 256 * b + w);
            assert(slot_code(script, i) / 256 == b && slot_code(script, i) % 256 == w);
        }
    }
}

/// Running the words of the sections writes out what the sections do.
proof fn lemma_run_words(
    aig: AIG,
    script: Seq<u32>,
    stages: Seq<BoomerangStage>,
    phases: Seq<MacroStage>,
    off: Map<usize, u32>,
    at: int,
    b: nat,
    ph: nat,
    pos: Map<usize, usize>,
    occ: Seq<bool>,
    local: Seq<bool>,
    outs: spec_fn(int, int, int) -> bool,
    out: Seq<bool>,
    before: Seq<bool>,
)
    requires
        header_found(script, stages, phases),
        codes_found(script, stages),
        stages.len() <= 255,
        forall|k: int| 0 <= k < stages.len() ==> stage_shaped(#[trigger] stages[k]),
        0 <= at,
        ({
            let body = script_body(aig, stages, phases, off, b, ph, pos, occ);
            at + body.len() <= script.len() && script.subrange(at, at + body.len()) == body
        }),
        b <= stages.len(),
        ph <= phases.len(),
        out.len() == 8192,
        before.len() == 32 * count_write_outs(stages.take(b as int)),
        forall|q: int| 0 <= q < before.len() ==> #[trigger] out[q] == before[q],
    ensures
        ({
            let body = script_body(aig, stages, phases, off, b, ph, pos, occ);
            let all = bits_written(stages, phases, b, ph, body, local, outs, before);
            let run = run_words(script, at, b, ph, local, outs, out);
            &&& all.len() == 32 * count_write_outs(stages)
            &&& run.len() == 8192
            &&& forall|q: int| 0 <= q < all.len() ==> #[trigger] run[q] == all[q]
        }),
    decreases stages.len() - b, phases.len() - ph,
{
    let body = script_body(aig, stages, phases, off, b, ph, pos, occ);
    if ph < phases.len() && (b >= stages.len() || phases[ph as int].after_stage == b) {
        let lanes = phases[ph as int].lanes@;
        let words = phase_words(aig, lanes, off, pos, occ);
        let end = phase_end(aig, lanes, pos, occ);
        let rest = script_body(aig, stages, phases, off, b, ph + 1, end.next, end.occ);
        lemma_lane_at(aig, lanes, MACRO_MAX_LANES as nat, off, pos, phase_start(occ, pos), 0);
        assert(words.len() == 384);
        assert(body.take(384) =~= words);
        assert(body.skip(384) =~= rest);
        assert(script.subrange(at, at + 384) =~= words) by {
            assert(script.subrange(at, at + 384) =~= script.subrange(at, at + body.len()).take(384));
        }
        assert(script.subrange(at + 384, at + 384 + rest.len()) =~= rest) by {
            assert(script.subrange(at + 384, at + 384 + rest.len()) =~= script.subrange(at, at + body.len()).skip(384));
        }
        let next = bits_after_phase(words, local, |l: int, s: int| outs(ph as int, l, s));
        assert(script[11 + ph as int] / 0x1_0000 == phases[ph as int].after_stage);
        lemma_run_words(aig, script, stages, phases, off, at + 384, b, ph + 1, end.next, end.occ, next, outs, out,
            before);
    } else if b < stages.len() {
        let hier = stages[b as int].hier@;
        let words = stage_words(aig, hier, pos);
        let rest = script_body(aig, stages, phases, off, b + 1, ph, positions_after(hier), occupied_after(hier));
        lemma_stage_words_len(aig, hier, pos);
        assert(body.take(5120) =~= words);
        assert(body.skip(5120) =~= rest);
        assert(script.subrange(at, at + 5120) =~= words) by {
            assert(script.subrange(at, at + 5120) =~= script.subrange(at, at + body.len()).take(5120));
        }
        assert(script.subrange(at + 5120, at + 5120 + rest.len()) =~= rest) by {
            assert(script.subrange(at + 5120, at + 5120 + rest.len()) =~= script.subrange(at, at + body.len()).skip(
                5120,
            ));
        }
        let next = bits_after(words, local);
        let stage = stages[b as int];
        let more = words_out(stage, stage.write_outs@.len(), next);
        if ph < phases.len() {
            assert(script[11 + ph as int] / 0x1_0000 == phases[ph as int].after_stage);
        }
        lemma_written_after(script, stages, b as int, next, out, before);
        lemma_run_words(
            aig,
            script,
            stages,
            phases,
            off,
            at + 5120,
            b + 1,
            ph,
            positions_after(hier),
            occupied_after(hier),
            next,
            outs,
            written_after(script, b as int, next, out),
            before + more,
        );
    } else {
        assert(stages.take(b as int) =~= stages);
    }
}

/// Does a machine find its way through the partition? It counts up to 255 stages, and
/// every phase runs before one of them or at last, with up to 32 lanes.
pub open spec fn is_runnable(part: Partition) -> bool {
    &&& 1 <= part.stages@.len() <= 255
    &&& forall|i: int|
        0 <= i < part.macro_stages@.len() ==> (#[trigger] part.macro_stages@[i]).after_stage <= part.stages@.len()
            && part.macro_stages@[i].lanes@.len() <= 32
}

proof fn lemma_codes_at(stages: Seq<BoomerangStage>, b: int, j: int)
    requires
        0 <= b < stages.len(),
        0 <= j < stages[b].write_outs@.len(),
    ensures
        all_codes(stages).len() == count_write_outs(stages),
        count_write_outs(stages.take(b)) + j < count_write_outs(stages),
        all_codes(stages)[count_write_outs(stages.take(b)) + j] == out_code(b, stages[b].write_outs@[j]),
    decreases stages.len(),
{
    let rest = stages.drop_last();
    lemma_codes_len(stages);
    lemma_codes_len(rest);
    if b < stages.len() - 1 {
        lemma_codes_at(rest, b, j);
        assert(rest.take(b) =~= stages.take(b));
        assert(rest[b] == stages[b]);
    } else {
        assert(stages.take(b) =~= rest);
    }
}

/// The slots of the write-outs are found.
proof fn lemma_codes_found(script: Seq<u32>, stages: Seq<BoomerangStage>)
    requires
        script.len() >= 256,
        script.subrange(128, 256) == codes_section(all_codes(stages)),
        count_write_outs(stages) <= 256,
        stages.len() <= 255,
        forall|k: int| 0 <= k < stages.len() ==> stage_shaped(#[trigger] stages[k]),
    ensures
        codes_found(script, stages),
{
    let codes = all_codes(stages);
    let section = script.subrange(128, 256);
    lemma_codes_len(stages);
    assert forall|b: int, j: int|
        #![trigger stages[b].write_outs@[j]]
        0 <= b < stages.len() && 0 <= j < stages[b].write_outs@.len() implies slot_code(
        script,
        count_write_outs(stages.take(b)) + j,
    ) == 256 * b + stages[b].write_outs@[j] by {
        let i = count_write_outs(stages.take(b)) + j;
        lemma_codes_at(stages, b, j);
        assert(stage_shaped(stages[b]));
        lemma_code(b, stages[b].write_outs@[j]);
        lemma_slot(script, stages, i);
    }
    assert forall|i: int| count_write_outs(stages) <= i < 256 implies #[trigger] slot_code(script, i) == 0xffff by {
        lemma_slot(script, stages, i);
    }
}

/// The parts of a code.
proof fn lemma_code(b: int, w: usize)
    requires
        0 <= b <= 255,
        w < 256,
    ensures
        out_code(b, w) == 256 * b + w,
{
    let x = b as u32;
    let y = w as u32;
    assert((x << 8) | y == 256 * x + y) by (bit_vector)
        requires
            x <= 255,
            y <= 255,
    ;
}

/// A slot of the write-outs.
proof fn lemma_slot(script: Seq<u32>, stages: Seq<BoomerangStage>, i: int)
    requires
        script.len() >= 256,
        script.subrange(128, 256) == codes_section(all_codes(stages)),
        count_write_outs(stages) <= 256,
        stages.len() <= 255,
        forall|k: int| 0 <= k < stages.len() ==> stage_shaped(#[trigger] stages[k]),
        0 <= i < 256,
    ensures
        slot_code(script, i) == (if i < count_write_outs(stages) {
            all_codes(stages)[i] as int
        } else {
            0xffff
        }),
{
    let codes = all_codes(stages);
    let section = script.subrange(128, 256);
    lemma_codes_len(stages);
    let w = i / 2;
    assert(section[w] == script[128 + w]);
    let lo = codes[2 * w];
    let hi = codes[2 * w + 1];
    if 2 * w + 1 < codes.len() {
        lemma_code_small(stages, 2 * w);
        lemma_code_small(stages, 2 * w + 1);
        assert((lo | (hi << 16)) % 0x1_0000 == lo && (lo | (hi << 16)) / 0x1_0000 == hi) by (bit_vector)
            requires
                lo < 0x1_0000,
                hi < 0x1_0000,
        ;
    } else if 2 * w < codes.len() {
        lemma_code_small(stages, 2 * w);
        assert((lo | 0xffff_0000u32) % 0x1_0000 == lo && (lo | 0xffff_0000u32) / 0x1_0000 == 0xffff) by (bit_vector)
            requires
                lo < 0x1_0000,
        ;
    }
}

/// A code takes half a word.
proof fn lemma_code_small(stages: Seq<BoomerangStage>, i: int)
    requires
        stages.len() <= 255,
        forall|k: int| 0 <= k < stages.len() ==> stage_shaped(#[trigger] stages[k]),
        0 <= i < count_write_outs(stages),
    ensures
        all_codes(stages)[i] < 0x1_0000,
{
    assert(stages.take(stages.len() as int) =~= stages);
    let (b, j) = lemma_slot_stage(stages, stages.len() as int, i);
    lemma_codes_at(stages, b, j);
    assert(stage_shaped(stages[b]));
    lemma_code(b, stages[b].write_outs@[j]);
}

/// Every entry of a thread has a bit, so that there are no more than 32.
proof fn lemma_few_rounds(v: Seq<(u32, u32)>)
    requires
        forall|l: int| 0 <= l < v.len() ==> ones((#[trigger] v[l]).1) >= 1,
    ensures
        v.len() <= bits_taken(v),
    decreases v.len(),
{
    if v.len() > 0 {
        lemma_few_rounds(v.drop_last());
        assert(ones(v[v.len() - 1].1) >= 1);
    }
}

proof fn lemma_entry_has_bit(
    aig: AIG,
    part: Partition,
    im: Map<usize, u32>,
    sm: Map<usize, u32>,
    taken: Seq<(u32, u32)>,
    rounds: Seq<Vec<(u32, u32)>>,
    pos: Map<usize, usize>,
    t: int,
)
    requires
        start_ok(aig, part, im, sm, taken, rounds, pos),
        0 <= t < 256,
    ensures
        rounds[t]@.len() <= 32,
{
    let row = part.stages@[0].hier@[0]@;
    let v = rounds[t]@;
    assert forall|l: int| 0 <= l < v.len() implies ones((#[trigger] v[l]).1) >= 1 by {
        let e = v[l];
        assert(rounds[t]@.contains(e));
        assert(is_read(rounds, e));
        assert(taken.contains(e));
        let i = taken.index_of(e);
        assert(is_needed_word(aig, row, im, sm, taken[i].0));
        let k = choose|k: u32| k < 32 && #[trigger] is_needed_bit(aig, row, im, sm, taken[i].0, k);
        assert(bit_at(taken[i].1, k));
        lemma_masked_bits(0, e.1, 32, k);
    }
    lemma_few_rounds(v);
    assert(bits_taken(rounds[t]@) <= 32);
}

proof fn lemma_rounds_bound(rounds: Seq<Vec<(u32, u32)>>, n: nat, t: int)
    requires
        n <= rounds.len(),
        forall|t: int| 0 <= t < n ==> (#[trigger] rounds[t])@.len() <= 32,
    ensures
        num_rounds(rounds, n) <= 32,
        0 <= t < n ==> rounds[t]@.len() <= num_rounds(rounds, n),
    decreases n,
{
    if n > 0 {
        lemma_rounds_bound(rounds, (n - 1) as nat, t);
        assert(rounds[n - 1]@.len() <= 32);
    }
}

/// The sections of a script are found by the words of its header.
proof fn lemma_sections(
    aig: AIG,
    p: FlatteningPart,
    part: Partition,
    im: Map<usize, u32>,
    sm: Map<usize, u32>,
    off: Map<usize, u32>,
    script: Seq<u32>,
) -> (r: (Seq<(u32, u32)>, Seq<Vec<(u32, u32)>>, Map<usize, usize>))
    requires
        script_ok(aig, p, part, im, sm, off, script),
        is_runnable(part),
        part.macro_stages@.len() <= 117,
        forall|k: int| 0 <= k < part.stages@.len() ==> stage_shaped(#[trigger] part.stages@[k]),
        count_write_outs(part.stages@) <= 256,
    ensures
        ({
            let (taken, rounds, pos) = r;
            let body = script_body(aig, part.stages@, part.macro_stages@, off, 0, 0, pos, read_occupancy(rounds));
            let at = 256 + 512 * script[6];
            &&& start_ok(aig, part, im, sm, taken, rounds, pos)
            &&& body_fine(aig, part.stages@, part.macro_stages@, 0, 0, pos, read_occupancy(rounds))
            &&& header_found(script, part.stages@, part.macro_stages@)
            &&& codes_found(script, part.stages@)
            &&& rounds_found(script, rounds)
            &&& at + body.len() <= script.len()
            &&& script.subrange(at, at + body.len()) == body
        }),
{
    let (taken, rounds, pos) = choose|
        taken: Seq<(u32, u32)>,
        rounds: Seq<Vec<(u32, u32)>>,
        pos: Map<usize, usize>,
    | #[trigger]
        start_ok(aig, part, im, sm, taken, rounds, pos) && script == whole_script(aig, p, part, off, rounds, pos)
            && body_fine(aig, part.stages@, part.macro_stages@, 0, 0, pos, read_occupancy(rounds));
    let n = num_rounds(rounds, 256);
    let head = metadata(p, part, off, n as u32);
    let codes = codes_section(all_codes(part.stages@));
    let reads = reads_section(rounds, n);
    let body = script_body(aig, part.stages@, part.macro_stages@, off, 0, 0, pos, read_occupancy(rounds));
    let tail = script_tail(p);
    assert(script == head + codes + reads + body + tail);
    assert forall|t: int| 0 <= t < 256 implies (#[trigger] rounds[t])@.len() <= 32 by {
        lemma_entry_has_bit(aig, part, im, sm, taken, rounds, pos, t);
    }
    lemma_rounds_bound(rounds, 256, 0);
    assert(script.subrange(0, 128) =~= head);
    assert(script.subrange(128, 256) =~= codes);
    assert(head[6] == script[6] && head[0] == script[0] && head[8] == script[8]);
    let at = 256 + 512 * n as int;
    assert(script.subrange(256, at) =~= reads);
    assert(script.subrange(at, at + body.len()) =~= body);
    lemma_codes_found(script, part.stages@);
    lemma_header_found(p, part, off, script, n as u32);
    lemma_rounds_found(script, rounds);
    (taken, rounds, pos)
}

proof fn lemma_header_found(
    p: FlatteningPart,
    part: Partition,
    off: Map<usize, u32>,
    script: Seq<u32>,
    rounds: u32,
)
    requires
        script.len() >= 256,
        script.subrange(0, 128) == metadata(p, part, off, rounds),
        is_runnable(part),
        part.macro_stages@.len() <= 117,
    ensures
        header_found(script, part.stages@, part.macro_stages@),
{
    let head = script.subrange(0, 128);
    assert(head[0] == script[0] && head[8] == script[8]);
    assert forall|i: int| 0 <= i < part.macro_stages@.len() implies script[11 + i] / 0x1_0000 == (
    #[trigger] part.macro_stages@[i]).after_stage by {
        let ms = part.macro_stages@[i];
        assert(head[11 + i] == script[11 + i]);
        let x = ms.after_stage as u32;
        let y = ms.lanes@.len() as u32;
        assert(script[11 + i] == (x << 16) | y);
        assert(((x << 16) | y) / 0x1_0000 == x) by (bit_vector)
            requires
                x <= 255,
                y <= 32,
        ;
    }
}

proof fn lemma_rounds_found(script: Seq<u32>, rounds: Seq<Vec<(u32, u32)>>)
    requires
        rounds.len() == 256,
        forall|t: int| 0 <= t < 256 ==> (#[trigger] rounds[t])@.len() <= 32,
        script[6] == num_rounds(rounds, 256),
        256 + 512 * script[6] <= script.len(),
        script.subrange(256, 256 + 512 * script[6]) == reads_section(rounds, num_rounds(rounds, 256)),
    ensures
        rounds_found(script, rounds),
{
    let n = num_rounds(rounds, 256);
    let reads = script.subrange(256, 256 + 512 * script[6]);
    assert forall|t: int, l: int|
        #![trigger is_entry(rounds, t, l)]
        0 <= t < 256 && 0 <= l < script[6] implies script[256 + 512 * l + 2 * t] == (if is_entry(rounds, t, l) {
        rounds[t]@[l].0
    } else {
        0
    }) && script[256 + 512 * l + 2 * t + 1] == (if is_entry(rounds, t, l) {
        rounds[t]@[l].1
    } else {
        0
    }) by {
        let w = 512 * l + 2 * t;
        assert(0 <= w && w + 1 < 512 * n);
        assert(w / 512 == l && w % 512 == 2 * t && w % 512 / 2 == t && w % 2 == 0);
        assert((w + 1) / 512 == l && (w + 1) % 512 == 2 * t + 1 && (w + 1) % 512 / 2 == t && (w + 1) % 2 == 1);
        assert(reads[w] == script[256 + w]);
        assert(reads[w + 1] == script[256 + w + 1]);
    }
    assert forall|t: int, l: int| #[trigger] is_entry(rounds, t, l) implies l < script[6] by {
        lemma_rounds_bound(rounds, 256, t);
    }
}

/// Scripts compute. Where the state holds the values of the pins that a partition
/// reads, and the lanes of its phases compute the outputs of their macros, the machine
/// that runs the words of its script writes out the values of the pins that the
/// partition writes out.
pub proof fn law_scripts_compute(
    aig: AIG,
    staged: StagedAIG,
    p: FlatteningPart,
    part: Partition,
    im: Map<usize, u32>,
    sm: Map<usize, u32>,
    off: Map<usize, u32>,
    script: Seq<u32>,
    state: spec_fn(u32) -> u32,
    outs: spec_fn(int, int, int) -> bool,
    val: spec_fn(usize) -> bool,
)
    requires
        script_ok(aig, p, part, im, sm, off, script),
        part_flat(aig, staged, part, p),
        is_runnable(part),
        part.macro_stages@.len() <= 117,
        respects_gates(aig, val),
        !val(0),
        state_holds(aig, part, im, sm, state, val),
        all_evaluate(aig, part.macro_stages@, outs, val),
    ensures
        outs_hold(bits_of_run(script, state, outs), p.shape.pins(), val),
{
    let stages = part.stages@;
    let phases = part.macro_stages@;
    let (taken, rounds, pos) = lemma_sections(aig, p, part, im, sm, off, script);
    let occ = read_occupancy(rounds);
    let body = script_body(aig, stages, phases, off, 0, 0, pos, occ);
    let local = bits_at_first(script, state);
    let none = Seq::<bool>::empty();
    let out = Seq::new(8192, |q: int| false);
    lemma_bits_at_first(script, state, rounds);
    assert forall|k: int| 0 <= k < stages.len() implies shaped((#[trigger] stages[k]).hier@) by {
        assert(stage_shaped(stages[k]));
    }
    law_partition_computes(aig, part, im, sm, off, taken, rounds, pos, state, local, outs, val);
    assert(stages.take(0) =~= Seq::<BoomerangStage>::empty());
    law_written_bits_hold(aig, stages, phases, 0, 0, body, local, outs, val, none);
    lemma_run_words(
        aig,
        script,
        stages,
        phases,
        off,
        256 + 512 * script[6],
        0,
        0,
        pos,
        occ,
        local,
        outs,
        out,
        none,
    );
    let all = bits_written(stages, phases, 0, 0, body, local, outs, none);
    let run = bits_of_run(script, state, outs);
    assert(all.is_prefix_of(run)) by {
        assert(run.subrange(0, all.len() as int) =~= all);
    }
    law_pins_are_written(stages, p.shape.pins(), all, run, val);
}

} // verus!
