//! What scripts compute.

use super::bits::{bit_at, flag_at, has_flags, interleaved, packed, packed_index, pair_word, words_with};
use super::gates::{
    all_fed, eval_slot, inverts_first, inverts_second, law_flags_compute, lemma_row_of, passes_at, row_of, row_there,
    slot_fed, stage_flags, stage_perm, stage_words,
};
use super::layout::{after_stage, lemma_after_rows, slot_at};
use super::part::{act_placed, FlatteningPart};
use super::phase::{gathers_slot, input_code, inputs_there, lane_words, output_code, Claimed};
use super::script::{body_fine, is_last, last_position, occupied_after, positions_after, script_body};
use super::tables::{has_code, literal_code};
use crate::aig::{literal_value, respects_gates, AIG};
use crate::macros::{law_input_code_roundtrip, pin_of, MacroInst, MacroKind, MACRO_LANE_OUT_SLOTS};
use crate::pe::grid::{cell, is_slot, shaped, vacant, width};
use crate::pe::partition::MacroStage;
use crate::pe::stage::BoomerangStage;
use vstd::prelude::*;

verus! {

/// The half-word of a position, as its thread finds it: each thread has 16
/// words for its 32 positions, in four sweeps of four words.
pub open spec fn half_at(words: Seq<u32>, i: int) -> int {
    let w = words[(i % 32) / 8 * 1024 + i / 32 * 4 + (i % 8) / 2];
    if i % 2 == 0 {
        w as int % 0x1_0000
    } else {
        w as int / 0x1_0000
    }
}

/// Every thread finds the permutation of its positions.
pub proof fn law_permutations_are_found(perm: Seq<u16>, i: int)
    requires
        perm.len() == 8192,
        0 <= i < 8192,
    ensures
        half_at(packed(perm), i) == perm[i],
{
    let s = (i % 32) / 8;
    let t = i / 32;
    let k = (i % 8) / 2;
    let w = s * 1024 + t * 4 + k;
    assert(0 <= s < 4 && 0 <= t < 256 && 0 <= k < 4);
    assert(w % 1024 == t * 4 + k);
    assert((t * 4 + k) / 4 == t);
    assert(w / 1024 == s);
    assert(w % 4 == k);
    assert(packed_index(w) == t * 32 + s * 8 + k * 2);
    assert(t * 32 + s * 8 + k * 2 == i - i % 2);
    let a = perm[i - i % 2];
    let b = perm[i - i % 2 + 1];
    assert(packed(perm)[w] == pair_word(a, b));
}

/// The flag of a position in column `c`, as its thread finds it.
pub open spec fn column_flag(words: Seq<u32>, c: int, p: int) -> bool {
    bit_at(words[4 * (p / 32) + c], (p % 32) as u32)
}

/// Every thread finds the flags of its positions.
pub proof fn law_flags_are_found(a: Seq<u32>, b: Seq<u32>, c: Seq<u32>, p: int)
    requires
        a.len() == 256,
        b.len() == 256,
        c.len() == 256,
        0 <= p < 8192,
    ensures
        column_flag(interleaved(a, b, c), 0, p) == flag_at(a, p),
        column_flag(interleaved(a, b, c), 1, p) == flag_at(b, p),
        column_flag(interleaved(a, b, c), 2, p) == flag_at(c, p),
{
    let t = p / 32;
    assert(0 <= t < 256);
    assert((4 * t) / 4 == t && (4 * t) % 4 == 0);
    assert((4 * t + 1) / 4 == t && (4 * t + 1) % 4 == 1);
    assert((4 * t + 2) / 4 == t && (4 * t + 2) % 4 == 2);
}

/// There is a word with any given bits.
proof fn lemma_word_exists(pred: spec_fn(int) -> bool, base: int, n: u32) -> (w: u32)
    requires
        n <= 32,
    ensures
        forall|k: u32| k < n ==> #[trigger] bit_at(w, k) == pred(base + k),
        forall|k: u32| n <= k < 32 ==> !#[trigger] bit_at(w, k),
    decreases n,
{
    if n == 0 {
        assert forall|k: u32| k < 32 implies !#[trigger] bit_at(0u32, k) by {
            assert(k < 32 ==> (0u32 >> k) & 1 == 0) by (bit_vector);
        }
        0u32
    } else {
        let m = (n - 1) as u32;
        let v = lemma_word_exists(pred, base, m);
        if pred(base + m) {
            let w = v | (1u32 << m);
            assert forall|k: u32| k < 32 implies #[trigger] bit_at(w, k) == (k == m || bit_at(v, k)) by {
                assert(k < 32 && m < 32 ==> (((v | (1u32 << m)) >> k) & 1 == 1) == (k == m || (v >> k) & 1 == 1))
                    by (bit_vector);
            }
            w
        } else {
            v
        }
    }
}

proof fn lemma_words_exist(pred: spec_fn(int) -> bool, n: nat) -> (s: Seq<u32>)
    ensures
        s.len() == n,
        forall|t: int, k: u32| 0 <= t < n && k < 32 ==> #[trigger] bit_at(s[t], k) == pred(32 * t + k),
    decreases n,
{
    if n == 0 {
        Seq::empty()
    } else {
        let rest = lemma_words_exist(pred, (n - 1) as nat);
        let w = lemma_word_exists(pred, 32 * (n - 1), 32);
        let s = rest.push(w);
        assert forall|t: int, k: u32| 0 <= t < n && k < 32 implies #[trigger] bit_at(s[t], k) == pred(32 * t + k) by {
            if t < n - 1 {
                assert(s[t] == rest[t]);
                assert(bit_at(rest[t], k) == pred(32 * t + k));
            } else {
                assert(bit_at(w, k) == pred(32 * (n - 1) + k));
            }
        }
        s
    }
}

/// The words with given flags have them.
proof fn lemma_words_with_flags(pred: spec_fn(int) -> bool)
    ensures
        has_flags(words_with(pred), pred),
{
    let s = lemma_words_exist(pred, 256);
    assert forall|p: int| 0 <= p < 8192 implies #[trigger] flag_at(s, p) == pred(p) by {
        assert(bit_at(s[p / 32], (p % 32) as u32) == pred(32 * (p / 32) + (p % 32) as u32));
    }
    assert(has_flags(s, pred));
}

/// What a stage computes for a slot, given the words of the stage and the bits
/// that are there before it: the first row is gathered by the permutation, and
/// each further row is computed from the row before it.
pub open spec fn slot_value(words: Seq<u32>, local: Seq<bool>, h: int, j: int) -> bool
    decreases h,
{
    if h <= 0 {
        local[half_at(words.subrange(0, 4096), j)]
    } else {
        let flags = words.subrange(4096, 5120);
        let p = width(h) + j;
        eval_slot(
            slot_value(words, local, h - 1, j),
            slot_value(words, local, h - 1, j + width(h)),
            column_flag(flags, 0, p),
            column_flag(flags, 1, p),
            column_flag(flags, 2, p),
        )
    }
}

/// Do the bits at the given positions have the values of their pins?
pub open spec fn bits_hold(local: Seq<bool>, pos: Map<usize, usize>, val: spec_fn(usize) -> bool) -> bool {
    &&& local.len() == 8192
    &&& forall|pin: usize| #[trigger] pos.contains_key(pin) ==> pos[pin] < 8192 && local[pos[pin] as int] == val(pin)
}

/// A stage computes its pins: if the bits before it have the values of their
/// pins, what it computes for a slot is the value of the slot's pin.
pub proof fn law_stage_computes(
    aig: AIG,
    hier: Seq<Vec<usize>>,
    pos: Map<usize, usize>,
    local: Seq<bool>,
    val: spec_fn(usize) -> bool,
    h: int,
    j: int,
)
    requires
        shaped(hier),
        all_fed(aig, hier),
        row_there(hier[0]@, pos),
        respects_gates(aig, val),
        bits_hold(local, pos, val),
        is_slot(h, j),
        !vacant(hier, h, j),
    ensures
        slot_value(stage_words(aig, hier, pos), local, h, j) == val(cell(hier, h, j)),
    decreases h,
{
    let words = stage_words(aig, hier, pos);
    let perm = stage_perm(hier[0]@, pos);
    let flags = stage_flags(aig, hier);
    assert(words.subrange(0, 4096) =~= packed(perm));
    assert(words.subrange(4096, 5120) =~= flags);
    if h == 0 {
        assert(hier[0]@.len() == width(0));
        law_permutations_are_found(perm, j);
        let pin = hier[0]@[j];
        assert(pin != usize::MAX);
        assert(pos.contains_key(pin));
    } else {
        let p = width(h) + j;
        lemma_row_of(h, j);
        let xora = |p: int| inverts_first(aig, hier, p);
        let xorb = |p: int| inverts_second(aig, hier, p);
        let orb = |p: int| passes_at(hier, p);
        lemma_words_with_flags(xora);
        lemma_words_with_flags(xorb);
        lemma_words_with_flags(orb);
        assert(flags == interleaved(words_with(xora), words_with(xorb), words_with(orb)));
        law_flags_are_found(words_with(xora), words_with(xorb), words_with(orb), p);
        assert(flag_at(words_with(xora), p) == xora(p));
        assert(flag_at(words_with(xorb), p) == xorb(p));
        assert(flag_at(words_with(orb), p) == orb(p));
        assert(is_slot(h - 1, j) && is_slot(h - 1, j + width(h)));
        assert(slot_fed(aig, hier, h, j));
        let v = cell(hier, h, j);
        let a = cell(hier, h - 1, j);
        let b = cell(hier, h - 1, j + width(h));
        let x = slot_value(words, local, h - 1, j + width(h));
        if a == v {
            law_stage_computes(aig, hier, pos, local, val, h - 1, j);
            assert(passes_at(hier, p));
        } else {
            assert(a != usize::MAX && b != usize::MAX);
            law_stage_computes(aig, hier, pos, local, val, h - 1, j);
            law_stage_computes(aig, hier, pos, local, val, h - 1, j + width(h));
        }
        law_flags_compute(aig, hier, val, h, j, x);
    }
}

/// The bits behind a stage.
pub open spec fn bits_after(words: Seq<u32>, local: Seq<bool>) -> Seq<bool> {
    Seq::new(
        8192,
        |p: int|
            if p == 0 {
                false
            } else {
                slot_value(words, local, row_of(p), p - width(row_of(p)))
            },
    )
}

/// What a stage leaves behind has the values of its pins.
pub proof fn law_stage_leaves_values(
    aig: AIG,
    hier: Seq<Vec<usize>>,
    pos: Map<usize, usize>,
    local: Seq<bool>,
    val: spec_fn(usize) -> bool,
)
    requires
        shaped(hier),
        all_fed(aig, hier),
        row_there(hier[0]@, pos),
        respects_gates(aig, val),
        bits_hold(local, pos, val),
    ensures
        bits_hold(bits_after(stage_words(aig, hier, pos), local), positions_after(hier), val),
        forall|p: int|
            0 <= p < 8192 && #[trigger] after_stage(hier)[p] != usize::MAX ==> bits_after(
                stage_words(aig, hier, pos),
                local,
            )[p] == val(after_stage(hier)[p]),
{
    let words = stage_words(aig, hier, pos);
    let after = bits_after(words, local);
    let s = after_stage(hier);
    lemma_after_rows(hier, 1);
    assert(s.len() == 8192);
    assert forall|p: int| 0 <= p < 8192 && #[trigger] s[p] != usize::MAX implies after[p] == val(s[p]) by {
        assert(p != 0);
        assert(slot_at(hier, 1, p, s[p]));
        let (h, j) = choose|h: int, j: int|
            1 <= h && is_slot(h, j) && p == width(h) + j && #[trigger] cell(hier, h, j) == s[p];
        lemma_row_of(h, j);
        law_stage_computes(aig, hier, pos, local, val, h, j);
    }
    let next = positions_after(hier);
    assert forall|pin: usize| #[trigger] next.contains_key(pin) implies next[pin] < 8192 && after[next[pin] as int]
        == val(pin) by {
        lemma_last_exists(s, pin);
        let i = last_position(s, pin);
        assert(is_last(s, pin, i));
        assert(s[i] == pin);
    }
}

/// A pin that occurs has a last position.
pub(crate) proof fn lemma_last_exists(s: Seq<usize>, pin: usize)
    requires
        s.contains(pin),
    ensures
        is_last(s, pin, last_position(s, pin)),
    decreases s.len(),
{
    let n = s.len() - 1;
    if s[n] == pin {
        assert(is_last(s, pin, n));
    } else {
        let t = s.drop_last();
        assert(t[s.index_of(pin)] == pin);
        lemma_last_exists(t, pin);
        let i = last_position(t, pin);
        assert(is_last(t, pin, i));
        assert forall|j: int| i < j < s.len() implies s[j] != pin by {
            if j < n {
                assert(t[j] == s[j]);
            }
        }
        assert(s[i] == t[i]);
        assert(is_last(s, pin, i));
    }
}

/// The bits behind the first `k` stages.
pub open spec fn bits_at(
    aig: AIG,
    stages: Seq<BoomerangStage>,
    pos: Map<usize, usize>,
    local: Seq<bool>,
    k: nat,
) -> Seq<bool>
    decreases k,
{
    if k == 0 {
        local
    } else {
        bits_after(
            stage_words(aig, stages[k - 1].hier@, positions_at(stages, pos, (k - 1) as nat)),
            bits_at(aig, stages, pos, local, (k - 1) as nat),
        )
    }
}

/// Where pins are before stage `k`.
pub open spec fn positions_at(stages: Seq<BoomerangStage>, pos: Map<usize, usize>, k: nat) -> Map<usize, usize> {
    if k == 0 {
        pos
    } else {
        positions_after(stages[k - 1].hier@)
    }
}

proof fn lemma_body_fine_at(
    aig: AIG,
    stages: Seq<BoomerangStage>,
    pos: Map<usize, usize>,
    occ: Seq<bool>,
    b: nat,
    k: nat,
)
    requires
        b <= k < stages.len(),
        body_fine(aig, stages, Seq::<MacroStage>::empty(), b, 0, pos, occ),
    ensures
        all_fed(aig, stages[k as int].hier@),
        row_there(stages[k as int].hier@[0]@, if k == b {
            pos
        } else {
            positions_after(stages[k - 1].hier@)
        }),
    decreases k - b,
{
    if b < k {
        let hier = stages[b as int].hier@;
        lemma_body_fine_at(aig, stages, positions_after(hier), occupied_after(hier), b + 1, k);
    }
}

pub(crate) proof fn lemma_stage_words_len(aig: AIG, hier: Seq<Vec<usize>>, pos: Map<usize, usize>)
    ensures
        stage_words(aig, hier, pos).len() == 5120,
{
}

proof fn lemma_section(
    aig: AIG,
    stages: Seq<BoomerangStage>,
    off: Map<usize, u32>,
    pos: Map<usize, usize>,
    occ: Seq<bool>,
    b: nat,
    k: nat,
)
    requires
        b <= k < stages.len(),
    ensures
        ({
            let body = script_body(aig, stages, Seq::<MacroStage>::empty(), off, b, 0, pos, occ);
            let at = 5120 * (k - b);
            &&& at + 5120 <= body.len()
            &&& body.subrange(at, at + 5120) == stage_words(aig, stages[k as int].hier@, if k == b {
                pos
            } else {
                positions_after(stages[k - 1].hier@)
            })
        }),
    decreases k - b,
{
    let none = Seq::<MacroStage>::empty();
    let body = script_body(aig, stages, none, off, b, 0, pos, occ);
    let hier = stages[b as int].hier@;
    let first = stage_words(aig, hier, pos);
    let rest = script_body(aig, stages, none, off, b + 1, 0, positions_after(hier), occupied_after(hier));
    lemma_stage_words_len(aig, hier, pos);
    assert(body == first + rest);
    if k == b {
        assert(body.subrange(0, 5120) =~= first);
    } else {
        lemma_section(aig, stages, off, positions_after(hier), occupied_after(hier), b + 1, k);
        let at = 5120 * (k - b);
        assert(body.subrange(at, at + 5120) =~= rest.subrange(at - 5120, at));
    }
}

/// The words of each stage are found at their place in a script without macro
/// phases.
pub proof fn law_sections_are_found(
    aig: AIG,
    stages: Seq<BoomerangStage>,
    off: Map<usize, u32>,
    pos: Map<usize, usize>,
    occ: Seq<bool>,
    k: nat,
)
    requires
        k < stages.len(),
    ensures
        ({
            let body = script_body(aig, stages, Seq::<MacroStage>::empty(), off, 0, 0, pos, occ);
            &&& 5120 * k + 5120 <= body.len()
            &&& body.subrange((5120 * k) as int, (5120 * k + 5120) as int) == stage_words(
                aig,
                stages[k as int].hier@,
                positions_at(stages, pos, k),
            )
        }),
{
    lemma_section(aig, stages, off, pos, occ, 0, k);
}

/// A script without macro phases computes what its partition holds: if the bits
/// that are read at first have the values of their pins, every bit that a stage
/// leaves behind, and so every bit that it writes out, has the value of its
/// pin.
pub proof fn law_script_computes(
    aig: AIG,
    stages: Seq<BoomerangStage>,
    pos: Map<usize, usize>,
    occ: Seq<bool>,
    local: Seq<bool>,
    val: spec_fn(usize) -> bool,
    k: nat,
)
    requires
        forall|k: int| 0 <= k < stages.len() ==> shaped((#[trigger] stages[k]).hier@),
        body_fine(aig, stages, Seq::<MacroStage>::empty(), 0, 0, pos, occ),
        respects_gates(aig, val),
        bits_hold(local, pos, val),
        k <= stages.len(),
    ensures
        bits_hold(bits_at(aig, stages, pos, local, k), positions_at(stages, pos, k), val),
        k > 0 ==> forall|p: int|
            0 <= p < 8192 && #[trigger] after_stage(stages[k - 1].hier@)[p] != usize::MAX ==> bits_at(
                aig,
                stages,
                pos,
                local,
                k,
            )[p] == val(after_stage(stages[k - 1].hier@)[p]),
    decreases k,
{
    if k > 0 {
        law_script_computes(aig, stages, pos, occ, local, val, (k - 1) as nat);
        assert(shaped(stages[k - 1].hier@));
        lemma_body_fine_at(aig, stages, pos, occ, 0, (k - 1) as nat);
        law_stage_leaves_values(
            aig,
            stages[k - 1].hier@,
            positions_at(stages, pos, (k - 1) as nat),
            bits_at(aig, stages, pos, local, (k - 1) as nat),
            val,
        );
    }
}

/// The code of input `s` in the words of a lane.
pub open spec fn lane_input(words: Seq<u32>, s: int) -> u16 {
    half_of(words[1 + s / 2], s % 2)
}

/// The position of output `s` in the words of a lane.
pub open spec fn lane_output(words: Seq<u32>, s: int) -> u16 {
    half_of(words[6 + s / 2], s % 2)
}

/// The low or the high half of a word.
pub open spec fn half_of(w: u32, high: int) -> u16 {
    if high == 0 {
        (w % 0x1_0000) as u16
    } else {
        (w / 0x1_0000) as u16
    }
}

/// The bit that an input code stands for: bit 14 marks a constant, bit 13 is its
/// value or an inversion, and the 13 bits below are a position.
pub open spec fn decoded(code: u16, local: Seq<bool>) -> bool {
    let inv = code / 0x2000 % 2 == 1;
    if code / 0x4000 % 2 == 1 {
        inv
    } else {
        local[code as int % 0x2000] != inv
    }
}

/// Does a lane need input `s` of its macro? It needs all inputs of a CARRY4 and of an
/// SRLC32E, but for the carry-in of a CARRY4, slot 0, that does not start a chain:
/// that one comes from the lane before it.
pub open spec fn needs_input(m: MacroInst, chain_start: bool, s: int) -> bool {
    match m.kind {
        MacroKind::Carry4 => 0 <= s < 10 && (s == 0 ==> chain_start),
        MacroKind::Srlc32e => 0 <= s < 7,
        MacroKind::Dsp48e2 { .. } => false,
    }
}

/// A lane gathers the inputs that its macro needs: where pins have their values,
/// each code stands for the value of the literal at its input.
pub proof fn law_lanes_gather_inputs(
    m: MacroInst,
    chain_start: bool,
    state_off: u32,
    pos: Map<usize, usize>,
    c: Claimed,
    local: Seq<bool>,
    val: spec_fn(usize) -> bool,
    s: int,
)
    requires
        needs_input(m, chain_start, s),
        inputs_there(m, chain_start, pos),
        bits_hold(local, pos, val),
        !val(0),
    ensures
        decoded(lane_input(lane_words(m, chain_start, state_off, pos, c), s), local) == literal_value(
            val,
            m.inputs@[s],
        ),
{
    let w = 1 + s / 2;
    let words = lane_words(m, chain_start, state_off, pos, c);
    assert(1 <= w <= 5);
    let a = input_code(m, chain_start, 2 * (w - 1), pos);
    let b = input_code(m, chain_start, 2 * (w - 1) + 1, pos);
    assert(words[w] == pair_word(a, b));
    assert(gathers_slot(m, chain_start, s));
    let code = input_code(m, chain_start, s, pos);
    assert(lane_input(words, s) == code);
    let iv = m.inputs@[s];
    if iv > 1 {
        let pin = pin_of(iv);
        assert(pos.contains_key(pin));
        law_input_code_roundtrip(iv, pos[pin] as u16);
    } else {
        law_input_code_roundtrip(iv, 0);
    }
}

/// A lane scatters the outputs of its macro to the positions that are claimed
/// for them.
pub proof fn law_lanes_scatter_outputs(
    m: MacroInst,
    chain_start: bool,
    state_off: u32,
    pos: Map<usize, usize>,
    c: Claimed,
    s: int,
)
    requires
        0 <= s < MACRO_LANE_OUT_SLOTS,
    ensures
        lane_output(lane_words(m, chain_start, state_off, pos, c), s) == output_code(m, s, c),
{
    let w = 6 + s / 2;
    let a = output_code(m, 2 * (w - 6), c);
    let b = output_code(m, 2 * (w - 6) + 1, c);
    assert(lane_words(m, chain_start, state_off, pos, c)[w] == pair_word(a, b));
}

/// The bit that a gather code stands for, given the bits that are written out.
pub open spec fn gathered(c: (u16, bool, bool), out: Seq<bool>) -> bool {
    (!c.2 && out[c.0 as int]) != c.1
}

/// Do the bits that are written out have the values of their pins?
pub open spec fn outs_hold(out: Seq<bool>, pins: Map<usize, usize>, val: spec_fn(usize) -> bool) -> bool {
    forall|pin: usize| #[trigger] pins.contains_key(pin) ==> pins[pin] < 8192 && out[pins[pin] as int] == val(pin)
}

/// The code of a literal stands for its value.
pub proof fn law_literal_codes_hold(
    pins: Map<usize, usize>,
    iv: usize,
    out: Seq<bool>,
    val: spec_fn(usize) -> bool,
)
    requires
        has_code(pins, iv),
        outs_hold(out, pins, val),
        !val(0),
    ensures
        gathered(literal_code(pins, iv), out) == literal_value(val, iv),
{
    if iv > 1 {
        assert(pins.contains_key((iv / 2) as usize));
    }
}

/// Endpoints store their values: where activation `i` of a partition is placed
/// at `q`, its enable is the value of its enabling literal, and its data is the
/// value of its pin, inverted if the activation says so. The data of the first
/// activation of a pin is at the position of the pin; that of any other is
/// gathered from there.
pub proof fn law_activations_store_values(
    p: FlatteningPart,
    i: int,
    q: u16,
    out: Seq<bool>,
    val: spec_fn(usize) -> bool,
)
    requires
        p.wf(),
        0 <= i < p.comb_outputs_activations.list@.len(),
        p.comb_outputs_activations.pos@[i] == Some(q),
        outs_hold(out, p.shape.pins(), val),
        !val(0),
    ensures
        ({
            let (pin, key) = p.comb_outputs_activations.list@[i];
            let data = if p.comb_outputs_activations.first@[i] {
                out[q as int]
            } else {
                gathered(p.tables.gather(p.shape.dup_gather_end() - (p.shape.dup_end() - q)), out)
            };
            &&& gathered(p.tables.enable(q as int), out) == literal_value(val, (key / 2) as usize)
            &&& (data != p.tables.inverted(q as int)) == (val(pin) != (key % 2 == 1))
        }),
{
    let (pin, key) = p.comb_outputs_activations.list@[i];
    assert(p.act_ok(i));
    assert(act_placed(
        p.shape,
        p.cnt_placed_duplicate_permute as int,
        p.tables,
        p.comb_outputs_activations.first@[i],
        (pin, key),
        q,
    ));
    law_literal_codes_hold(p.shape.pins(), (key / 2) as usize, out, val);
    assert(p.shape.pins().contains_key(pin));
}

} // verus!
