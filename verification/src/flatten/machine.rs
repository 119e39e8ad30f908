//! What the words of a script mean to the machine that runs it.

use super::activations::lemma_flags_imply;
use super::bits::{interleaved, packed};
use super::local::read_occupancy;
use super::outputs::{
    dsp_bits, dsp_lane, dsp_stored, endpoint_stored, group_of, lemma_activation_known, lemma_place_within, ram_bits,
    ram_stored,
};
use super::part::{count_dsps, FlatteningPart};
use super::script::{
    all_codes, body_fine, codes_section, first_state, metadata, num_rounds, reads_section, script_body, script_ok,
    script_tail, start_ok, whole_script,
};
use super::semantics::{
    column_flag, gathered, half_at, law_activations_store_values, law_flags_are_found, law_literal_codes_hold,
    law_permutations_are_found, outs_hold,
};
use super::stages::part_flat;
use super::tables::{has_code, literal_code};
use crate::aig::{literal_value, nonzero, EndpointGroup, AIG};
use crate::collections::gate_view;
use crate::macros::{DspState, MacroInst, MacroKind};
use crate::pe::budget::{activation, count_words, endpoints_readable, lemma_group_pins};
use crate::pe::commits::macros_among;
use crate::pe::partition::Partition;
use crate::staging::StagedAIG;
use vstd::arithmetic::power2::pow2;
use vstd::prelude::*;

verus! {

/// The bit that a script gathers into place `g`, from the bits that the stages
/// have written out. Gathers are 10240 words before the end of the script: a
/// permutation, and columns of flags that invert a bit or clear it first.
pub open spec fn gather_bit(script: Seq<u32>, out: Seq<bool>, g: int) -> bool {
    let t = script.len() - 10240;
    let flags = script.subrange(t + 4096, t + 5120);
    (!column_flag(flags, 1, g) && out[half_at(script.subrange(t, t + 4096), g)]) != column_flag(flags, 0, g)
}

/// Does a script store bit `q`, given the bits that the stages have written out?
/// Enables are behind the gathers, in the same form.
pub open spec fn enable_bit(script: Seq<u32>, out: Seq<bool>, q: int) -> bool {
    let t = script.len() - 5120;
    let flags = script.subrange(t + 4096, t + 5120);
    (!column_flag(flags, 1, q) && out[half_at(script.subrange(t, t + 4096), q)]) != column_flag(flags, 0, q)
}

/// Does a script invert bit `q` before it is stored? The third column of flags
/// behind the enables says so.
pub open spec fn inverts_bit(script: Seq<u32>, q: int) -> bool {
    column_flag(script.subrange(script.len() - 1024, script.len() as int), 2, q)
}

/// The number that `n` bits stand for, the lowest one first.
pub open spec fn number(bit: spec_fn(int) -> bool, n: nat) -> nat
    decreases n,
{
    if n == 0 {
        0
    } else {
        number(bit, (n - 1) as nat) + (if bit(n - 1) {
            pow2((n - 1) as nat)
        } else {
            0
        })
    }
}

/// The number that the values of literals stand for.
pub open spec fn literal_number(val: spec_fn(usize) -> bool, lits: Seq<usize>) -> nat {
    number(|k: int| literal_value(val, lits[k]), lits.len())
}

proof fn lemma_number_same(a: spec_fn(int) -> bool, b: spec_fn(int) -> bool, n: nat)
    requires
        forall|k: int| 0 <= k < n ==> #[trigger] a(k) == b(k),
    ensures
        number(a, n) == number(b, n),
    decreases n,
{
    if n > 0 {
        lemma_number_same(a, b, (n - 1) as nat);
        assert(a(n - 1) == b(n - 1));
    }
}

/// The number of SRAMs among the first `k` endpoint groups of a partition.
pub open spec fn rams_before(aig: AIG, staged: StagedAIG, part: Partition, k: int) -> nat
    decreases k,
{
    if k <= 0 {
        0
    } else {
        rams_before(aig, staged, part, k - 1) + (if staged.group(&aig, part.endpoints@[k - 1] as int) is RAMBlock {
            1nat
        } else {
            0nat
        })
    }
}

pub(super) proof fn lemma_before(aig: AIG, staged: StagedAIG, part: Partition, k: int)
    requires
        0 <= k <= part.endpoints@.len(),
    ensures
        count_words(aig, staged, part.endpoints@.take(k)).0 == rams_before(aig, staged, part, k),
        count_dsps(aig, staged, part.endpoints@.take(k)) == macros_among(aig, staged, part.endpoints@, k),
    decreases k,
{
    if k > 0 {
        lemma_before(aig, staged, part, k - 1);
        assert(part.endpoints@.take(k).drop_last() =~= part.endpoints@.take(k - 1));
        assert(part.endpoints@.take(k).last() == part.endpoints@[k - 1]);
    } else {
        assert(part.endpoints@.take(k) =~= Seq::<usize>::empty());
    }
}

pub(super) proof fn lemma_before_grows(aig: AIG, staged: StagedAIG, part: Partition, j: int, k: int)
    requires
        0 <= j <= k,
    ensures
        rams_before(aig, staged, part, j) <= rams_before(aig, staged, part, k),
        macros_among(aig, staged, part.endpoints@, j) <= macros_among(aig, staged, part.endpoints@, k),
    decreases k,
{
    if j < k {
        lemma_before_grows(aig, staged, part, j, k - 1);
    }
}

/// The parts of a script.
pub(super) proof fn lemma_script_parts(
    aig: AIG,
    p: FlatteningPart,
    part: Partition,
    im: Map<usize, u32>,
    sm: Map<usize, u32>,
    off: Map<usize, u32>,
    script: Seq<u32>,
) -> (rounds: Seq<Vec<(u32, u32)>>)
    requires
        script_ok(aig, p, part, im, sm, off, script),
    ensures
        script.len() >= 256 + 10240,
        script.subrange(script.len() - 10240, script.len() as int) == script_tail(p),
        script.subrange(0, 128) == metadata(p, part, off, num_rounds(rounds, 256) as u32),
        script.subrange(128, 256) == codes_section(all_codes(part.stages@)),
{
    let (taken, rounds, pos) = choose|
        taken: Seq<(u32, u32)>,
        rounds: Seq<Vec<(u32, u32)>>,
        pos: Map<usize, usize>,
    | #[trigger]
        start_ok(aig, part, im, sm, taken, rounds, pos) && script == whole_script(aig, p, part, off, rounds, pos)
            && body_fine(aig, part.stages@, part.macro_stages@, 0, 0, pos, read_occupancy(rounds));
    let n = num_rounds(rounds, 256);
    let head = metadata(p, part, off, n as u32);
    let codes = codes_section(all_codes(part.stages@));
    let reads = reads_section(rounds, n);
    let body = script_body(aig, part.stages@, part.macro_stages@, off, 0, 0, pos, read_occupancy(rounds));
    let tail = script_tail(p);
    assert(script == head + codes + reads + body + tail);
    assert(tail.len() == 10240);
    assert(script.subrange(script.len() - 10240, script.len() as int) =~= tail);
    assert(script.subrange(0, 128) =~= head);
    assert(script.subrange(128, 256) =~= codes);
    rounds
}

/// The words at the end of a script say what its tables hold.
proof fn lemma_tail(
    aig: AIG,
    p: FlatteningPart,
    part: Partition,
    im: Map<usize, u32>,
    sm: Map<usize, u32>,
    off: Map<usize, u32>,
    script: Seq<u32>,
    out: Seq<bool>,
    g: int,
)
    requires
        script_ok(aig, p, part, im, sm, off, script),
        p.wf(),
        0 <= g < 8192,
    ensures
        gather_bit(script, out, g) == gathered(p.tables.gather(g), out),
        enable_bit(script, out, g) == gathered(p.tables.enable(g), out),
        inverts_bit(script, g) == p.tables.inverted(g),
{
    let _ = lemma_script_parts(aig, p, part, im, sm, off, script);
    let n = script.len() as int;
    let tail = script_tail(p);
    let t = p.tables;
    let zeros = Seq::new(256, |i: int| 0u32);
    assert(script.subrange(n - 10240, n - 10240 + 4096) =~= packed(t.sram_duplicate_permute@)) by {
        assert(script.subrange(n - 10240, n - 10240 + 4096) =~= tail.subrange(0, 4096));
    }
    assert(script.subrange(n - 10240 + 4096, n - 10240 + 5120) =~= interleaved(
        t.sram_duplicate_inv@,
        t.sram_duplicate_set0@,
        zeros,
    )) by {
        assert(script.subrange(n - 10240 + 4096, n - 10240 + 5120) =~= tail.subrange(4096, 5120));
    }
    assert(script.subrange(n - 5120, n - 5120 + 4096) =~= packed(t.clken_permute@)) by {
        assert(script.subrange(n - 5120, n - 5120 + 4096) =~= tail.subrange(5120, 9216));
    }
    assert(script.subrange(n - 5120 + 4096, n - 5120 + 5120) =~= interleaved(
        t.clken_inv@,
        t.clken_set0@,
        t.data_inv@,
    )) by {
        assert(script.subrange(n - 5120 + 4096, n - 5120 + 5120) =~= tail.subrange(9216, 10240));
    }
    law_permutations_are_found(t.sram_duplicate_permute@, g);
    law_permutations_are_found(t.clken_permute@, g);
    law_flags_are_found(t.sram_duplicate_inv@, t.sram_duplicate_set0@, zeros, g);
    law_flags_are_found(t.clken_inv@, t.clken_set0@, t.data_inv@, g);
}

/// The address that SRAM `r` reads, and the one that it writes: 13 bits each, at
/// places 0 and 16 of the 128 that are gathered for it.
pub open spec fn ram_address(script: Seq<u32>, out: Seq<bool>, r: int, at: int) -> nat {
    number(|k: int| gather_bit(script, out, 128 * r + at + k), 13)
}

/// Bit `b` of the word that SRAM `r` reads, in a memory of 32-bit words. SRAMs of
/// a partition follow each other from the word on that word 5 of its script
/// names, 8192 words each.
pub open spec fn ram_read(
    script: Seq<u32>,
    out: Seq<bool>,
    mem: spec_fn(int, int) -> bool,
    r: int,
    b: int,
) -> bool {
    mem(script[5] + 8192 * r + ram_address(script, out, r, 0), b)
}

/// The memory once SRAM `r` has written: bits whose enable, at places 32 to 63, is
/// set become the bits at places 64 to 95.
pub open spec fn ram_written(
    script: Seq<u32>,
    out: Seq<bool>,
    mem: spec_fn(int, int) -> bool,
    r: int,
) -> spec_fn(int, int) -> bool {
    |w: int, b: int|
        if w == script[5] + 8192 * r + ram_address(script, out, r, 16) && 0 <= b < 32 && gather_bit(
            script,
            out,
            128 * r + 32 + b,
        ) {
            gather_bit(script, out, 128 * r + 64 + b)
        } else {
            mem(w, b)
        }
}

/// Literals that are gathered from a place on have their values there.
proof fn lemma_literals_gathered(
    aig: AIG,
    p: FlatteningPart,
    part: Partition,
    im: Map<usize, u32>,
    sm: Map<usize, u32>,
    off: Map<usize, u32>,
    script: Seq<u32>,
    out: Seq<bool>,
    val: spec_fn(usize) -> bool,
    at: int,
    lits: Seq<usize>,
)
    requires
        script_ok(aig, p, part, im, sm, off, script),
        p.wf(),
        outs_hold(out, p.shape.pins(), val),
        !val(0),
        0 <= at,
        at + lits.len() <= 8192,
        forall|i: int|
            0 <= i < lits.len() ==> has_code(p.shape.pins(), #[trigger] lits[i]) && p.tables.gather(at + i)
                == literal_code(p.shape.pins(), lits[i]),
    ensures
        forall|i: int|
            0 <= i < lits.len() ==> gather_bit(script, out, at + i) == literal_value(val, #[trigger] lits[i]),
        number(|i: int| gather_bit(script, out, at + i), lits.len()) == literal_number(val, lits),
{
    assert forall|i: int| 0 <= i < lits.len() implies gather_bit(script, out, at + i) == literal_value(
        val,
        #[trigger] lits[i],
    ) by {
        lemma_tail(aig, p, part, im, sm, off, script, out, at + i);
        law_literal_codes_hold(p.shape.pins(), lits[i], out, val);
    }
    let f = |i: int| gather_bit(script, out, at + i);
    let g = |i: int| literal_value(val, lits[i]);
    assert forall|i: int| 0 <= i < lits.len() implies #[trigger] f(i) == g(i) by {
        assert(gather_bit(script, out, at + i) == literal_value(val, lits[i]));
    }
    lemma_number_same(f, g, lits.len());
}

/// An SRAM of a partition is stored under its number.
proof fn lemma_ram(
    aig: AIG,
    staged: StagedAIG,
    p: FlatteningPart,
    part: Partition,
    im: Map<usize, u32>,
    sm: Map<usize, u32>,
    off: Map<usize, u32>,
    script: Seq<u32>,
    k: int,
)
    requires
        script_ok(aig, p, part, im, sm, off, script),
        part_flat(aig, staged, part, p),
        0 <= k < part.endpoints@.len(),
        staged.group(&aig, part.endpoints@[k] as int) is RAMBlock,
    ensures
        ({
            let r = rams_before(aig, staged, part, k) as int;
            &&& ram_stored(p.shape, p.tables, r, *staged.group(&aig, part.endpoints@[k] as int)->RAMBlock_0)
            &&& r < script[4]
            &&& script[4] == p.shape.num_srams
            &&& script[2] == p.shape.num_writeouts
        }),
{
    let n = part.endpoints@.len() as int;
    let rounds = lemma_script_parts(aig, p, part, im, sm, off, script);
    assert(script.subrange(0, 128)[2] == script[2]);
    assert(script.subrange(0, 128)[4] == script[4]);
    lemma_before(aig, staged, part, k);
    lemma_before(aig, staged, part, n);
    lemma_before_grows(aig, staged, part, k + 1, n);
    assert(part.endpoints@.take(n) =~= part.endpoints@);
    assert(endpoint_stored(aig, staged, part, p, k));
}

/// SRAMs are read and written as their ports say. Where endpoint group `k` is the
/// SRAM with number `r` of its partition, running the script reads the word at the
/// value of its read address, stores it where its read enable is set, and writes
/// those bits of the word at the value of its write address whose write enables
/// are set.
pub proof fn law_srams_follow_their_ports(
    aig: AIG,
    staged: StagedAIG,
    p: FlatteningPart,
    part: Partition,
    im: Map<usize, u32>,
    sm: Map<usize, u32>,
    off: Map<usize, u32>,
    script: Seq<u32>,
    out: Seq<bool>,
    val: spec_fn(usize) -> bool,
    mem: spec_fn(int, int) -> bool,
    k: int,
    w: int,
    b: int,
)
    requires
        script_ok(aig, p, part, im, sm, off, script),
        part_flat(aig, staged, part, p),
        outs_hold(out, p.shape.pins(), val),
        !val(0),
        0 <= k < part.endpoints@.len(),
        staged.group(&aig, part.endpoints@[k] as int) is RAMBlock,
        0 <= b < 32,
    ensures
        ({
            let ram = *staged.group(&aig, part.endpoints@[k] as int)->RAMBlock_0;
            let r = rams_before(aig, staged, part, k) as int;
            let base = script[5] + 8192 * r;
            &&& r < script[4]
            &&& ram_read(script, out, mem, r, b) == mem(base + literal_number(val, ram.port_r_addr_iv@), b)
            &&& ram_written(script, out, mem, r)(w, b) == (if w == base + literal_number(val, ram.port_w_addr_iv@)
                && literal_value(val, ram.port_w_wr_en_iv@[b]) {
                literal_value(val, ram.port_w_wr_data_iv@[b])
            } else {
                mem(w, b)
            })
            &&& ram.port_r_rd_data@[b] != usize::MAX ==> {
                let q = 32 * (script[2] - script[4] + r) + b;
                enable_bit(script, out, q) == literal_value(val, ram.port_r_en_iv) && !inverts_bit(script, q)
            }
        }),
{
    let ram = *staged.group(&aig, part.endpoints@[k] as int)->RAMBlock_0;
    let r = rams_before(aig, staged, part, k) as int;
    lemma_ram(aig, staged, p, part, im, sm, off, script, k);
    lemma_literals_gathered(aig, p, part, im, sm, off, script, out, val, 128 * r, ram.port_r_addr_iv@);
    lemma_literals_gathered(aig, p, part, im, sm, off, script, out, val, 128 * r + 16, ram.port_w_addr_iv@);
    lemma_literals_gathered(aig, p, part, im, sm, off, script, out, val, 128 * r + 32, ram.port_w_wr_en_iv@);
    lemma_literals_gathered(aig, p, part, im, sm, off, script, out, val, 128 * r + 64, ram.port_w_wr_data_iv@);
    assert(ram_address(script, out, r, 0) == literal_number(val, ram.port_r_addr_iv@)) by {
        lemma_number_same(
            |i: int| gather_bit(script, out, 128 * r + 0 + i),
            |i: int| gather_bit(script, out, 128 * r + i),
            13,
        );
    }
    let en = ram.port_w_wr_en_iv@[b];
    let data = ram.port_w_wr_data_iv@[b];
    assert(gather_bit(script, out, 128 * r + 32 + b) == literal_value(val, en));
    assert(gather_bit(script, out, 128 * r + 64 + b) == literal_value(val, data));
    if ram.port_r_rd_data@[b] != usize::MAX {
        let q = 32 * (script[2] - script[4] + r) + b;
        lemma_tail(aig, p, part, im, sm, off, script, out, q);
        law_literal_codes_hold(p.shape.pins(), ram.port_r_en_iv, out, val);
        assert(q == ram_bits(p.shape, r) + b);
    }
}

/// The bit that a script stores as bit `q` if it is enabled, before it may be
/// inverted. Bits come in this order: those that the stages write out, 64 for each
/// DSP, copies, and 32 for each SRAM; copies are gathered behind the inputs of
/// SRAMs and DSPs.
pub open spec fn source_bit(script: Seq<u32>, out: Seq<bool>, q: int) -> bool {
    let copies = 32 * (script[2] - script[4] - script[7]);
    if q < 32 * normal_words(script) {
        out[q]
    } else {
        gather_bit(script, out, 128 * (script[4] + script[9]) + (q - copies))
    }
}

/// The number of words that the stages of a script write out.
pub open spec fn normal_words(script: Seq<u32>) -> int {
    script[2] - script[4] - script[7] - 2 * script[9]
}

/// Does a script store the given bit as bit `q` if the condition holds?
pub open spec fn stores(script: Seq<u32>, out: Seq<bool>, q: int, enable: bool, data: bool) -> bool {
    &&& 0 <= q < 32 * script[2]
    &&& enable_bit(script, out, q) == enable
    &&& (source_bit(script, out, q) != inverts_bit(script, q)) == data
}

/// The literal that enables an endpoint group to store, and the literal that it
/// stores: a flip-flop its data where it is enabled; an output, and a pin for
/// later major stages, always.
pub open spec fn stored_literals(g: EndpointGroup) -> (usize, usize) {
    match g {
        EndpointGroup::DFF(dff) => (dff.en_iv, dff.d_iv),
        EndpointGroup::PrimaryOutput(idx) => (1, idx),
        EndpointGroup::StagedIOPin(pin) => (1, (2 * pin) as usize),
        _ => (0, 0),
    }
}

/// Does the endpoint group store a bit by itself?
pub open spec fn stores_bit(g: EndpointGroup) -> bool {
    match g {
        EndpointGroup::DFF(dff) => dff.d_iv != 0,
        EndpointGroup::PrimaryOutput(_) | EndpointGroup::StagedIOPin(_) => true,
        _ => false,
    }
}

/// The literals of an endpoint group are in range.
proof fn lemma_literals_small(aig: AIG, staged: StagedAIG, e: int)
    requires
        endpoints_readable(aig),
        staged.wf(aig),
        0 <= e < staged.group_count(),
    ensures
        stored_literals(staged.group(&aig, e)).0 * 2 + 1 <= usize::MAX,
        staged.group(&aig, e) matches EndpointGroup::StagedIOPin(pin) ==> 2 * pin <= usize::MAX,
{
    lemma_group_pins(aig, staged, e);
    let g = staged.group(&aig, e);
    match g {
        EndpointGroup::DFF(dff) => {
            let a = (dff.en_iv / 2) as usize;
            let b = (dff.d_iv / 2) as usize;
            assert(seq![a, b].drop_last() =~= seq![a]);
            assert(seq![a].drop_last() =~= Seq::<usize>::empty());
            reveal_with_fuel(nonzero, 3);
            if a != 0 {
                assert(g.input_pins()[0] == a);
            }
        },
        EndpointGroup::StagedIOPin(pin) => {
            assert(seq![pin].drop_last() =~= Seq::<usize>::empty());
            reveal_with_fuel(nonzero, 2);
            if pin != 0 {
                assert(g.input_pins()[0] == pin);
            }
        },
        _ => {},
    }
}

/// The words of a script that count what its partition stores.
pub(super) proof fn lemma_counts(
    aig: AIG,
    staged: StagedAIG,
    p: FlatteningPart,
    part: Partition,
    im: Map<usize, u32>,
    sm: Map<usize, u32>,
    off: Map<usize, u32>,
    script: Seq<u32>,
)
    requires
        script_ok(aig, p, part, im, sm, off, script),
        part_flat(aig, staged, part, p),
    ensures
        script.len() >= 256,
        script[1] == 0,
        script[2] == p.shape.num_writeouts,
        script[3] == p.starts.state_start,
        script[4] == p.shape.num_srams,
        script[5] == p.starts.sram_start,
        script[7] == p.shape.num_duplicate_writeouts,
        script[9] == p.shape.num_dsps,
        script[10] == first_state(part, off),
        normal_words(script) == p.shape.num_normal_writeouts,
{
    let rounds = lemma_script_parts(aig, p, part, im, sm, off, script);
    let head = script.subrange(0, 128);
    assert(head[1] == script[1]);
    assert(head[2] == script[2]);
    assert(head[3] == script[3]);
    assert(head[4] == script[4]);
    assert(head[5] == script[5]);
    assert(head[7] == script[7]);
    assert(head[9] == script[9]);
    assert(head[10] == script[10]);
}

/// Where an activation is placed, the script stores its pin under its condition.
proof fn lemma_activation_stores(
    aig: AIG,
    staged: StagedAIG,
    p: FlatteningPart,
    part: Partition,
    im: Map<usize, u32>,
    sm: Map<usize, u32>,
    off: Map<usize, u32>,
    script: Seq<u32>,
    out: Seq<bool>,
    val: spec_fn(usize) -> bool,
    id: int,
    q: u16,
)
    requires
        script_ok(aig, p, part, im, sm, off, script),
        part_flat(aig, staged, part, p),
        outs_hold(out, p.shape.pins(), val),
        !val(0),
        0 <= id < p.comb_outputs_activations.list@.len(),
        p.comb_outputs_activations.pos@[id] == Some(q),
        q < 32 * p.shape.num_writeouts,
    ensures
        ({
            let (pin, key) = p.comb_outputs_activations.list@[id];
            stores(script, out, q as int, literal_value(val, (key / 2) as usize), val(pin) != (key % 2 == 1))
        }),
{
    let acts = p.comb_outputs_activations;
    lemma_counts(aig, staged, p, part, im, sm, off, script);
    assert(p.act_ok(id));
    law_activations_store_values(p, id, q, out, val);
    lemma_tail(aig, p, part, im, sm, off, script, out, q as int);
    if acts.first@[id] {
        p.shape.lemma_positions();
        let (pin, key) = acts.list@[id];
        assert(p.shape.pins().contains_key(pin));
        assert(q < 32 * normal_words(script));
    } else {
        let gq = p.shape.dup_gather_end() - (p.shape.dup_end() - q);
        lemma_flags_imply(acts.further_placed(), acts.further());
        assert(p.cnt_placed_duplicate_permute <= 32 * p.shape.num_duplicate_writeouts);
        lemma_tail(aig, p, part, im, sm, off, script, out, gq);
        assert(q >= 32 * normal_words(script));
        assert(gq == 128 * (script[4] + script[9]) + (q - 32 * (script[2] - script[4] - script[7])));
    }
}

/// Where an endpoint group that stores a bit by itself is placed, the script
/// stores its literal under its condition.
pub(super) proof fn lemma_stores(
    aig: AIG,
    staged: StagedAIG,
    p: FlatteningPart,
    part: Partition,
    im: Map<usize, u32>,
    sm: Map<usize, u32>,
    off: Map<usize, u32>,
    script: Seq<u32>,
    out: Seq<bool>,
    val: spec_fn(usize) -> bool,
    k: int,
)
    requires
        endpoints_readable(aig),
        staged.wf(aig),
        script_ok(aig, p, part, im, sm, off, script),
        part_flat(aig, staged, part, p),
        outs_hold(out, p.shape.pins(), val),
        !val(0),
        0 <= k < part.endpoints@.len(),
        stores_bit(staged.group(&aig, part.endpoints@[k] as int)),
    ensures
        ({
            let g = staged.group(&aig, part.endpoints@[k] as int);
            let (en, data) = stored_literals(g);
            let q = p.comb_outputs_activations.place_of(activation(g).unwrap());
            q is Some && stores(
                script,
                out,
                q.unwrap() as int,
                literal_value(val, en),
                literal_value(val, data),
            )
        }),
{
    let g = staged.group(&aig, part.endpoints@[k] as int);
    let acts = p.comb_outputs_activations;
    let (pin, key) = activation(g).unwrap();
    lemma_literals_small(aig, staged, part.endpoints@[k] as int);
    lemma_activation_known(aig, staged, part.endpoints@, k);
    assert(endpoint_stored(aig, staged, part, p, k));
    assert(group_of(&aig, &staged, &part, k) == g);
    assert(acts.list@.contains((pin, key)));
    assert(gate_view(acts.ids).contains_key((pin, key)));
    let id = acts.id((pin, key));
    let q = acts.place_of((pin, key)).unwrap();
    assert(acts.list@[id] == (pin, key));
    lemma_place_within(p, (pin, key));
    lemma_activation_stores(aig, staged, p, part, im, sm, off, script, out, val, id, q);
}

/// Endpoints store their values: running the script of a partition stores the
/// data of each of its flip-flops where the flip-flop is enabled, and each of its
/// outputs always.
pub proof fn law_endpoints_are_stored(
    aig: AIG,
    staged: StagedAIG,
    p: FlatteningPart,
    part: Partition,
    im: Map<usize, u32>,
    sm: Map<usize, u32>,
    off: Map<usize, u32>,
    script: Seq<u32>,
    out: Seq<bool>,
    val: spec_fn(usize) -> bool,
    k: int,
)
    requires
        endpoints_readable(aig),
        staged.wf(aig),
        script_ok(aig, p, part, im, sm, off, script),
        part_flat(aig, staged, part, p),
        outs_hold(out, p.shape.pins(), val),
        !val(0),
        0 <= k < part.endpoints@.len(),
    ensures
        match staged.group(&aig, part.endpoints@[k] as int) {
            EndpointGroup::DFF(dff) => dff.d_iv != 0 ==> exists|q: int| #[trigger]
                stores(script, out, q, literal_value(val, dff.en_iv), literal_value(val, dff.d_iv)),
            EndpointGroup::PrimaryOutput(idx) => exists|q: int| #[trigger]
                stores(script, out, q, true, literal_value(val, idx)),
            EndpointGroup::StagedIOPin(pin) => exists|q: int| #[trigger] stores(script, out, q, true, val(pin)),
            _ => true,
        },
{
    let g = staged.group(&aig, part.endpoints@[k] as int);
    if stores_bit(g) {
        lemma_stores(aig, staged, p, part, im, sm, off, script, out, val, k);
        lemma_literals_small(aig, staged, part.endpoints@[k] as int);
        let (en, data) = stored_literals(g);
        let q = p.comb_outputs_activations.place_of(activation(g).unwrap()).unwrap() as int;
        assert(stores(script, out, q, literal_value(val, en), literal_value(val, data)));
    }
}

/// The place of an input of a DSP among the 128 that are gathered for it, by the
/// name and bit of its pin.
pub open spec fn dsp_place(pin: Seq<char>, bit: Option<usize>) -> int {
    match bit {
        Some(b) => if pin == "A"@ {
            b as int
        } else if pin == "B"@ {
            27 + b
        } else if pin == "C"@ {
            45 + b
        } else {
            93 + b
        },
        None => 120,
    }
}

/// A DSP of a partition is stored under its number.
proof fn lemma_dsp(
    aig: AIG,
    staged: StagedAIG,
    p: FlatteningPart,
    part: Partition,
    im: Map<usize, u32>,
    sm: Map<usize, u32>,
    off: Map<usize, u32>,
    script: Seq<u32>,
    k: int,
)
    requires
        script_ok(aig, p, part, im, sm, off, script),
        part_flat(aig, staged, part, p),
        0 <= k < part.endpoints@.len(),
        staged.group(&aig, part.endpoints@[k] as int) is Macro,
    ensures
        ({
            let d = macros_among(aig, staged, part.endpoints@, k) as int;
            &&& dsp_stored(p.shape, p.tables, d, *staged.group(&aig, part.endpoints@[k] as int)->Macro_0)
            &&& d < script[9]
            &&& script[9] == p.shape.num_dsps
            &&& script[4] == p.shape.num_srams
            &&& normal_words(script) == p.shape.num_normal_writeouts
        }),
{
    let n = part.endpoints@.len() as int;
    lemma_counts(aig, staged, p, part, im, sm, off, script);
    lemma_before(aig, staged, part, k);
    lemma_before(aig, staged, part, n);
    lemma_before_grows(aig, staged, part, k + 1, n);
    assert(part.endpoints@.take(n) =~= part.endpoints@);
    assert(endpoint_stored(aig, staged, part, p, k));
}

/// DSPs compute on their inputs. Where endpoint group `k` is the DSP with number `d`
/// of its partition, the script gathers each of its inputs at the place of its pin,
/// then its clock enable, the code of its ALU state and whether it uses the
/// pre-adder; and it always stores its outputs that are used.
pub proof fn law_dsps_gather_their_inputs(
    aig: AIG,
    staged: StagedAIG,
    p: FlatteningPart,
    part: Partition,
    im: Map<usize, u32>,
    sm: Map<usize, u32>,
    off: Map<usize, u32>,
    script: Seq<u32>,
    out: Seq<bool>,
    val: spec_fn(usize) -> bool,
    k: int,
    pin: Seq<char>,
    bit: Option<usize>,
    b: int,
)
    requires
        script_ok(aig, p, part, im, sm, off, script),
        part_flat(aig, staged, part, p),
        outs_hold(out, p.shape.pins(), val),
        !val(0),
        0 <= k < part.endpoints@.len(),
        staged.group(&aig, part.endpoints@[k] as int) is Macro,
    ensures
        ({
            let m = *staged.group(&aig, part.endpoints@[k] as int)->Macro_0;
            let d = macros_among(aig, staged, part.endpoints@, k) as int;
            let lane = 128 * (script[4] + d);
            &&& d < script[9]
            &&& m.kind.spec_input_slot(pin, bit) matches Some(s) ==> gather_bit(
                script,
                out,
                lane + dsp_place(pin, bit),
            ) == literal_value(val, m.inputs@[s as int])
            &&& gather_bit(script, out, lane + 121) == literal_value(val, m.clk_en_iv)
            &&& m.kind matches MacroKind::Dsp48e2 { state, use_preadder } && {
                &&& gather_bit(script, out, lane + 122) == (state == DspState::Mult)
                &&& gather_bit(script, out, lane + 123) == (state == DspState::Mac)
                &&& gather_bit(script, out, lane + 124) == use_preadder
            }
            &&& 0 <= b < 48 && m.outputs@[b] != 0 ==> {
                let q = 32 * (normal_words(script) + 2 * d) + b;
                enable_bit(script, out, q) && !inverts_bit(script, q)
            }
        }),
{
    let m = *staged.group(&aig, part.endpoints@[k] as int)->Macro_0;
    let d = macros_among(aig, staged, part.endpoints@, k) as int;
    lemma_dsp(aig, staged, p, part, im, sm, off, script, k);
    lemma_dsp_lane(aig, p, part, im, sm, off, script, out, val, m, d);
    if let Some(s) = m.kind.spec_input_slot(pin, bit) {
        lemma_dsp_place(m.kind, pin, bit);
        assert(gather_bit(script, out, dsp_lane(p.shape, d) + s) == literal_value(val, m.inputs@[s as int]));
    }
    if 0 <= b < 48 && m.outputs@[b] != 0 {
        lemma_tail(aig, p, part, im, sm, off, script, out, dsp_bits(p.shape, d) + b);
    }
}

/// What a script gathers for a DSP that is stored.
proof fn lemma_dsp_lane(
    aig: AIG,
    p: FlatteningPart,
    part: Partition,
    im: Map<usize, u32>,
    sm: Map<usize, u32>,
    off: Map<usize, u32>,
    script: Seq<u32>,
    out: Seq<bool>,
    val: spec_fn(usize) -> bool,
    m: MacroInst,
    d: int,
)
    requires
        script_ok(aig, p, part, im, sm, off, script),
        p.wf(),
        outs_hold(out, p.shape.pins(), val),
        !val(0),
        0 <= d < p.shape.num_dsps,
        dsp_stored(p.shape, p.tables, d, m),
    ensures
        ({
            let lane = dsp_lane(p.shape, d);
            &&& forall|s: int|
                0 <= s < 121 ==> gather_bit(script, out, lane + s) == literal_value(val, #[trigger] m.inputs@[s])
            &&& gather_bit(script, out, lane + 121) == literal_value(val, m.clk_en_iv)
            &&& m.kind matches MacroKind::Dsp48e2 { state, use_preadder } && {
                &&& gather_bit(script, out, lane + 122) == (state == DspState::Mult)
                &&& gather_bit(script, out, lane + 123) == (state == DspState::Mac)
                &&& gather_bit(script, out, lane + 124) == use_preadder
            }
        }),
{
    let lane = dsp_lane(p.shape, d);
    let pins = p.shape.pins();
    assert forall|s: int| 0 <= s < 121 implies gather_bit(script, out, lane + s) == literal_value(
        val,
        #[trigger] m.inputs@[s],
    ) by {
        lemma_tail(aig, p, part, im, sm, off, script, out, lane + s);
        law_literal_codes_hold(pins, m.inputs@[s], out, val);
    }
    lemma_tail(aig, p, part, im, sm, off, script, out, lane + 121);
    lemma_tail(aig, p, part, im, sm, off, script, out, lane + 122);
    lemma_tail(aig, p, part, im, sm, off, script, out, lane + 123);
    lemma_tail(aig, p, part, im, sm, off, script, out, lane + 124);
    law_literal_codes_hold(pins, m.clk_en_iv, out, val);
}

/// The inputs of a DSP are gathered in the order of their slots.
proof fn lemma_dsp_place(kind: MacroKind, pin: Seq<char>, bit: Option<usize>)
    requires
        kind is Dsp48e2,
    ensures
        kind.spec_input_slot(pin, bit) matches Some(s) ==> s == dsp_place(pin, bit) && s < 121,
{
    reveal_strlit("A");
    reveal_strlit("B");
    reveal_strlit("C");
    reveal_strlit("D");
    reveal_strlit("CEP");
    assert("A"@[0] == 'A' && "B"@[0] == 'B' && "C"@[0] == 'C' && "D"@[0] == 'D');
    assert("CEP"@.len() == 3);
}

} // verus!
