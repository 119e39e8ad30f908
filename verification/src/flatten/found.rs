//! Where a flattened script finds what its partitions store.

use super::assemble::{final_offsets, flattened_with, layout_map, FlattenedScriptV1};
use super::laws::{lemma_place, lemma_sums_grow};
use super::machine::{
    lemma_before, lemma_before_grows, lemma_counts, lemma_stores, normal_words, rams_before, stored_literals, stores,
    stores_bit,
};
use super::memory::lemma_words;
use super::outputs::{
    dsp_state, input_map_after, input_step, output_map_after, output_step, ram_state, sram_data_ok, staged_map_after,
    staged_step, stored_at, with_dsp, with_ram,
};
use super::part::{count_dsps, FlatteningPart};
use super::script::script_ok;
use super::semantics::outs_hold;
use super::stages::{maps_after, part_flat, stage_flat, FlatStage, MapsView, Sums};
use crate::aig::{literal_value, EndpointGroup, RAMBlock, AIG};
use crate::collections::{pos_view, set_items};
use crate::macros::MacroInst;
use crate::pe::budget::{activation, count_words, endpoints_readable};
use crate::pe::commits::macros_among;
use crate::pe::partition::Partition;
use crate::staging::StagedAIG;
use vstd::prelude::*;

verus! {

/// Does a script store a literal under a condition at bit `at` of the state, whatever
/// the values of pins are? Word 3 of a script is the word of the state at which it
/// begins to store.
pub open spec fn stored_there(p: FlatteningPart, script: Seq<u32>, at: int, en: usize, data: usize) -> bool {
    forall|out: Seq<bool>, val: spec_fn(usize) -> bool|
        #[trigger] outs_hold(out, p.shape.pins(), val) && !val(0) ==> stores(
            script,
            out,
            at - 32 * script[3],
            literal_value(val, en),
            literal_value(val, data),
        )
}

/// The bit of the state at which bit `b` of SRAM `r` is read to: the last words that a
/// script stores are those of its SRAMs.
pub open spec fn ram_bit(script: Seq<u32>, r: nat, b: int) -> int {
    32 * (script[3] + script[2] - script[4] + r) + b
}

/// The bit of the state at which output `b` of DSP `d` is: two words for each DSP come
/// behind what the stages write out.
pub open spec fn dsp_bit(script: Seq<u32>, d: nat, b: int) -> int {
    32 * (script[3] + normal_words(script) + 2 * d) + b
}

/// Is bit `b` of the SRAM's read data the pin, and found at the given bit?
pub open spec fn is_ram_bit(script: Seq<u32>, ram: RAMBlock, r: nat, b: int, pin: usize, at: int) -> bool {
    0 <= b < 32 && ram.port_r_rd_data@[b] == pin && pin != usize::MAX && at == ram_bit(script, r, b)
}

/// Is output `b` of the DSP the pin, and found at the given bit?
pub open spec fn is_dsp_bit(script: Seq<u32>, m: MacroInst, d: nat, b: int, pin: usize, at: int) -> bool {
    0 <= b < 48 && m.outputs@[b] == pin && pin != 0 && at == dsp_bit(script, d, b)
}

/// A partition with its script and all that belongs to it.
pub ghost struct Home {
    pub staged: StagedAIG,
    pub part: Partition,
    pub p: FlatteningPart,
    pub script: Seq<u32>,
}

/// Is a pin that partitions read kept by endpoint group `k`, at bit `at` of the state?
/// Flip-flops keep what they store, and those that always store zero are found at the
/// bit `zero`; SRAMs keep what they read, and DSPs their outputs.
pub open spec fn keeps_input(aig: AIG, h: Home, zero: int, k: int, pin: usize, at: int) -> bool {
    0 <= k < h.part.endpoints@.len() && match h.staged.group(&aig, h.part.endpoints@[k] as int) {
        EndpointGroup::DFF(dff) => dff.q == pin && if dff.d_iv == 0 {
            at == zero
        } else {
            stored_there(h.p, h.script, at, dff.en_iv, dff.d_iv)
        },
        EndpointGroup::RAMBlock(ram) => exists|b: int| #[trigger]
            is_ram_bit(h.script, *ram, rams_before(aig, h.staged, h.part, k), b, pin, at),
        EndpointGroup::Macro(m) => exists|b: int| #[trigger]
            is_dsp_bit(h.script, *m, macros_among(aig, h.staged, h.part.endpoints@, k), b, pin, at),
        _ => false,
    }
}

/// Is a literal kept by endpoint group `k`, at bit `at` of the state? Outputs keep their
/// literals, flip-flops the ones that they store, and SRAMs the pins that they read to.
pub open spec fn keeps_output(aig: AIG, h: Home, k: int, lit: usize, at: int) -> bool {
    0 <= k < h.part.endpoints@.len() && match h.staged.group(&aig, h.part.endpoints@[k] as int) {
        EndpointGroup::PrimaryOutput(idx) => idx == lit && stored_there(h.p, h.script, at, 1, idx),
        EndpointGroup::DFF(dff) => dff.d_iv == lit && dff.d_iv != 0 && stored_there(
            h.p,
            h.script,
            at,
            dff.en_iv,
            dff.d_iv,
        ),
        EndpointGroup::RAMBlock(ram) => lit % 2 == 0 && exists|b: int| #[trigger]
            is_ram_bit(h.script, *ram, rams_before(aig, h.staged, h.part, k), b, (lit / 2) as usize, at),
        _ => false,
    }
}

/// Is a pin for later major stages kept by endpoint group `k`, at bit `at` of the state?
pub open spec fn keeps_staged(aig: AIG, h: Home, k: int, pin: usize, at: int) -> bool {
    0 <= k < h.part.endpoints@.len() && (h.staged.group(&aig, h.part.endpoints@[k] as int)
        matches EndpointGroup::StagedIOPin(idx) && idx == pin && stored_there(h.p, h.script, at, 1, (2 * idx) as usize))
}

/// Is this a flattened partition with its script, within a state of the largest size?
pub open spec fn is_home(aig: AIG, h: Home, im: Map<usize, u32>, sm: Map<usize, u32>, off: Map<usize, u32>) -> bool {
    &&& h.staged.wf(aig)
    &&& script_ok(aig, h.p, h.part, im, sm, off, h.script)
    &&& part_flat(aig, h.staged, h.part, h.p)
    &&& h.p.starts.state_start + h.p.shape.num_writeouts <= 0x0800_0000
}

/// A bit of an SRAM that is found was there before, or is one of the SRAM.
proof fn lemma_with_ram(base: Map<usize, u32>, ram: RAMBlock, at: int, n: nat, literal: bool, key: usize) -> (b: int)
    requires
        n <= 32,
        0 <= at,
        at + 32 <= 0x1_0000_0000,
        literal ==> forall|k: int|
            0 <= k < 32 ==> (#[trigger] ram.port_r_rd_data@[k] == usize::MAX || ram.port_r_rd_data@[k] <= usize::MAX
                / 4),
        with_ram(base, ram, at, n, literal).contains_key(key),
    ensures
        ({
            let v = with_ram(base, ram, at, n, literal)[key];
            let pin = if literal {
                (key / 2) as usize
            } else {
                key
            };
            (base.contains_key(key) && v == base[key]) || (0 <= b < 32 && ram.port_r_rd_data@[b] == pin && pin
                != usize::MAX && v == at + b && (literal ==> key % 2 == 0))
        }),
    decreases n,
{
    if n == 0 {
        0
    } else {
        let rest = with_ram(base, ram, at, (n - 1) as nat, literal);
        let d = ram.port_r_rd_data@[n - 1];
        let here = d != usize::MAX && key == (if literal {
            (d * 2) as usize
        } else {
            d
        });
        if here {
            n - 1
        } else {
            lemma_with_ram(base, ram, at, (n - 1) as nat, literal, key)
        }
    }
}

/// An output of a DSP that is found was there before, or is one of the DSP.
proof fn lemma_with_dsp(base: Map<usize, u32>, m: MacroInst, at: int, n: nat, key: usize) -> (b: int)
    requires
        n <= 48,
        0 <= at,
        at + 64 <= 0x1_0000_0000,
        with_dsp(base, m, at, n).contains_key(key),
    ensures
        ({
            let v = with_dsp(base, m, at, n)[key];
            (base.contains_key(key) && v == base[key]) || (0 <= b < 48 && m.outputs@[b] == key && key != 0 && v == at
                + b)
        }),
    decreases n,
{
    if n == 0 {
        0
    } else if m.outputs@[n - 1] != 0 && m.outputs@[n - 1] == key {
        n - 1
    } else {
        lemma_with_dsp(base, m, at, (n - 1) as nat, key)
    }
}

/// What an endpoint group stores by itself is where it is found.
proof fn lemma_stored_there(aig: AIG, h: Home, im: Map<usize, u32>, sm: Map<usize, u32>, off: Map<usize, u32>, k: int)
    requires
        endpoints_readable(aig),
        is_home(aig, h, im, sm, off),
        0 <= k < h.part.endpoints@.len(),
        stores_bit(h.staged.group(&aig, h.part.endpoints@[k] as int)),
    ensures
        ({
            let g = h.staged.group(&aig, h.part.endpoints@[k] as int);
            let (en, data) = stored_literals(g);
            stored_there(h.p, h.script, stored_at(h.p, activation(g).unwrap()) as int, en, data)
        }),
{
    let g = h.staged.group(&aig, h.part.endpoints@[k] as int);
    let (en, data) = stored_literals(g);
    let a = activation(g).unwrap();
    let at = stored_at(h.p, a) as int;
    let q = h.p.comb_outputs_activations.place_of(a);
    lemma_counts(aig, h.staged, h.p, h.part, im, sm, off, h.script);
    assert forall|out: Seq<bool>, val: spec_fn(usize) -> bool|
        #[trigger] outs_hold(out, h.p.shape.pins(), val) && !val(0) implies stores(
        h.script,
        out,
        at - 32 * h.script[3],
        literal_value(val, en),
        literal_value(val, data),
    ) by {
        lemma_stores(aig, h.staged, h.p, h.part, im, sm, off, h.script, out, val, k);
        assert(q.unwrap() < 32 * h.script[2]);
        assert(at == 32 * h.script[3] + q.unwrap());
    }
}

/// The number and the bounds of the SRAM or DSP that an endpoint group is.
proof fn lemma_number(aig: AIG, h: Home, im: Map<usize, u32>, sm: Map<usize, u32>, off: Map<usize, u32>, k: int)
    requires
        is_home(aig, h, im, sm, off),
        0 <= k < h.part.endpoints@.len(),
    ensures
        ({
            let g = h.staged.group(&aig, h.part.endpoints@[k] as int);
            let before = h.part.endpoints@.take(k);
            let r = rams_before(aig, h.staged, h.part, k);
            let d = macros_among(aig, h.staged, h.part.endpoints@, k);
            &&& count_words(aig, h.staged, before).0 == r
            &&& count_dsps(aig, h.staged, before) == d
            &&& g is RAMBlock ==> 0 <= ram_state(h.p, r as int) && ram_state(h.p, r as int) + 32 <= 0x1_0000_0000
                && ram_state(h.p, r as int) == ram_bit(h.script, r, 0)
            &&& g is Macro ==> 0 <= dsp_state(h.p, d as int) && dsp_state(h.p, d as int) + 64 <= 0x1_0000_0000
                && dsp_state(h.p, d as int) == dsp_bit(h.script, d, 0)
        }),
{
    let n = h.part.endpoints@.len() as int;
    lemma_counts(aig, h.staged, h.p, h.part, im, sm, off, h.script);
    lemma_before(aig, h.staged, h.part, k);
    lemma_before(aig, h.staged, h.part, n);
    lemma_before_grows(aig, h.staged, h.part, k + 1, n);
    assert(h.part.endpoints@.take(n) =~= h.part.endpoints@);
}

/// The pins that an SRAM reads to are pins of the graph.
proof fn lemma_read_data(aig: AIG, staged: StagedAIG, e: int, ram: RAMBlock)
    requires
        endpoints_readable(aig),
        sram_data_ok(aig),
        staged.wf(aig),
        0 <= e < staged.group_count(),
        staged.group(&aig, e) matches EndpointGroup::RAMBlock(r) && *r == ram,
    ensures
        forall|k: int|
            0 <= k < 32 ==> (#[trigger] ram.port_r_rd_data@[k] == usize::MAX || ram.port_r_rd_data@[k] <= usize::MAX
                / 4),
{
    let i = staged.endpoints@[e - staged.primary_output_pins@.len()];
    assert(i < aig.endpoint_count());
    let j = i - set_items(aig.primary_outputs).len() - aig.dffs.vals().len();
    assert(ram == aig.srams.vals()[j]);
    assert forall|k: int| 0 <= k < 32 implies (#[trigger] ram.port_r_rd_data@[k] == usize::MAX
        || ram.port_r_rd_data@[k] <= usize::MAX / 4) by {
        assert(aig.srams.vals()[j].port_r_rd_data@[k] == usize::MAX || aig.srams.vals()[j].port_r_rd_data@[k]
            <= aig.num_aigpins);
    }
}

/// What one more endpoint group makes a pin that partitions read was found before, or is kept by the group.
proof fn lemma_input_step(
    aig: AIG,
    h: Home,
    im: Map<usize, u32>,
    sm: Map<usize, u32>,
    off: Map<usize, u32>,
    zero: int,
    k: int,
    rest: Map<usize, u32>,
    key: usize,
)
    requires
        endpoints_readable(aig),
        sram_data_ok(aig),
        is_home(aig, h, im, sm, off),
        h.p.starts.zero_bit_pos == zero,
        0 <= k < h.part.endpoints@.len(),
        input_step(
            h.p,
            rams_before(aig, h.staged, h.part, k) as int,
            macros_among(aig, h.staged, h.part.endpoints@, k) as int,
            h.staged.group(&aig, h.part.endpoints@[k] as int),
            rest,
        ).contains_key(key),
    ensures
        ({
            let v = input_step(
            h.p,
            rams_before(aig, h.staged, h.part, k) as int,
            macros_among(aig, h.staged, h.part.endpoints@, k) as int,
            h.staged.group(&aig, h.part.endpoints@[k] as int),
            rest,
        )[key];
            (rest.contains_key(key) && v == rest[key]) || keeps_input(aig, h, zero, k, key, v as int)
        }),
{
    let e = h.part.endpoints@[k] as int;
    let g = h.staged.group(&aig, e);
    lemma_number(aig, h, im, sm, off, k);
    if stores_bit(g) {
        lemma_stored_there(aig, h, im, sm, off, k);
    }
    let r = rams_before(aig, h.staged, h.part, k);
    let d = macros_among(aig, h.staged, h.part.endpoints@, k);
    let all = input_step(h.p, r as int, d as int, g, rest);
    let v = all[key] as int;
    if !(rest.contains_key(key) && all[key] == rest[key]) {
        match g {
            EndpointGroup::RAMBlock(ram) => {
                let b = lemma_with_ram(rest, *ram, ram_state(h.p, r as int), 32, false, key);
                assert(is_ram_bit(h.script, *ram, r, b, key, v));
            },
            EndpointGroup::Macro(m) => {
                let b = lemma_with_dsp(rest, *m, dsp_state(h.p, d as int), 48, key);
                assert(is_dsp_bit(h.script, *m, d, b, key, v));
            },
            _ => {},
        }
    }
}

/// What the first `n` endpoint groups of a partition make a pin that partitions read was found before, or is
/// kept by one of them.
proof fn lemma_input_part(
    aig: AIG,
    h: Home,
    im: Map<usize, u32>,
    sm: Map<usize, u32>,
    off: Map<usize, u32>,
    zero: int,
    n: int,
    base: Map<usize, u32>,
    key: usize,
)
    requires
        endpoints_readable(aig),
        sram_data_ok(aig),
        is_home(aig, h, im, sm, off),
        h.p.starts.zero_bit_pos == zero,
        0 <= n <= h.part.endpoints@.len(),
        input_map_after(aig, h.staged, h.p, h.part.endpoints@.take(n), base).contains_key(key),
    ensures
        ({
            let v = input_map_after(aig, h.staged, h.p, h.part.endpoints@.take(n), base)[key];
            (base.contains_key(key) && v == base[key]) || exists|k: int| #[trigger]
                keeps_input(aig, h, zero, k, key, v as int)
        }),
    decreases n,
{
    let eps = h.part.endpoints@.take(n);
    if n > 0 {
        let before = h.part.endpoints@.take(n - 1);
        assert(eps.drop_last() =~= before);
        assert(eps.last() == h.part.endpoints@[n - 1]);
        let rest = input_map_after(aig, h.staged, h.p, before, base);
        let k = n - 1;
        lemma_number(aig, h, im, sm, off, k);
        lemma_input_step(aig, h, im, sm, off, zero, k, rest, key);
        let v = input_map_after(aig, h.staged, h.p, eps, base)[key];
        if !keeps_input(aig, h, zero, k, key, v as int) {
            lemma_input_part(aig, h, im, sm, off, zero, n - 1, base, key);
        }
    } else {
        assert(eps =~= Seq::<usize>::empty());
    }
}

/// What one more endpoint group makes a literal was found before, or is kept by the group.
proof fn lemma_output_step(
    aig: AIG,
    h: Home,
    im: Map<usize, u32>,
    sm: Map<usize, u32>,
    off: Map<usize, u32>,
    zero: int,
    k: int,
    rest: Map<usize, u32>,
    key: usize,
)
    requires
        endpoints_readable(aig),
        sram_data_ok(aig),
        is_home(aig, h, im, sm, off),
        h.p.starts.zero_bit_pos == zero,
        0 <= k < h.part.endpoints@.len(),
        output_step(
            h.p,
            rams_before(aig, h.staged, h.part, k) as int,
            h.staged.group(&aig, h.part.endpoints@[k] as int),
            rest,
        ).contains_key(key),
    ensures
        ({
            let v = output_step(
            h.p,
            rams_before(aig, h.staged, h.part, k) as int,
            h.staged.group(&aig, h.part.endpoints@[k] as int),
            rest,
        )[key];
            (rest.contains_key(key) && v == rest[key]) || keeps_output(aig, h, k, key, v as int)
        }),
{
    let e = h.part.endpoints@[k] as int;
    let g = h.staged.group(&aig, e);
    lemma_number(aig, h, im, sm, off, k);
    if stores_bit(g) {
        lemma_stored_there(aig, h, im, sm, off, k);
    }
    let r = rams_before(aig, h.staged, h.part, k);
    let all = output_step(h.p, r as int, g, rest);
    let v = all[key] as int;
    if !(rest.contains_key(key) && all[key] == rest[key]) {
        if let EndpointGroup::RAMBlock(ram) = g {
            lemma_read_data(aig, h.staged, e, *ram);
            let b = lemma_with_ram(rest, *ram, ram_state(h.p, r as int), 32, true, key);
            assert(is_ram_bit(h.script, *ram, r, b, (key / 2) as usize, v));
        }
    }
}

/// What the first `n` endpoint groups of a partition make a literal was found before, or is
/// kept by one of them.
proof fn lemma_output_part(
    aig: AIG,
    h: Home,
    im: Map<usize, u32>,
    sm: Map<usize, u32>,
    off: Map<usize, u32>,
    zero: int,
    n: int,
    base: Map<usize, u32>,
    key: usize,
)
    requires
        endpoints_readable(aig),
        sram_data_ok(aig),
        is_home(aig, h, im, sm, off),
        h.p.starts.zero_bit_pos == zero,
        0 <= n <= h.part.endpoints@.len(),
        output_map_after(aig, h.staged, h.p, h.part.endpoints@.take(n), base).contains_key(key),
    ensures
        ({
            let v = output_map_after(aig, h.staged, h.p, h.part.endpoints@.take(n), base)[key];
            (base.contains_key(key) && v == base[key]) || exists|k: int| #[trigger]
                keeps_output(aig, h, k, key, v as int)
        }),
    decreases n,
{
    let eps = h.part.endpoints@.take(n);
    if n > 0 {
        let before = h.part.endpoints@.take(n - 1);
        assert(eps.drop_last() =~= before);
        assert(eps.last() == h.part.endpoints@[n - 1]);
        let rest = output_map_after(aig, h.staged, h.p, before, base);
        let k = n - 1;
        lemma_number(aig, h, im, sm, off, k);
        lemma_output_step(aig, h, im, sm, off, zero, k, rest, key);
        let v = output_map_after(aig, h.staged, h.p, eps, base)[key];
        if !keeps_output(aig, h, k, key, v as int) {
            lemma_output_part(aig, h, im, sm, off, zero, n - 1, base, key);
        }
    } else {
        assert(eps =~= Seq::<usize>::empty());
    }
}

/// What one more endpoint group makes a pin for later major stages was found before, or is kept by the group.
proof fn lemma_staged_step(
    aig: AIG,
    h: Home,
    im: Map<usize, u32>,
    sm: Map<usize, u32>,
    off: Map<usize, u32>,
    zero: int,
    k: int,
    rest: Map<usize, u32>,
    key: usize,
)
    requires
        endpoints_readable(aig),
        sram_data_ok(aig),
        is_home(aig, h, im, sm, off),
        h.p.starts.zero_bit_pos == zero,
        0 <= k < h.part.endpoints@.len(),
        staged_step(h.p, h.staged.group(&aig, h.part.endpoints@[k] as int), rest).contains_key(key),
    ensures
        ({
            let v = staged_step(h.p, h.staged.group(&aig, h.part.endpoints@[k] as int), rest)[key];
            (rest.contains_key(key) && v == rest[key]) || keeps_staged(aig, h, k, key, v as int)
        }),
{
    let e = h.part.endpoints@[k] as int;
    let g = h.staged.group(&aig, e);
    lemma_number(aig, h, im, sm, off, k);
    if stores_bit(g) {
        lemma_stored_there(aig, h, im, sm, off, k);
    }
}

/// What the first `n` endpoint groups of a partition make a pin for later major stages was found before, or is
/// kept by one of them.
proof fn lemma_staged_part(
    aig: AIG,
    h: Home,
    im: Map<usize, u32>,
    sm: Map<usize, u32>,
    off: Map<usize, u32>,
    zero: int,
    n: int,
    base: Map<usize, u32>,
    key: usize,
)
    requires
        endpoints_readable(aig),
        sram_data_ok(aig),
        is_home(aig, h, im, sm, off),
        h.p.starts.zero_bit_pos == zero,
        0 <= n <= h.part.endpoints@.len(),
        staged_map_after(aig, h.staged, h.p, h.part.endpoints@.take(n), base).contains_key(key),
    ensures
        ({
            let v = staged_map_after(aig, h.staged, h.p, h.part.endpoints@.take(n), base)[key];
            (base.contains_key(key) && v == base[key]) || exists|k: int| #[trigger]
                keeps_staged(aig, h, k, key, v as int)
        }),
    decreases n,
{
    let eps = h.part.endpoints@.take(n);
    if n > 0 {
        let before = h.part.endpoints@.take(n - 1);
        assert(eps.drop_last() =~= before);
        assert(eps.last() == h.part.endpoints@[n - 1]);
        let rest = staged_map_after(aig, h.staged, h.p, before, base);
        let k = n - 1;
        lemma_number(aig, h, im, sm, off, k);
        lemma_staged_step(aig, h, im, sm, off, zero, k, rest, key);
        let v = staged_map_after(aig, h.staged, h.p, eps, base)[key];
        if !keeps_staged(aig, h, k, key, v as int) {
            lemma_staged_part(aig, h, im, sm, off, zero, n - 1, base, key);
        }
    } else {
        assert(eps =~= Seq::<usize>::empty());
    }
}

/// Partition `i` of major stage `s`.
pub open spec fn home(
    stageds: Seq<&StagedAIG>,
    parts: Seq<&[Partition]>,
    flats: Seq<FlatStage>,
    scripts: Seq<Vec<Vec<u32>>>,
    s: int,
    i: int,
) -> Home {
    Home { staged: *stageds[s], part: parts[s]@[i], p: flats[s].parts@[i], script: scripts[s]@[i]@ }
}

/// Is this the number of a partition?
pub open spec fn is_part(parts: Seq<&[Partition]>, s: int, i: int) -> bool {
    0 <= s < parts.len() && 0 <= i < parts[s]@.len()
}

/// Are all partitions flattened, with their scripts?
spec fn all_homes(
    aig: AIG,
    stageds: Seq<&StagedAIG>,
    parts: Seq<&[Partition]>,
    flats: Seq<FlatStage>,
    scripts: Seq<Vec<Vec<u32>>>,
    zero: int,
    im: Map<usize, u32>,
    sm: Map<usize, u32>,
    off: Map<usize, u32>,
) -> bool {
    forall|s: int, i: int| #[trigger] is_part(parts, s, i) ==> {
        let h = home(stageds, parts, flats, scripts, s, i);
        is_home(aig, h, im, sm, off) && h.p.starts.zero_bit_pos == zero
    }
}

/// Does each major stage add to the maps what its partitions keep?
spec fn maps_linked(
    aig: AIG,
    stageds: Seq<&StagedAIG>,
    parts: Seq<&[Partition]>,
    flats: Seq<FlatStage>,
    maps: Seq<MapsView>,
) -> bool {
    forall|s: int|
        0 <= s < parts.len() ==> #[trigger] maps[s + 1] == maps_after(
            aig,
            *stageds[s],
            parts[s]@,
            flats[s].parts@,
            parts[s]@.len(),
            maps[s],
        )
}

/// What every user of a flattened script may count on.
pub open spec fn graph_fits(aig: AIG, stageds: Seq<&StagedAIG>, parts: Seq<&[Partition]>, layout: Seq<usize>) -> bool {
    &&& endpoints_readable(aig)
    &&& sram_data_ok(aig)
    &&& forall|s: int| 0 <= s < parts.len() ==> (#[trigger] stageds[s]).wf(aig)
    &&& forall|s: int| 0 <= s < parts.len() ==> (#[trigger] parts[s])@.len() <= usize::MAX
    &&& layout.len() <= 0xffff_ffe0
}

/// The bit of the state that always reads zero: the first one of the word behind the
/// primary inputs.
pub open spec fn zero_bit(layout: Seq<usize>) -> int {
    (layout.len() as int + 31) / 32 * 32
}

proof fn lemma_homes(
    aig: AIG,
    stageds: Seq<&StagedAIG>,
    parts: Seq<&[Partition]>,
    num_blocks: usize,
    layout: Seq<usize>,
    sums: Seq<Sums>,
    maps: Seq<MapsView>,
    flats: Seq<FlatStage>,
    scripts: Seq<Vec<Vec<u32>>>,
    f: FlattenedScriptV1,
)
    requires
        flattened_with(aig, stageds, parts, num_blocks, layout, sums, maps, flats, scripts, f),
        num_blocks >= 1,
        graph_fits(aig, stageds, parts, layout),
    ensures
        all_homes(
            aig,
            stageds,
            parts,
            flats,
            scripts,
            zero_bit(layout),
            maps[parts.len() as int].input,
            maps[parts.len() as int].staged_io,
            final_offsets(aig, parts, flats, f.sram_storage_size).off,
        ),
{
    let n = parts.len() as int;
    let nb = num_blocks as nat;
    let zero_word = ((layout.len() + 31) / 32) as u32;
    assert forall|s: int, i: int| #[trigger] is_part(parts, s, i) implies ({
        let h = home(stageds, parts, flats, scripts, s, i);
        is_home(
            aig,
            h,
            maps[n].input,
            maps[n].staged_io,
            final_offsets(aig, parts, flats, f.sram_storage_size).off,
        ) && h.p.starts.zero_bit_pos == zero_bit(layout)
    }) by {
        assert(stageds[s].wf(aig));
        assert(parts[s]@.len() <= usize::MAX);
        lemma_words(aig, stageds, parts, num_blocks, layout, sums, maps, flats, scripts, f, s, i);
        let (b, k) = lemma_place(aig, *stageds[s], parts[s]@, nb, zero_word, sums[s], sums[s + 1], maps[s], maps[s + 1],
            flats[s], i);
        lemma_sums_grow(aig, stageds, parts, num_blocks, layout, n, sums, maps, flats, s + 1, n);
    }
}

proof fn lemma_maps_linked(
    aig: AIG,
    stageds: Seq<&StagedAIG>,
    parts: Seq<&[Partition]>,
    num_blocks: usize,
    layout: Seq<usize>,
    sums: Seq<Sums>,
    maps: Seq<MapsView>,
    flats: Seq<FlatStage>,
    scripts: Seq<Vec<Vec<u32>>>,
    f: FlattenedScriptV1,
)
    requires
        flattened_with(aig, stageds, parts, num_blocks, layout, sums, maps, flats, scripts, f),
    ensures
        maps_linked(aig, stageds, parts, flats, maps),
{
    assert forall|s: int| 0 <= s < parts.len() implies #[trigger] maps[s + 1] == maps_after(
        aig,
        *stageds[s],
        parts[s]@,
        flats[s].parts@,
        parts[s]@.len(),
        maps[s],
    ) by {
        let zero_word = ((layout.len() + 31) / 32) as u32;
        assert(stage_flat(
            aig,
            *stageds[s],
            parts[s]@,
            num_blocks as nat,
            zero_word,
            sums[s],
            sums[s + 1],
            maps[s],
            maps[s + 1],
            flats[s],
        ));
    }
}

/// Is a pin that partitions read kept by some partition, at the given bit of the state?
pub open spec fn input_kept(
    aig: AIG,
    stageds: Seq<&StagedAIG>,
    parts: Seq<&[Partition]>,
    flats: Seq<FlatStage>,
    scripts: Seq<Vec<Vec<u32>>>,
    zero: int,
    key: usize,
    at: int,
) -> bool {
    exists|s: int, i: int, k: int|
        is_part(parts, s, i) && #[trigger] keeps_input(
            aig,
            home(stageds, parts, flats, scripts, s, i),
            zero, k,
            key,
            at,
        )
}

proof fn lemma_input_stage(
    aig: AIG,
    stageds: Seq<&StagedAIG>,
    parts: Seq<&[Partition]>,
    flats: Seq<FlatStage>,
    scripts: Seq<Vec<Vec<u32>>>,
    zero: int,
    im: Map<usize, u32>,
    sm: Map<usize, u32>,
    off: Map<usize, u32>,
    s: int,
    n: nat,
    base: MapsView,
    key: usize,
)
    requires
        endpoints_readable(aig),
        sram_data_ok(aig),
        all_homes(aig, stageds, parts, flats, scripts, zero, im, sm, off),
        0 <= s < parts.len(),
        n <= parts[s]@.len(),
        maps_after(aig, *stageds[s], parts[s]@, flats[s].parts@, n, base).input.contains_key(key),
    ensures
        ({
            let v = maps_after(aig, *stageds[s], parts[s]@, flats[s].parts@, n, base).input[key];
            (base.input.contains_key(key) && v == base.input[key]) || input_kept(
                aig,
                stageds,
                parts,
                flats,
                scripts,
                zero, key,
                v as int,
            )
        }),
    decreases n,
{
    if n > 0 {
        let i = n - 1;
        let h = home(stageds, parts, flats, scripts, s, i);
        assert(is_part(parts, s, i));
        let rest = maps_after(aig, *stageds[s], parts[s]@, flats[s].parts@, (n - 1) as nat, base);
        let eps = h.part.endpoints@;
        assert(eps.take(eps.len() as int) =~= eps);
        lemma_input_part(aig, h, im, sm, off, zero, eps.len() as int, rest.input, key);
        let v = maps_after(aig, *stageds[s], parts[s]@, flats[s].parts@, n, base).input[key] as int;
        if rest.input.contains_key(key) && rest.input[key] == v {
            lemma_input_stage(aig, stageds, parts, flats, scripts, zero, im, sm, off, s, (n - 1) as nat, base, key);
        } else {
            let k = choose|k: int| #[trigger] keeps_input(aig, h, zero, k, key, v);
            assert(keeps_input(aig, home(stageds, parts, flats, scripts, s, i), zero, k, key, v));
        }
    }
}

proof fn lemma_input_stages(
    aig: AIG,
    stageds: Seq<&StagedAIG>,
    parts: Seq<&[Partition]>,
    flats: Seq<FlatStage>,
    scripts: Seq<Vec<Vec<u32>>>,
    zero: int,
    im: Map<usize, u32>,
    sm: Map<usize, u32>,
    off: Map<usize, u32>,
    maps: Seq<MapsView>,
    n: int,
    key: usize,
)
    requires
        endpoints_readable(aig),
        sram_data_ok(aig),
        all_homes(aig, stageds, parts, flats, scripts, zero, im, sm, off),
        maps_linked(aig, stageds, parts, flats, maps),
        0 <= n <= parts.len(),
        maps[n].input.contains_key(key),
    ensures
        (maps[0].input.contains_key(key) && maps[n].input[key] == maps[0].input[key]) || input_kept(
            aig,
            stageds,
            parts,
            flats,
            scripts,
            zero, key,
            maps[n].input[key] as int,
        ),
    decreases n,
{
    if n > 0 {
        let s = n - 1;
        assert(maps[s + 1] == maps_after(
            aig,
            *stageds[s],
            parts[s]@,
            flats[s].parts@,
            parts[s]@.len(),
            maps[s],
        ));
        lemma_input_stage(
            aig,
            stageds,
            parts,
            flats,
            scripts,
            zero,
            im,
            sm,
            off,
            s,
            parts[s]@.len(),
            maps[s],
            key,
        );
        if maps[s].input.contains_key(key) && maps[s].input[key] == maps[n].input[key] {
            lemma_input_stages(aig, stageds, parts, flats, scripts, zero, im, sm, off, maps, s, key);
        }
    }
}

/// Is a literal kept by some partition, at the given bit of the state?
pub open spec fn output_kept(
    aig: AIG,
    stageds: Seq<&StagedAIG>,
    parts: Seq<&[Partition]>,
    flats: Seq<FlatStage>,
    scripts: Seq<Vec<Vec<u32>>>,
    key: usize,
    at: int,
) -> bool {
    exists|s: int, i: int, k: int|
        is_part(parts, s, i) && #[trigger] keeps_output(
            aig,
            home(stageds, parts, flats, scripts, s, i),
            k,
            key,
            at,
        )
}

proof fn lemma_output_stage(
    aig: AIG,
    stageds: Seq<&StagedAIG>,
    parts: Seq<&[Partition]>,
    flats: Seq<FlatStage>,
    scripts: Seq<Vec<Vec<u32>>>,
    zero: int,
    im: Map<usize, u32>,
    sm: Map<usize, u32>,
    off: Map<usize, u32>,
    s: int,
    n: nat,
    base: MapsView,
    key: usize,
)
    requires
        endpoints_readable(aig),
        sram_data_ok(aig),
        all_homes(aig, stageds, parts, flats, scripts, zero, im, sm, off),
        0 <= s < parts.len(),
        n <= parts[s]@.len(),
        maps_after(aig, *stageds[s], parts[s]@, flats[s].parts@, n, base).output.contains_key(key),
    ensures
        ({
            let v = maps_after(aig, *stageds[s], parts[s]@, flats[s].parts@, n, base).output[key];
            (base.output.contains_key(key) && v == base.output[key]) || output_kept(
                aig,
                stageds,
                parts,
                flats,
                scripts,
                key,
                v as int,
            )
        }),
    decreases n,
{
    if n > 0 {
        let i = n - 1;
        let h = home(stageds, parts, flats, scripts, s, i);
        assert(is_part(parts, s, i));
        let rest = maps_after(aig, *stageds[s], parts[s]@, flats[s].parts@, (n - 1) as nat, base);
        let eps = h.part.endpoints@;
        assert(eps.take(eps.len() as int) =~= eps);
        lemma_output_part(aig, h, im, sm, off, zero, eps.len() as int, rest.output, key);
        let v = maps_after(aig, *stageds[s], parts[s]@, flats[s].parts@, n, base).output[key] as int;
        if rest.output.contains_key(key) && rest.output[key] == v {
            lemma_output_stage(aig, stageds, parts, flats, scripts, zero, im, sm, off, s, (n - 1) as nat, base, key);
        } else {
            let k = choose|k: int| #[trigger] keeps_output(aig, h, k, key, v);
            assert(keeps_output(aig, home(stageds, parts, flats, scripts, s, i), k, key, v));
        }
    }
}

proof fn lemma_output_stages(
    aig: AIG,
    stageds: Seq<&StagedAIG>,
    parts: Seq<&[Partition]>,
    flats: Seq<FlatStage>,
    scripts: Seq<Vec<Vec<u32>>>,
    zero: int,
    im: Map<usize, u32>,
    sm: Map<usize, u32>,
    off: Map<usize, u32>,
    maps: Seq<MapsView>,
    n: int,
    key: usize,
)
    requires
        endpoints_readable(aig),
        sram_data_ok(aig),
        all_homes(aig, stageds, parts, flats, scripts, zero, im, sm, off),
        maps_linked(aig, stageds, parts, flats, maps),
        0 <= n <= parts.len(),
        maps[n].output.contains_key(key),
    ensures
        (maps[0].output.contains_key(key) && maps[n].output[key] == maps[0].output[key]) || output_kept(
            aig,
            stageds,
            parts,
            flats,
            scripts,
            key,
            maps[n].output[key] as int,
        ),
    decreases n,
{
    if n > 0 {
        let s = n - 1;
        assert(maps[s + 1] == maps_after(
            aig,
            *stageds[s],
            parts[s]@,
            flats[s].parts@,
            parts[s]@.len(),
            maps[s],
        ));
        lemma_output_stage(
            aig,
            stageds,
            parts,
            flats,
            scripts,
            zero,
            im,
            sm,
            off,
            s,
            parts[s]@.len(),
            maps[s],
            key,
        );
        if maps[s].output.contains_key(key) && maps[s].output[key] == maps[n].output[key] {
            lemma_output_stages(aig, stageds, parts, flats, scripts, zero, im, sm, off, maps, s, key);
        }
    }
}

/// Is a pin for later major stages kept by some partition, at the given bit of the state?
pub open spec fn staged_kept(
    aig: AIG,
    stageds: Seq<&StagedAIG>,
    parts: Seq<&[Partition]>,
    flats: Seq<FlatStage>,
    scripts: Seq<Vec<Vec<u32>>>,
    key: usize,
    at: int,
) -> bool {
    exists|s: int, i: int, k: int|
        is_part(parts, s, i) && #[trigger] keeps_staged(
            aig,
            home(stageds, parts, flats, scripts, s, i),
            k,
            key,
            at,
        )
}

proof fn lemma_staged_stage(
    aig: AIG,
    stageds: Seq<&StagedAIG>,
    parts: Seq<&[Partition]>,
    flats: Seq<FlatStage>,
    scripts: Seq<Vec<Vec<u32>>>,
    zero: int,
    im: Map<usize, u32>,
    sm: Map<usize, u32>,
    off: Map<usize, u32>,
    s: int,
    n: nat,
    base: MapsView,
    key: usize,
)
    requires
        endpoints_readable(aig),
        sram_data_ok(aig),
        all_homes(aig, stageds, parts, flats, scripts, zero, im, sm, off),
        0 <= s < parts.len(),
        n <= parts[s]@.len(),
        maps_after(aig, *stageds[s], parts[s]@, flats[s].parts@, n, base).staged_io.contains_key(key),
    ensures
        ({
            let v = maps_after(aig, *stageds[s], parts[s]@, flats[s].parts@, n, base).staged_io[key];
            (base.staged_io.contains_key(key) && v == base.staged_io[key]) || staged_kept(
                aig,
                stageds,
                parts,
                flats,
                scripts,
                key,
                v as int,
            )
        }),
    decreases n,
{
    if n > 0 {
        let i = n - 1;
        let h = home(stageds, parts, flats, scripts, s, i);
        assert(is_part(parts, s, i));
        let rest = maps_after(aig, *stageds[s], parts[s]@, flats[s].parts@, (n - 1) as nat, base);
        let eps = h.part.endpoints@;
        assert(eps.take(eps.len() as int) =~= eps);
        lemma_staged_part(aig, h, im, sm, off, zero, eps.len() as int, rest.staged_io, key);
        let v = maps_after(aig, *stageds[s], parts[s]@, flats[s].parts@, n, base).staged_io[key] as int;
        if rest.staged_io.contains_key(key) && rest.staged_io[key] == v {
            lemma_staged_stage(aig, stageds, parts, flats, scripts, zero, im, sm, off, s, (n - 1) as nat, base, key);
        } else {
            let k = choose|k: int| #[trigger] keeps_staged(aig, h, k, key, v);
            assert(keeps_staged(aig, home(stageds, parts, flats, scripts, s, i), k, key, v));
        }
    }
}

proof fn lemma_staged_stages(
    aig: AIG,
    stageds: Seq<&StagedAIG>,
    parts: Seq<&[Partition]>,
    flats: Seq<FlatStage>,
    scripts: Seq<Vec<Vec<u32>>>,
    zero: int,
    im: Map<usize, u32>,
    sm: Map<usize, u32>,
    off: Map<usize, u32>,
    maps: Seq<MapsView>,
    n: int,
    key: usize,
)
    requires
        endpoints_readable(aig),
        sram_data_ok(aig),
        all_homes(aig, stageds, parts, flats, scripts, zero, im, sm, off),
        maps_linked(aig, stageds, parts, flats, maps),
        0 <= n <= parts.len(),
        maps[n].staged_io.contains_key(key),
    ensures
        (maps[0].staged_io.contains_key(key) && maps[n].staged_io[key] == maps[0].staged_io[key]) || staged_kept(
            aig,
            stageds,
            parts,
            flats,
            scripts,
            key,
            maps[n].staged_io[key] as int,
        ),
    decreases n,
{
    if n > 0 {
        let s = n - 1;
        assert(maps[s + 1] == maps_after(
            aig,
            *stageds[s],
            parts[s]@,
            flats[s].parts@,
            parts[s]@.len(),
            maps[s],
        ));
        lemma_staged_stage(
            aig,
            stageds,
            parts,
            flats,
            scripts,
            zero,
            im,
            sm,
            off,
            s,
            parts[s]@.len(),
            maps[s],
            key,
        );
        if maps[s].staged_io.contains_key(key) && maps[s].staged_io[key] == maps[n].staged_io[key] {
            lemma_staged_stages(aig, stageds, parts, flats, scripts, zero, im, sm, off, maps, s, key);
        }
    }
}

/// Is the pin primary input `i`?
pub open spec fn is_port(layout: Seq<usize>, i: int, pin: usize) -> bool {
    0 <= i < layout.len() && layout[i] == pin && pin != usize::MAX
}

proof fn lemma_layout(layout: Seq<usize>, n: nat, pin: usize)
    requires
        n <= layout.len() <= 0xffff_ffe0,
    ensures
        layout_map(layout, n).contains_key(pin) ==> layout_map(layout, n)[pin] < n && is_port(
            layout,
            layout_map(layout, n)[pin] as int,
            pin,
        ),
        layout_map(layout, n).contains_key(pin) <==> exists|i: int| i < n && #[trigger] is_port(layout, i, pin),
    decreases n,
{
    if n > 0 {
        lemma_layout(layout, (n - 1) as nat, pin);
        if is_port(layout, n - 1, pin) {
            assert(is_port(layout, n - 1, pin));
        } else {
            if layout_map(layout, n).contains_key(pin) {
                let i = choose|i: int| i < n - 1 && #[trigger] is_port(layout, i, pin);
                assert(is_port(layout, i, pin));
            }
            if exists|i: int| i < n && #[trigger] is_port(layout, i, pin) {
                let i = choose|i: int| i < n && #[trigger] is_port(layout, i, pin);
                assert(is_port(layout, i, pin));
                assert(i < n - 1);
            }
        }
    }
}

/// What is read is there: wherever the maps of a flattened script say that something is
/// found in the state, it is a primary input at its number, or some partition keeps it
/// there.
pub proof fn law_maps_lead_to_what_is_kept(
    aig: AIG,
    stageds: Seq<&StagedAIG>,
    parts: Seq<&[Partition]>,
    num_blocks: usize,
    layout: Seq<usize>,
    sums: Seq<Sums>,
    maps: Seq<MapsView>,
    flats: Seq<FlatStage>,
    scripts: Seq<Vec<Vec<u32>>>,
    f: FlattenedScriptV1,
    key: usize,
)
    requires
        flattened_with(aig, stageds, parts, num_blocks, layout, sums, maps, flats, scripts, f),
        num_blocks >= 1,
        graph_fits(aig, stageds, parts, layout),
    ensures
        pos_view(f.input_map).contains_key(key) ==> is_port(layout, pos_view(f.input_map)[key] as int, key)
            || input_kept(
            aig,
            stageds,
            parts,
            flats,
            scripts,
            zero_bit(layout),
            key,
            pos_view(f.input_map)[key] as int,
        ),
        pos_view(f.output_map).contains_key(key) ==> output_kept(
            aig,
            stageds,
            parts,
            flats,
            scripts,
            key,
            pos_view(f.output_map)[key] as int,
        ),
        maps[parts.len() as int].staged_io.contains_key(key) ==> staged_kept(
            aig,
            stageds,
            parts,
            flats,
            scripts,
            key,
            maps[parts.len() as int].staged_io[key] as int,
        ),
{
    let n = parts.len() as int;
    let zero = zero_bit(layout);
    let off = final_offsets(aig, parts, flats, f.sram_storage_size).off;
    let im = maps[n].input;
    let sm = maps[n].staged_io;
    lemma_homes(aig, stageds, parts, num_blocks, layout, sums, maps, flats, scripts, f);
    lemma_maps_linked(aig, stageds, parts, num_blocks, layout, sums, maps, flats, scripts, f);
    if im.contains_key(key) {
        lemma_input_stages(aig, stageds, parts, flats, scripts, zero, im, sm, off, maps, n, key);
        lemma_layout(layout, layout.len(), key);
    }
    if maps[n].output.contains_key(key) {
        lemma_output_stages(aig, stageds, parts, flats, scripts, zero, im, sm, off, maps, n, key);
    }
    if sm.contains_key(key) {
        lemma_staged_stages(aig, stageds, parts, flats, scripts, zero, im, sm, off, maps, n, key);
    }
}

/// Is this a pin that partitions read, and that the endpoint group keeps: the output of
/// a flip-flop, a bit that an SRAM reads to, or an output of a DSP?
pub open spec fn is_input_of(g: EndpointGroup, pin: usize) -> bool {
    match g {
        EndpointGroup::DFF(dff) => dff.q == pin,
        EndpointGroup::RAMBlock(ram) => pin != usize::MAX && exists|b: int|
            0 <= b < 32 && #[trigger] ram.port_r_rd_data@[b] == pin,
        EndpointGroup::Macro(m) => pin != 0 && exists|b: int| 0 <= b < 48 && #[trigger] m.outputs@[b] == pin,
        _ => false,
    }
}

/// Is this a literal that the endpoint group keeps: that of an output, one that a
/// flip-flop stores, or a bit that an SRAM reads to?
pub open spec fn is_output_lit(g: EndpointGroup, lit: usize) -> bool {
    match g {
        EndpointGroup::PrimaryOutput(idx) => idx == lit,
        EndpointGroup::DFF(dff) => dff.d_iv == lit && lit != 0,
        EndpointGroup::RAMBlock(ram) => lit % 2 == 0 && exists|b: int|
            0 <= b < 32 && #[trigger] ram.port_r_rd_data@[b] == lit / 2,
        _ => false,
    }
}

/// Is this the pin that the endpoint group hands to later major stages?
pub open spec fn is_staged_pin(g: EndpointGroup, pin: usize) -> bool {
    g matches EndpointGroup::StagedIOPin(idx) && idx == pin
}

proof fn lemma_ram_known(base: Map<usize, u32>, ram: RAMBlock, at: int, n: nat, literal: bool, b: int)
    requires
        n <= 32,
    ensures
        base.dom().subset_of(with_ram(base, ram, at, n, literal).dom()),
        0 <= b < n && ram.port_r_rd_data@[b] != usize::MAX ==> with_ram(base, ram, at, n, literal).contains_key(
            if literal {
                (ram.port_r_rd_data@[b] * 2) as usize
            } else {
                ram.port_r_rd_data@[b]
            },
        ),
    decreases n,
{
    if n > 0 {
        lemma_ram_known(base, ram, at, (n - 1) as nat, literal, b);
    }
}

proof fn lemma_dsp_known(base: Map<usize, u32>, m: MacroInst, at: int, n: nat, b: int)
    requires
        n <= 48,
    ensures
        base.dom().subset_of(with_dsp(base, m, at, n).dom()),
        0 <= b < n && m.outputs@[b] != 0 ==> with_dsp(base, m, at, n).contains_key(m.outputs@[b]),
    decreases n,
{
    if n > 0 {
        lemma_dsp_known(base, m, at, (n - 1) as nat, b);
    }
}

/// What is found stays found, and what an endpoint group keeps is found.
proof fn lemma_input_known(
    aig: AIG,
    staged: StagedAIG,
    p: FlatteningPart,
    endpoints: Seq<usize>,
    base: Map<usize, u32>,
    k: int,
    key: usize,
)
    requires
        base.contains_key(key) || (0 <= k < endpoints.len() && is_input_of(
            staged.group(&aig, endpoints[k] as int),
            key,
        )),
    ensures
        input_map_after(aig, staged, p, endpoints, base).contains_key(key),
    decreases endpoints.len(),
{
    if endpoints.len() > 0 {
        let before = endpoints.drop_last();
        let g = staged.group(&aig, endpoints.last() as int);
        let rest = input_map_after(aig, staged, p, before, base);
        let group = staged.group(&aig, endpoints[k] as int);
        if base.contains_key(key) || (0 <= k < before.len() && is_input_of(group, key)) {
            lemma_input_known(aig, staged, p, before, base, k, key);
        }
        let r = count_words(aig, staged, before).0 as int;
        let d = count_dsps(aig, staged, before) as int;
        match g {
            EndpointGroup::RAMBlock(ram) => {
                let b = choose|b: int| 0 <= b < 32 && #[trigger] ram.port_r_rd_data@[b] == key;
                lemma_ram_known(rest, *ram, ram_state(p, r), 32, false, b);
            },
            EndpointGroup::Macro(m) => {
                let b = choose|b: int| 0 <= b < 48 && #[trigger] m.outputs@[b] == key;
                lemma_dsp_known(rest, *m, dsp_state(p, d), 48, b);
            },
            _ => {},
        }
    }
}

proof fn lemma_input_known_stage(
    aig: AIG,
    staged: StagedAIG,
    parts: Seq<Partition>,
    fps: Seq<FlatteningPart>,
    n: nat,
    base: MapsView,
    i: int,
    k: int,
    key: usize,
)
    requires
        base.input.contains_key(key) || (0 <= i < n && 0 <= k < parts[i].endpoints@.len() && is_input_of(
            staged.group(&aig, parts[i].endpoints@[k] as int),
            key,
        )),
    ensures
        maps_after(aig, staged, parts, fps, n, base).input.contains_key(key),
    decreases n,
{
    if n > 0 {
        let rest = maps_after(aig, staged, parts, fps, (n - 1) as nat, base);
        if base.input.contains_key(key) || i < n - 1 {
            lemma_input_known_stage(aig, staged, parts, fps, (n - 1) as nat, base, i, k, key);
        }
        lemma_input_known(aig, staged, fps[n - 1], parts[n - 1].endpoints@, rest.input, k, key);
    }
}

proof fn lemma_input_known_stages(
    aig: AIG,
    stageds: Seq<&StagedAIG>,
    parts: Seq<&[Partition]>,
    flats: Seq<FlatStage>,
    maps: Seq<MapsView>,
    n: int,
    s: int,
    i: int,
    k: int,
    key: usize,
)
    requires
        maps_linked(aig, stageds, parts, flats, maps),
        0 <= n <= parts.len(),
        maps[0].input.contains_key(key) || (0 <= s < n && 0 <= i < parts[s]@.len() && 0 <= k
            < parts[s]@[i].endpoints@.len() && is_input_of(
            stageds[s].group(&aig, parts[s]@[i].endpoints@[k] as int),
            key,
        )),
    ensures
        maps[n].input.contains_key(key),
    decreases n,
{
    if n > 0 {
        let t = n - 1;
        if maps[0].input.contains_key(key) || s < t {
            lemma_input_known_stages(aig, stageds, parts, flats, maps, t, s, i, k, key);
        }
        assert(maps[t + 1] == maps_after(
            aig,
            *stageds[t],
            parts[t]@,
            flats[t].parts@,
            parts[t]@.len(),
            maps[t],
        ));
        lemma_input_known_stage(aig, *stageds[t], parts[t]@, flats[t].parts@, parts[t]@.len(), maps[t], i, k, key);
    }
}

/// What is found stays found, and what an endpoint group keeps is found.
proof fn lemma_output_known(
    aig: AIG,
    staged: StagedAIG,
    p: FlatteningPart,
    endpoints: Seq<usize>,
    base: Map<usize, u32>,
    k: int,
    key: usize,
)
    requires
        base.contains_key(key) || (0 <= k < endpoints.len() && is_output_lit(
            staged.group(&aig, endpoints[k] as int),
            key,
        )),
    ensures
        output_map_after(aig, staged, p, endpoints, base).contains_key(key),
    decreases endpoints.len(),
{
    if endpoints.len() > 0 {
        let before = endpoints.drop_last();
        let g = staged.group(&aig, endpoints.last() as int);
        let rest = output_map_after(aig, staged, p, before, base);
        let group = staged.group(&aig, endpoints[k] as int);
        if base.contains_key(key) || (0 <= k < before.len() && is_output_lit(group, key)) {
            lemma_output_known(aig, staged, p, before, base, k, key);
        }
        let r = count_words(aig, staged, before).0 as int;
        if let EndpointGroup::RAMBlock(ram) = g {
            let b = choose|b: int| 0 <= b < 32 && #[trigger] ram.port_r_rd_data@[b] == key / 2;
            lemma_ram_known(rest, *ram, ram_state(p, r), 32, true, b);
        }
    }
}

proof fn lemma_output_known_stage(
    aig: AIG,
    staged: StagedAIG,
    parts: Seq<Partition>,
    fps: Seq<FlatteningPart>,
    n: nat,
    base: MapsView,
    i: int,
    k: int,
    key: usize,
)
    requires
        base.output.contains_key(key) || (0 <= i < n && 0 <= k < parts[i].endpoints@.len() && is_output_lit(
            staged.group(&aig, parts[i].endpoints@[k] as int),
            key,
        )),
    ensures
        maps_after(aig, staged, parts, fps, n, base).output.contains_key(key),
    decreases n,
{
    if n > 0 {
        let rest = maps_after(aig, staged, parts, fps, (n - 1) as nat, base);
        if base.output.contains_key(key) || i < n - 1 {
            lemma_output_known_stage(aig, staged, parts, fps, (n - 1) as nat, base, i, k, key);
        }
        lemma_output_known(aig, staged, fps[n - 1], parts[n - 1].endpoints@, rest.output, k, key);
    }
}

proof fn lemma_output_known_stages(
    aig: AIG,
    stageds: Seq<&StagedAIG>,
    parts: Seq<&[Partition]>,
    flats: Seq<FlatStage>,
    maps: Seq<MapsView>,
    n: int,
    s: int,
    i: int,
    k: int,
    key: usize,
)
    requires
        maps_linked(aig, stageds, parts, flats, maps),
        0 <= n <= parts.len(),
        maps[0].output.contains_key(key) || (0 <= s < n && 0 <= i < parts[s]@.len() && 0 <= k
            < parts[s]@[i].endpoints@.len() && is_output_lit(
            stageds[s].group(&aig, parts[s]@[i].endpoints@[k] as int),
            key,
        )),
    ensures
        maps[n].output.contains_key(key),
    decreases n,
{
    if n > 0 {
        let t = n - 1;
        if maps[0].output.contains_key(key) || s < t {
            lemma_output_known_stages(aig, stageds, parts, flats, maps, t, s, i, k, key);
        }
        assert(maps[t + 1] == maps_after(
            aig,
            *stageds[t],
            parts[t]@,
            flats[t].parts@,
            parts[t]@.len(),
            maps[t],
        ));
        lemma_output_known_stage(aig, *stageds[t], parts[t]@, flats[t].parts@, parts[t]@.len(), maps[t], i, k, key);
    }
}

/// What is found stays found, and what an endpoint group keeps is found.
proof fn lemma_staged_known(
    aig: AIG,
    staged: StagedAIG,
    p: FlatteningPart,
    endpoints: Seq<usize>,
    base: Map<usize, u32>,
    k: int,
    key: usize,
)
    requires
        base.contains_key(key) || (0 <= k < endpoints.len() && is_staged_pin(
            staged.group(&aig, endpoints[k] as int),
            key,
        )),
    ensures
        staged_map_after(aig, staged, p, endpoints, base).contains_key(key),
    decreases endpoints.len(),
{
    if endpoints.len() > 0 {
        let before = endpoints.drop_last();
        let g = staged.group(&aig, endpoints.last() as int);
        let rest = staged_map_after(aig, staged, p, before, base);
        let group = staged.group(&aig, endpoints[k] as int);
        if base.contains_key(key) || (0 <= k < before.len() && is_staged_pin(group, key)) {
            lemma_staged_known(aig, staged, p, before, base, k, key);
        }
    }
}

proof fn lemma_staged_known_stage(
    aig: AIG,
    staged: StagedAIG,
    parts: Seq<Partition>,
    fps: Seq<FlatteningPart>,
    n: nat,
    base: MapsView,
    i: int,
    k: int,
    key: usize,
)
    requires
        base.staged_io.contains_key(key) || (0 <= i < n && 0 <= k < parts[i].endpoints@.len() && is_staged_pin(
            staged.group(&aig, parts[i].endpoints@[k] as int),
            key,
        )),
    ensures
        maps_after(aig, staged, parts, fps, n, base).staged_io.contains_key(key),
    decreases n,
{
    if n > 0 {
        let rest = maps_after(aig, staged, parts, fps, (n - 1) as nat, base);
        if base.staged_io.contains_key(key) || i < n - 1 {
            lemma_staged_known_stage(aig, staged, parts, fps, (n - 1) as nat, base, i, k, key);
        }
        lemma_staged_known(aig, staged, fps[n - 1], parts[n - 1].endpoints@, rest.staged_io, k, key);
    }
}

proof fn lemma_staged_known_stages(
    aig: AIG,
    stageds: Seq<&StagedAIG>,
    parts: Seq<&[Partition]>,
    flats: Seq<FlatStage>,
    maps: Seq<MapsView>,
    n: int,
    s: int,
    i: int,
    k: int,
    key: usize,
)
    requires
        maps_linked(aig, stageds, parts, flats, maps),
        0 <= n <= parts.len(),
        maps[0].staged_io.contains_key(key) || (0 <= s < n && 0 <= i < parts[s]@.len() && 0 <= k
            < parts[s]@[i].endpoints@.len() && is_staged_pin(
            stageds[s].group(&aig, parts[s]@[i].endpoints@[k] as int),
            key,
        )),
    ensures
        maps[n].staged_io.contains_key(key),
    decreases n,
{
    if n > 0 {
        let t = n - 1;
        if maps[0].staged_io.contains_key(key) || s < t {
            lemma_staged_known_stages(aig, stageds, parts, flats, maps, t, s, i, k, key);
        }
        assert(maps[t + 1] == maps_after(
            aig,
            *stageds[t],
            parts[t]@,
            flats[t].parts@,
            parts[t]@.len(),
            maps[t],
        ));
        lemma_staged_known_stage(aig, *stageds[t], parts[t]@, flats[t].parts@, parts[t]@.len(), maps[t], i, k, key);
    }
}

/// Nothing that is kept gets lost: the maps of a flattened script list every primary
/// input, and everything that an endpoint group of a partition keeps.
pub proof fn law_maps_list_what_is_kept(
    aig: AIG,
    stageds: Seq<&StagedAIG>,
    parts: Seq<&[Partition]>,
    num_blocks: usize,
    layout: Seq<usize>,
    sums: Seq<Sums>,
    maps: Seq<MapsView>,
    flats: Seq<FlatStage>,
    scripts: Seq<Vec<Vec<u32>>>,
    f: FlattenedScriptV1,
    s: int,
    i: int,
    k: int,
    key: usize,
)
    requires
        flattened_with(aig, stageds, parts, num_blocks, layout, sums, maps, flats, scripts, f),
        graph_fits(aig, stageds, parts, layout),
        is_part(parts, s, i),
        0 <= k < parts[s]@[i].endpoints@.len(),
    ensures
        (exists|j: int| #[trigger] is_port(layout, j, key)) ==> pos_view(f.input_map).contains_key(key),
        ({
            let g = stageds[s].group(&aig, parts[s]@[i].endpoints@[k] as int);
            &&& is_input_of(g, key) ==> pos_view(f.input_map).contains_key(key)
            &&& is_output_lit(g, key) ==> pos_view(f.output_map).contains_key(key)
            &&& is_staged_pin(g, key) ==> maps[parts.len() as int].staged_io.contains_key(key)
        }),
{
    let n = parts.len() as int;
    let g = stageds[s].group(&aig, parts[s]@[i].endpoints@[k] as int);
    lemma_maps_linked(aig, stageds, parts, num_blocks, layout, sums, maps, flats, scripts, f);
    lemma_layout(layout, layout.len(), key);
    if (exists|j: int| #[trigger] is_port(layout, j, key)) || is_input_of(g, key) {
        lemma_input_known_stages(aig, stageds, parts, flats, maps, n, s, i, k, key);
    }
    if is_output_lit(g, key) {
        lemma_output_known_stages(aig, stageds, parts, flats, maps, n, s, i, k, key);
    }
    if is_staged_pin(g, key) {
        lemma_staged_known_stages(aig, stageds, parts, flats, maps, n, s, i, k, key);
    }
}

} // verus!
