//! Placing what a partition stores.

use super::error::FlattenError;
use super::part::{count_dsps, FlatteningPart, PartShape};
use super::tables::{has_code, literal_code, query_permute, Tables};
use crate::aig::{EndpointGroup, RAMBlock, AIG};
use crate::collections::{gate_view, pos_insert, pos_view};
use crate::macros::{MacroInst, MacroKind, DSP_NUM_INPUTS};
use crate::pe::budget::{activation, activations, are_groups, count_words, endpoints_readable, lemma_group_pins};
use crate::pe::partition::Partition;
use crate::staging::StagedAIG;
use indexmap::IndexMap;
use vstd::prelude::*;

verus! {

/// Do all inputs of the SRAM have a position?
pub open spec fn ram_coded(pins: Map<usize, usize>, ram: RAMBlock) -> bool {
    &&& has_code(pins, ram.port_r_en_iv)
    &&& forall|k: int| 0 <= k < 13 ==> has_code(pins, #[trigger] ram.port_r_addr_iv@[k])
    &&& forall|k: int| 0 <= k < 13 ==> has_code(pins, #[trigger] ram.port_w_addr_iv@[k])
    &&& forall|k: int| 0 <= k < 32 ==> has_code(pins, #[trigger] ram.port_w_wr_en_iv@[k])
    &&& forall|k: int| 0 <= k < 32 ==> has_code(pins, #[trigger] ram.port_w_wr_data_iv@[k])
}

/// The first bit of the read data of the SRAM with the given number.
pub open spec fn ram_bits(shape: PartShape, r: int) -> int {
    32 * (shape.num_writeouts - shape.num_srams + r)
}

/// Is the SRAM with the given number stored: do its inputs have positions, is its
/// read data enabled by its read enable, and are its inputs gathered?
pub open spec fn ram_stored(shape: PartShape, tables: Tables, r: int, ram: RAMBlock) -> bool {
    let pins = shape.pins();
    &&& ram_coded(pins, ram)
    &&& forall|k: int|
        0 <= k < 32 && #[trigger] ram.port_r_rd_data@[k] != usize::MAX ==> tables.enable(ram_bits(shape, r) + k)
            == literal_code(pins, ram.port_r_en_iv) && !tables.inverted(ram_bits(shape, r) + k)
    &&& forall|k: int|
        0 <= k < 13 ==> tables.gather(128 * r + k) == literal_code(pins, #[trigger] ram.port_r_addr_iv@[k])
    &&& forall|k: int|
        0 <= k < 13 ==> tables.gather(128 * r + 16 + k) == literal_code(pins, #[trigger] ram.port_w_addr_iv@[k])
    &&& forall|k: int|
        0 <= k < 32 ==> tables.gather(128 * r + 32 + k) == literal_code(pins, #[trigger] ram.port_w_wr_en_iv@[k])
    &&& forall|k: int|
        0 <= k < 32 ==> tables.gather(128 * r + 64 + k) == literal_code(pins, #[trigger] ram.port_w_wr_data_iv@[k])
}

/// What is stored stays stored where the tables do not change.
proof fn lemma_ram_kept(shape: PartShape, a: Tables, b: Tables, r: int, ram: RAMBlock)
    requires
        ram_stored(shape, a, r, ram),
        shape.wf(),
        0 <= r < shape.num_srams,
        forall|g: int| 128 * r <= g < 128 * r + 128 ==> #[trigger] b.gather(g) == a.gather(g),
        forall|q: int|
            ram_bits(shape, r) <= q < ram_bits(shape, r) + 32 ==> #[trigger] b.enable(q) == a.enable(q),
        forall|q: int|
            ram_bits(shape, r) <= q < ram_bits(shape, r) + 32 ==> #[trigger] b.inverted(q) == a.inverted(q),
    ensures
        ram_stored(shape, b, r, ram),
{
}

/// Gathers 13 literals.
fn gather_address(
    shape: &PartShape,
    tables: &mut Tables,
    at: usize,
    lits: &[usize; 13],
) -> (r: Result<(), FlattenError>)
    requires
        shape.wf(),
        old(tables).wf(),
        at + 13 <= 8192,
    ensures
        final(tables).wf(),
        final(tables).enables_kept(*old(tables), 0, 0),
        final(tables).gathers_kept(*old(tables), at as int, at + 13),
        r is Ok <==> forall|k: int| 0 <= k < 13 ==> has_code(shape.pins(), #[trigger] lits@[k]),
        r is Ok ==> forall|k: int|
            0 <= k < 13 ==> final(tables).gather(at + k) == literal_code(shape.pins(), #[trigger] lits@[k]),
        r matches Err(e) ==> is_unplaced(shape.pins(), e),
{
    let mut k: usize = 0;
    while k < 13
        invariant
            k <= 13,
            at + 13 <= 8192,
            shape.wf(),
            tables.wf(),
            tables.enables_kept(*old(tables), 0, 0),
            tables.gathers_kept(*old(tables), at as int, at + 13),
            forall|j: int| 0 <= j < k ==> has_code(shape.pins(), #[trigger] lits@[j]),
            forall|j: int| 0 <= j < k ==> tables.gather(at + j) == literal_code(shape.pins(), #[trigger] lits@[j]),
        decreases 13 - k,
    {
        let ghost before = *tables;
        match gather_one(shape, tables, at + k, lits[k]) {
            Err(e) => {
                assert(!has_code(shape.pins(), lits@[k as int]));
                return Err(e);
            },
            Ok(()) => {},
        }
        proof {
            assert forall|j: int| 0 <= j < k + 1 implies tables.gather(at + j) == literal_code(
                shape.pins(),
                #[trigger] lits@[j],
            ) by {
                if j < k {
                    assert(before.gather(at + j) == literal_code(shape.pins(), lits@[j]));
                    assert(tables.gather(at + j) == before.gather(at + j));
                }
            }
        }
        k += 1;
    }
    Ok(())
}

/// Gathers 32 literals.
fn gather_word(
    shape: &PartShape,
    tables: &mut Tables,
    at: usize,
    lits: &[usize; 32],
) -> (r: Result<(), FlattenError>)
    requires
        shape.wf(),
        old(tables).wf(),
        at + 32 <= 8192,
    ensures
        final(tables).wf(),
        final(tables).enables_kept(*old(tables), 0, 0),
        final(tables).gathers_kept(*old(tables), at as int, at + 32),
        r is Ok <==> forall|k: int| 0 <= k < 32 ==> has_code(shape.pins(), #[trigger] lits@[k]),
        r is Ok ==> forall|k: int|
            0 <= k < 32 ==> final(tables).gather(at + k) == literal_code(shape.pins(), #[trigger] lits@[k]),
        r matches Err(e) ==> is_unplaced(shape.pins(), e),
{
    let mut k: usize = 0;
    while k < 32
        invariant
            k <= 32,
            at + 32 <= 8192,
            shape.wf(),
            tables.wf(),
            tables.enables_kept(*old(tables), 0, 0),
            tables.gathers_kept(*old(tables), at as int, at + 32),
            forall|j: int| 0 <= j < k ==> has_code(shape.pins(), #[trigger] lits@[j]),
            forall|j: int| 0 <= j < k ==> tables.gather(at + j) == literal_code(shape.pins(), #[trigger] lits@[j]),
        decreases 32 - k,
    {
        let ghost before = *tables;
        match gather_one(shape, tables, at + k, lits[k]) {
            Err(e) => {
                assert(!has_code(shape.pins(), lits@[k as int]));
                return Err(e);
            },
            Ok(()) => {},
        }
        proof {
            assert forall|j: int| 0 <= j < k + 1 implies tables.gather(at + j) == literal_code(
                shape.pins(),
                #[trigger] lits@[j],
            ) by {
                if j < k {
                    assert(before.gather(at + j) == literal_code(shape.pins(), lits@[j]));
                    assert(tables.gather(at + j) == before.gather(at + j));
                }
            }
        }
        k += 1;
    }
    Ok(())
}

/// Places the SRAM with the given number.
fn place_ram(shape: &PartShape, tables: &mut Tables, id: usize, ram: &RAMBlock) -> (r: Result<(), FlattenError>)
    requires
        shape.wf(),
        old(tables).wf(),
        id < shape.num_srams,
    ensures
        final(tables).wf(),
        r is Ok <==> ram_coded(shape.pins(), *ram),
        r is Ok ==> ram_stored(*shape, *final(tables), id as int, *ram),
        final(tables).gathers_kept(*old(tables), 128 * id, 128 * id + 128),
        final(tables).enables_kept(*old(tables), ram_bits(*shape, id as int), ram_bits(*shape, id as int) + 32),
        r matches Err(e) ==> is_unplaced(shape.pins(), e),
{
    proof {
        shape.lemma_positions();
    }
    let ghost t0 = *tables;
    let ghost lo = ram_bits(*shape, id as int);
    let (perm, inv, set0) = match query_permute(&shape.after_writeout_pin2pos, ram.port_r_en_iv) {
        None => {
            return Err(FlattenError::Unplaced(ram.port_r_en_iv / 2));
        },
        Some(c) => c,
    };
    let start: usize = ((shape.num_writeouts - shape.num_srams) as usize + id) * 32;
    let mut k: usize = 0;
    while k < 32
        invariant
            k <= 32,
            start == lo,
            start + 32 <= 8192,
            tables.wf(),
            (perm, inv != 0, set0 != 0) == literal_code(shape.pins(), ram.port_r_en_iv),
            tables.gathers_kept(t0, 0, 0),
            tables.enables_kept(t0, lo, lo + 32),
            forall|j: int|
                0 <= j < k && #[trigger] ram.port_r_rd_data@[j] != usize::MAX ==> tables.enable(lo + j) == literal_code(
                    shape.pins(),
                    ram.port_r_en_iv,
                ),
            forall|j: int|
                0 <= j < k && #[trigger] ram.port_r_rd_data@[j] != usize::MAX ==> !tables.inverted(lo + j),
        decreases 32 - k,
    {
        if ram.port_r_rd_data[k] != usize::MAX {
            tables.place_clken_datainv(start + k, perm, inv, set0, 0);
        }
        k += 1;
    }
    let st: usize = id * 128;
    let ghost t1 = *tables;
    match gather_address(shape, tables, st, &ram.port_r_addr_iv) {
        Err(e) => {
            return Err(e);
        },
        Ok(()) => {},
    }
    let ghost t2 = *tables;
    match gather_address(shape, tables, st + 16, &ram.port_w_addr_iv) {
        Err(e) => {
            return Err(e);
        },
        Ok(()) => {},
    }
    let ghost t3 = *tables;
    match gather_word(shape, tables, st + 32, &ram.port_w_wr_en_iv) {
        Err(e) => {
            return Err(e);
        },
        Ok(()) => {},
    }
    let ghost t4 = *tables;
    match gather_word(shape, tables, st + 64, &ram.port_w_wr_data_iv) {
        Err(e) => {
            return Err(e);
        },
        Ok(()) => {},
    }
    proof {
        let t5 = *tables;
        assert forall|k: int| 0 <= k < 13 implies t5.gather(128 * id + k) == literal_code(
            shape.pins(),
            #[trigger] ram.port_r_addr_iv@[k],
        ) by {
            assert(t2.gather(st + k) == literal_code(shape.pins(), ram.port_r_addr_iv@[k]));
            assert(t3.gather(st + k) == t2.gather(st + k));
            assert(t4.gather(st + k) == t3.gather(st + k));
            assert(t5.gather(st + k) == t4.gather(st + k));
        }
        assert forall|k: int| 0 <= k < 13 implies t5.gather(128 * id + 16 + k) == literal_code(
            shape.pins(),
            #[trigger] ram.port_w_addr_iv@[k],
        ) by {
            assert(t3.gather(st + 16 + k) == literal_code(shape.pins(), ram.port_w_addr_iv@[k]));
            assert(t4.gather(st + 16 + k) == t3.gather(st + 16 + k));
            assert(t5.gather(st + 16 + k) == t4.gather(st + 16 + k));
        }
        assert forall|k: int| 0 <= k < 32 implies t5.gather(128 * id + 32 + k) == literal_code(
            shape.pins(),
            #[trigger] ram.port_w_wr_en_iv@[k],
        ) by {
            assert(t4.gather(st + 32 + k) == literal_code(shape.pins(), ram.port_w_wr_en_iv@[k]));
            assert(t5.gather(st + 32 + k) == t4.gather(st + 32 + k));
        }
        assert forall|k: int| 0 <= k < 32 && #[trigger] ram.port_r_rd_data@[k] != usize::MAX implies t5.enable(
            ram_bits(*shape, id as int) + k,
        ) == literal_code(shape.pins(), ram.port_r_en_iv) && !t5.inverted(ram_bits(*shape, id as int) + k) by {
            assert(t1.enable(lo + k) == literal_code(shape.pins(), ram.port_r_en_iv));
            assert(t2.enable(lo + k) == t1.enable(lo + k));
            assert(t3.enable(lo + k) == t2.enable(lo + k));
            assert(t4.enable(lo + k) == t3.enable(lo + k));
            assert(t5.enable(lo + k) == t4.enable(lo + k));
            assert(t2.inverted(lo + k) == t1.inverted(lo + k));
            assert(t3.inverted(lo + k) == t2.inverted(lo + k));
            assert(t4.inverted(lo + k) == t3.inverted(lo + k));
            assert(t5.inverted(lo + k) == t4.inverted(lo + k));
        }
    }
    Ok(())
}

/// Are this a DSP's inputs and clock enable, with a position each?
pub open spec fn dsp_coded(pins: Map<usize, usize>, m: MacroInst) -> bool {
    &&& m.kind is Dsp48e2
    &&& forall|s: int| 0 <= s < DSP_NUM_INPUTS ==> has_code(pins, #[trigger] m.inputs@[s])
    &&& has_code(pins, m.clk_en_iv)
}

/// The first bit of the state of the DSP with the given number.
pub open spec fn dsp_bits(shape: PartShape, d: int) -> int {
    32 * (shape.num_normal_writeouts + 2 * d)
}

/// The first gather of the DSP with the given number.
pub open spec fn dsp_lane(shape: PartShape, d: int) -> int {
    128 * (shape.num_srams + d)
}

/// Is the DSP with the given number stored: do its inputs have positions, are its
/// used outputs always written, and are its inputs, its clock enable and its
/// configuration gathered?
pub open spec fn dsp_stored(shape: PartShape, tables: Tables, d: int, m: MacroInst) -> bool {
    let pins = shape.pins();
    let st = dsp_lane(shape, d);
    &&& dsp_coded(pins, m)
    &&& forall|k: int|
        0 <= k < 48 && #[trigger] m.outputs@[k] != 0 ==> tables.enable(dsp_bits(shape, d) + k) == literal_code(pins, 1)
            && !tables.inverted(dsp_bits(shape, d) + k)
    &&& forall|s: int|
        0 <= s < DSP_NUM_INPUTS ==> tables.gather(st + s) == literal_code(pins, #[trigger] m.inputs@[s])
    &&& tables.gather(st + 121) == literal_code(pins, m.clk_en_iv)
    &&& m.kind matches MacroKind::Dsp48e2 { state, use_preadder } && {
        &&& tables.gather(st + 122) == literal_code(pins, (state.spec_code() % 2) as usize)
        &&& tables.gather(st + 123) == literal_code(pins, (state.spec_code() / 2 % 2) as usize)
        &&& tables.gather(st + 124) == literal_code(
            pins,
            if use_preadder {
                1
            } else {
                0
            },
        )
    }
}

/// What is stored stays stored where the tables do not change.
proof fn lemma_dsp_kept(shape: PartShape, a: Tables, b: Tables, d: int, m: MacroInst)
    requires
        dsp_stored(shape, a, d, m),
        shape.wf(),
        0 <= d < shape.num_dsps,
        forall|g: int| dsp_lane(shape, d) <= g < dsp_lane(shape, d) + 128 ==> #[trigger] b.gather(g) == a.gather(g),
        forall|q: int|
            dsp_bits(shape, d) <= q < dsp_bits(shape, d) + 64 ==> #[trigger] b.enable(q) == a.enable(q),
        forall|q: int|
            dsp_bits(shape, d) <= q < dsp_bits(shape, d) + 64 ==> #[trigger] b.inverted(q) == a.inverted(q),
    ensures
        dsp_stored(shape, b, d, m),
{
}

/// Places a gather of a literal that has a position.
fn gather_one(shape: &PartShape, tables: &mut Tables, at: usize, iv: usize) -> (r: Result<(), FlattenError>)
    requires
        shape.wf(),
        old(tables).wf(),
        at < 8192,
    ensures
        final(tables).wf(),
        final(tables).enables_kept(*old(tables), 0, 0),
        final(tables).gathers_kept(*old(tables), at as int, at + 1),
        r is Ok <==> has_code(shape.pins(), iv),
        r is Ok ==> final(tables).gather(at as int) == literal_code(shape.pins(), iv),
        r matches Err(e) ==> is_unplaced(shape.pins(), e),
{
    proof {
        shape.lemma_positions();
    }
    match query_permute(&shape.after_writeout_pin2pos, iv) {
        None => Err(FlattenError::Unplaced(iv / 2)),
        Some(c) => {
            tables.place_sram_duplicate(at, c);
            Ok(())
        },
    }
}

/// Places the DSP with the given number.
fn place_dsp(shape: &PartShape, tables: &mut Tables, id: usize, m: &MacroInst) -> (r: Result<(), FlattenError>)
    requires
        shape.wf(),
        old(tables).wf(),
        id < shape.num_dsps,
        m.wf(),
    ensures
        final(tables).wf(),
        r is Ok <==> dsp_coded(shape.pins(), *m),
        r is Ok ==> dsp_stored(*shape, *final(tables), id as int, *m),
        final(tables).gathers_kept(
            *old(tables),
            dsp_lane(*shape, id as int),
            dsp_lane(*shape, id as int) + 128,
        ),
        final(tables).enables_kept(*old(tables), dsp_bits(*shape, id as int), dsp_bits(*shape, id as int) + 64),
        r matches Err(e) ==> is_unplaced(shape.pins(), e) || e is NotDsp,
        r == Err::<(), FlattenError>(FlattenError::NotDsp) <==> !(m.kind is Dsp48e2),
{
    let (st_code, preadd): (usize, usize) = match m.kind {
        MacroKind::Dsp48e2 { state, use_preadder } => (
            state.code(),
            if use_preadder {
                1
            } else {
                0
            },
        ),
        _ => {
            return Err(FlattenError::NotDsp);
        },
    };
    let ghost t0 = *tables;
    let ghost lo = dsp_bits(*shape, id as int);
    let ghost st0 = dsp_lane(*shape, id as int);
    let start: usize = (shape.num_normal_writeouts as usize + 2 * id) * 32;
    let mut k: usize = 0;
    while k < 48
        invariant
            k <= 48,
            m.wf(),
            m.kind is Dsp48e2,
            start == lo,
            start + 64 <= 8192,
            tables.wf(),
            tables.gathers_kept(t0, 0, 0),
            tables.enables_kept(t0, lo, lo + 64),
            forall|j: int|
                0 <= j < k && #[trigger] m.outputs@[j] != 0 ==> tables.enable(lo + j) == literal_code(shape.pins(), 1),
            forall|j: int| 0 <= j < k && #[trigger] m.outputs@[j] != 0 ==> !tables.inverted(lo + j),
        decreases 48 - k,
    {
        if m.outputs[k] != 0 {
            tables.place_clken_datainv(start + k, 0, 1, 1, 0);
        }
        k += 1;
    }
    let st: usize = (shape.num_srams as usize + id) * 128;
    let ghost t1 = *tables;
    let mut s: usize = 0;
    while s < DSP_NUM_INPUTS
        invariant
            s <= DSP_NUM_INPUTS,
            m.wf(),
            m.kind is Dsp48e2,
            shape.wf(),
            st == st0,
            st + 128 <= 8192,
            t0 == *old(tables),
            lo == dsp_bits(*shape, id as int),
            st0 == dsp_lane(*shape, id as int),
            t1.gathers_kept(t0, 0, 0),
            t1.enables_kept(t0, lo, lo + 64),
            tables.wf(),
            tables.enables_kept(t1, 0, 0),
            tables.gathers_kept(t1, st0, st0 + 128),
            forall|j: int| 0 <= j < s ==> has_code(shape.pins(), #[trigger] m.inputs@[j]),
            forall|j: int| 0 <= j < s ==> tables.gather(st0 + j) == literal_code(shape.pins(), #[trigger] m.inputs@[j]),
        decreases DSP_NUM_INPUTS - s,
    {
        let ghost before = *tables;
        match gather_one(shape, tables, st + s, m.inputs[s]) {
            Err(e) => {
                assert(!has_code(shape.pins(), m.inputs@[s as int]));
                proof {
                    lemma_kept_trans(t1, before, *tables, st0, st0 + 128, st + s, st + s + 1);
                }
                return Err(e);
            },
            Ok(()) => {},
        }
        proof {
            assert forall|j: int| 0 <= j < s + 1 implies tables.gather(st0 + j) == literal_code(
                shape.pins(),
                #[trigger] m.inputs@[j],
            ) by {
                if j < s {
                    assert(before.gather(st0 + j) == literal_code(shape.pins(), m.inputs@[j]));
                }
            }
            lemma_kept_trans(t1, before, *tables, st0, st0 + 128, st + s, st + s + 1);
        }
        s += 1;
    }
    let ghost t2 = *tables;
    match gather_one(shape, tables, st + 121, m.clk_en_iv) {
        Err(e) => {
            return Err(e);
        },
        Ok(()) => {},
    }
    let ghost t3 = *tables;
    let _ = gather_one(shape, tables, st + 122, st_code % 2);
    let ghost t4 = *tables;
    let _ = gather_one(shape, tables, st + 123, st_code / 2 % 2);
    let ghost t5 = *tables;
    let _ = gather_one(shape, tables, st + 124, preadd);
    proof {
        let t6 = *tables;
        assert forall|g: int| st0 <= g < st0 + 121 implies #[trigger] t6.gather(g) == t2.gather(g) by {
            assert(t3.gather(g) == t2.gather(g));
            assert(t4.gather(g) == t3.gather(g));
            assert(t5.gather(g) == t4.gather(g));
        }
        assert(t4.gather(st + 121) == t3.gather(st + 121));
        assert(t5.gather(st + 121) == t4.gather(st + 121));
        assert(t5.gather(st + 122) == t4.gather(st + 122));
        assert forall|q: int| 0 <= q < 8192 implies #[trigger] t6.enable(q) == t1.enable(q) by {
            assert(t5.enable(q) == t4.enable(q));
            assert(t4.enable(q) == t3.enable(q));
            assert(t3.enable(q) == t2.enable(q));
        }
        assert forall|q: int| 0 <= q < 8192 implies #[trigger] t6.inverted(q) == t1.inverted(q) by {
            assert(t5.inverted(q) == t4.inverted(q));
            assert(t4.inverted(q) == t3.inverted(q));
            assert(t3.inverted(q) == t2.inverted(q));
        }
    }
    Ok(())
}

/// Keeping twice is keeping.
proof fn lemma_kept_trans(a: Tables, b: Tables, c: Tables, lo: int, hi: int, x: int, y: int)
    requires
        b.gathers_kept(a, lo, hi),
        c.gathers_kept(b, x, y),
        b.enables_kept(a, 0, 0),
        c.enables_kept(b, 0, 0),
        lo <= x,
        y <= hi,
    ensures
        c.gathers_kept(a, lo, hi),
        c.enables_kept(a, 0, 0),
{
    assert forall|g: int| 0 <= g < 8192 && !(lo <= g < hi) implies #[trigger] c.gather(g) == a.gather(g) by {
        assert(b.gather(g) == a.gather(g));
    }
    assert forall|q: int| 0 <= q < 8192 implies #[trigger] c.enable(q) == a.enable(q) by {
        assert(b.enable(q) == a.enable(q));
    }
    assert forall|q: int| 0 <= q < 8192 implies #[trigger] c.inverted(q) == a.inverted(q) by {
        assert(b.inverted(q) == a.inverted(q));
    }
}

/// Can the endpoint group be stored?
pub open spec fn group_fine(pins: Map<usize, usize>, g: EndpointGroup) -> bool {
    match g {
        EndpointGroup::RAMBlock(ram) => ram_coded(pins, *ram),
        EndpointGroup::Macro(m) => dsp_coded(pins, *m),
        EndpointGroup::PrimaryOutput(idx) => idx >= 2 && pins.contains_key((idx / 2) as usize),
        EndpointGroup::StagedIOPin(idx) => idx != 0 && pins.contains_key(idx),
        EndpointGroup::DFF(dff) => dff.d_iv == 0 || (dff.d_iv >= 2 && pins.contains_key((dff.d_iv / 2) as usize)
            && has_code(pins, dff.en_iv)),
    }
}

/// Is the error that a pin is not written out?
pub open spec fn is_unplaced(pins: Map<usize, usize>, e: FlattenError) -> bool {
    e matches FlattenError::Unplaced(pin) && !pins.contains_key(pin)
}

/// Why can the endpoint group not be stored?
pub open spec fn group_fault(pins: Map<usize, usize>, g: EndpointGroup, e: FlattenError) -> bool {
    match e {
        FlattenError::Unplaced(pin) => !pins.contains_key(pin) && !group_fine(pins, g),
        FlattenError::NotDsp => g matches EndpointGroup::Macro(m) && !(m.kind is Dsp48e2),
        FlattenError::ConstantOutput => match g {
            EndpointGroup::PrimaryOutput(idx) => idx < 2,
            EndpointGroup::StagedIOPin(idx) => idx == 0,
            _ => false,
        },
        FlattenError::ConstantOne => g matches EndpointGroup::DFF(dff) && dff.d_iv == 1,
        _ => false,
    }
}

/// Is the endpoint group, the SRAM or DSP with the given number, stored?
pub open spec fn group_stored(p: FlatteningPart, sram: int, dsp: int, g: EndpointGroup) -> bool {
    match g {
        EndpointGroup::RAMBlock(ram) => ram_stored(p.shape, p.tables, sram, *ram),
        EndpointGroup::Macro(m) => dsp_stored(p.shape, p.tables, dsp, *m),
        EndpointGroup::DFF(dff) => dff.d_iv != 0 ==> p.comb_outputs_activations.place_of(
            activation(g).unwrap(),
        ) is Some,
        _ => p.comb_outputs_activations.place_of(activation(g).unwrap()) is Some,
    }
}

/// The state bit at which an activation is stored.
pub open spec fn stored_at(p: FlatteningPart, a: (usize, usize)) -> u32 {
    (p.starts.state_start * 32 + p.comb_outputs_activations.place_of(a).unwrap()) as u32
}

/// The first state bit of the read data of an SRAM.
pub open spec fn ram_state(p: FlatteningPart, r: int) -> int {
    32 * (p.starts.state_start + p.shape.num_writeouts - p.shape.num_srams + r)
}

/// The first state bit of a DSP.
pub open spec fn dsp_state(p: FlatteningPart, d: int) -> int {
    32 * (p.starts.state_start + p.shape.num_normal_writeouts + 2 * d)
}

/// A map with the first `n` bits of an SRAM's read data added, by pin or, for
/// outputs, by literal.
pub open spec fn with_ram(base: Map<usize, u32>, ram: RAMBlock, at: int, n: nat, literal: bool) -> Map<usize, u32>
    decreases n,
{
    if n == 0 {
        base
    } else {
        let rest = with_ram(base, ram, at, (n - 1) as nat, literal);
        let d = ram.port_r_rd_data@[n - 1];
        if d == usize::MAX {
            rest
        } else if literal {
            rest.insert((d * 2) as usize, (at + n - 1) as u32)
        } else {
            rest.insert(d, (at + n - 1) as u32)
        }
    }
}

/// A map with the first `n` outputs of a DSP added.
pub open spec fn with_dsp(base: Map<usize, u32>, m: MacroInst, at: int, n: nat) -> Map<usize, u32>
    decreases n,
{
    if n == 0 {
        base
    } else {
        let rest = with_dsp(base, m, at, (n - 1) as nat);
        if m.outputs@[n - 1] != 0 {
            rest.insert(m.outputs@[n - 1], (at + n - 1) as u32)
        } else {
            rest
        }
    }
}

/// Where pins that partitions read come from, once a further endpoint group,
/// the SRAM or DSP with the given number, is stored.
pub open spec fn input_step(p: FlatteningPart, sram: int, dsp: int, g: EndpointGroup, rest: Map<usize, u32>) -> Map<
    usize,
    u32,
> {
    match g {
        EndpointGroup::RAMBlock(ram) => with_ram(rest, *ram, ram_state(p, sram), 32, false),
        EndpointGroup::Macro(m) => with_dsp(rest, *m, dsp_state(p, dsp), 48),
        EndpointGroup::DFF(dff) => if dff.d_iv == 0 {
            rest.insert(dff.q, p.starts.zero_bit_pos)
        } else {
            rest.insert(dff.q, stored_at(p, activation(g).unwrap()))
        },
        _ => rest,
    }
}

/// Where literals are found once a further endpoint group is stored.
pub open spec fn output_step(p: FlatteningPart, sram: int, g: EndpointGroup, rest: Map<usize, u32>) -> Map<usize, u32> {
    match g {
        EndpointGroup::RAMBlock(ram) => with_ram(rest, *ram, ram_state(p, sram), 32, true),
        EndpointGroup::PrimaryOutput(idx) => rest.insert(idx, stored_at(p, activation(g).unwrap())),
        EndpointGroup::DFF(dff) => if dff.d_iv == 0 {
            rest
        } else {
            rest.insert(dff.d_iv, stored_at(p, activation(g).unwrap()))
        },
        _ => rest,
    }
}

/// Where pins for later major stages are found once a further endpoint group
/// is stored.
pub open spec fn staged_step(p: FlatteningPart, g: EndpointGroup, rest: Map<usize, u32>) -> Map<usize, u32> {
    match g {
        EndpointGroup::StagedIOPin(idx) => rest.insert(idx, stored_at(p, activation(g).unwrap())),
        _ => rest,
    }
}

/// Where pins that partitions read come from, once the endpoint groups are
/// stored: flip-flop outputs, SRAM read data and DSP outputs.
///
/// A flip-flop that stores a constant zero is found at the bit that is never
/// written.
pub open spec fn input_map_after(
    aig: AIG,
    staged: StagedAIG,
    p: FlatteningPart,
    endpoints: Seq<usize>,
    base: Map<usize, u32>,
) -> Map<usize, u32>
    decreases endpoints.len(),
{
    if endpoints.len() == 0 {
        base
    } else {
        let before = endpoints.drop_last();
        input_step(
            p,
            count_words(aig, staged, before).0 as int,
            count_dsps(aig, staged, before) as int,
            staged.group(&aig, endpoints.last() as int),
            input_map_after(aig, staged, p, before, base),
        )
    }
}

/// Where literals that the endpoint groups store are found: primary outputs,
/// what flip-flops store, and SRAM read data.
pub open spec fn output_map_after(
    aig: AIG,
    staged: StagedAIG,
    p: FlatteningPart,
    endpoints: Seq<usize>,
    base: Map<usize, u32>,
) -> Map<usize, u32>
    decreases endpoints.len(),
{
    if endpoints.len() == 0 {
        base
    } else {
        let before = endpoints.drop_last();
        output_step(
            p,
            count_words(aig, staged, before).0 as int,
            staged.group(&aig, endpoints.last() as int),
            output_map_after(aig, staged, p, before, base),
        )
    }
}

/// Where pins that later major stages read are found.
pub open spec fn staged_map_after(
    aig: AIG,
    staged: StagedAIG,
    p: FlatteningPart,
    endpoints: Seq<usize>,
    base: Map<usize, u32>,
) -> Map<usize, u32>
    decreases endpoints.len(),
{
    if endpoints.len() == 0 {
        base
    } else {
        staged_step(
            p,
            staged.group(&aig, endpoints.last() as int),
            staged_map_after(aig, staged, p, endpoints.drop_last(), base),
        )
    }
}

/// The bits that SRAMs read are pins, or nothing.
pub open spec fn sram_data_ok(aig: AIG) -> bool {
    forall|i: int, k: int|
        0 <= i < aig.srams.vals().len() && 0 <= k < 32 ==> (#[trigger] aig.srams.vals()[i].port_r_rd_data@[k]
            == usize::MAX || aig.srams.vals()[i].port_r_rd_data@[k] <= aig.num_aigpins)
}

/// Counting goes up.
proof fn lemma_counts_grow(aig: AIG, staged: StagedAIG, endpoints: Seq<usize>, j: int)
    requires
        0 <= j <= endpoints.len(),
    ensures
        count_words(aig, staged, endpoints.take(j)).0 <= count_words(aig, staged, endpoints).0,
        count_dsps(aig, staged, endpoints.take(j)) <= count_dsps(aig, staged, endpoints),
        j < endpoints.len() && staged.group(&aig, endpoints[j] as int) is RAMBlock ==> count_words(
            aig,
            staged,
            endpoints.take(j),
        ).0 < count_words(aig, staged, endpoints).0,
        j < endpoints.len() && staged.group(&aig, endpoints[j] as int) is Macro ==> count_dsps(
            aig,
            staged,
            endpoints.take(j),
        ) < count_dsps(aig, staged, endpoints),
    decreases endpoints.len() - j,
{
    if j < endpoints.len() {
        lemma_counts_grow(aig, staged, endpoints, j + 1);
        assert(endpoints.take(j + 1).drop_last() =~= endpoints.take(j));
        assert(endpoints.take(j + 1).last() == endpoints[j]);
    } else {
        assert(endpoints.take(j) =~= endpoints);
    }
}

/// The order of the counts of two groups.
proof fn lemma_counts_between(aig: AIG, staged: StagedAIG, endpoints: Seq<usize>, j: int, i: int)
    requires
        0 <= j < i <= endpoints.len(),
    ensures
        staged.group(&aig, endpoints[j] as int) is RAMBlock ==> count_words(aig, staged, endpoints.take(j)).0
            < count_words(aig, staged, endpoints.take(i)).0,
        staged.group(&aig, endpoints[j] as int) is Macro ==> count_dsps(aig, staged, endpoints.take(j)) < count_dsps(
            aig,
            staged,
            endpoints.take(i),
        ),
{
    lemma_counts_grow(aig, staged, endpoints.take(i), j);
    assert(endpoints.take(i).take(j) =~= endpoints.take(j));
}

/// Activations that are placed alike lead to the same maps.
proof fn lemma_maps_kept(
    aig: AIG,
    staged: StagedAIG,
    a: FlatteningPart,
    b: FlatteningPart,
    endpoints: Seq<usize>,
    base: Map<usize, u32>,
)
    requires
        a.shape == b.shape,
        a.starts == b.starts,
        forall|j: int| 0 <= j < endpoints.len() ==> #[trigger] same_place_of(aig, staged, a, b, endpoints[j]),
    ensures
        input_map_after(aig, staged, a, endpoints, base) == input_map_after(aig, staged, b, endpoints, base),
        output_map_after(aig, staged, a, endpoints, base) == output_map_after(aig, staged, b, endpoints, base),
        staged_map_after(aig, staged, a, endpoints, base) == staged_map_after(aig, staged, b, endpoints, base),
    decreases endpoints.len(),
{
    if endpoints.len() > 0 {
        let before = endpoints.drop_last();
        assert forall|j: int| 0 <= j < before.len() implies #[trigger] same_place_of(aig, staged, a, b, before[j]) by {
            assert(same_place_of(aig, staged, a, b, endpoints[j]));
        }
        lemma_maps_kept(aig, staged, a, b, before, base);
        assert(same_place_of(aig, staged, a, b, endpoints[endpoints.len() - 1]));
    }
}

/// Is what the endpoint group stores placed alike?
spec fn same_place_of(aig: AIG, staged: StagedAIG, a: FlatteningPart, b: FlatteningPart, e: usize) -> bool {
    let g = staged.group(&aig, e as int);
    match g {
        EndpointGroup::DFF(dff) => dff.d_iv != 0 ==> a.comb_outputs_activations.place_of(activation(g).unwrap())
            == b.comb_outputs_activations.place_of(activation(g).unwrap()),
        EndpointGroup::PrimaryOutput(_) => a.comb_outputs_activations.place_of(activation(g).unwrap())
            == b.comb_outputs_activations.place_of(activation(g).unwrap()),
        EndpointGroup::StagedIOPin(_) => a.comb_outputs_activations.place_of(activation(g).unwrap())
            == b.comb_outputs_activations.place_of(activation(g).unwrap()),
        _ => true,
    }
}

/// Adds the read data of an SRAM to the maps.
fn map_ram(
    input_map: &mut IndexMap<usize, u32>,
    output_map: &mut IndexMap<usize, u32>,
    ram: &RAMBlock,
    at: u32,
    Ghost(aig): Ghost<AIG>,
)
    requires
        at <= u32::MAX - 31,
        aig.num_aigpins <= crate::aig::MAX_AIGPINS,
        forall|k: int|
            0 <= k < 32 ==> (#[trigger] ram.port_r_rd_data@[k] == usize::MAX || ram.port_r_rd_data@[k]
                <= aig.num_aigpins),
    ensures
        pos_view(*final(input_map)) == with_ram(pos_view(*old(input_map)), *ram, at as int, 32, false),
        pos_view(*final(output_map)) == with_ram(pos_view(*old(output_map)), *ram, at as int, 32, true),
{
    let mut k: usize = 0;
    while k < 32
        invariant
            k <= 32,
            at <= u32::MAX - 31,
            aig.num_aigpins <= crate::aig::MAX_AIGPINS,
            forall|k: int|
                0 <= k < 32 ==> (#[trigger] ram.port_r_rd_data@[k] == usize::MAX || ram.port_r_rd_data@[k]
                    <= aig.num_aigpins),
            pos_view(*input_map) == with_ram(pos_view(*old(input_map)), *ram, at as int, k as nat, false),
            pos_view(*output_map) == with_ram(pos_view(*old(output_map)), *ram, at as int, k as nat, true),
        decreases 32 - k,
    {
        let d = ram.port_r_rd_data[k];
        assert(ram.port_r_rd_data@[k as int] == d);
        if d != usize::MAX {
            pos_insert(input_map, d, at + k as u32);
            pos_insert(output_map, d * 2, at + k as u32);
        }
        k += 1;
    }
}

/// Adds the outputs of a DSP to the map.
fn map_dsp(input_map: &mut IndexMap<usize, u32>, m: &MacroInst, at: u32)
    requires
        at <= u32::MAX - 63,
        m.outputs@.len() == 48,
    ensures
        pos_view(*final(input_map)) == with_dsp(pos_view(*old(input_map)), *m, at as int, 48),
{
    let mut k: usize = 0;
    while k < 48
        invariant
            k <= 48,
            at <= u32::MAX - 63,
            m.outputs@.len() == 48,
            pos_view(*input_map) == with_dsp(pos_view(*old(input_map)), *m, at as int, k as nat),
        decreases 48 - k,
    {
        if m.outputs[k] != 0 {
            pos_insert(input_map, m.outputs[k], at + k as u32);
        }
        k += 1;
    }
}

/// Changes that stay away from outputs keep them.
proof fn lemma_acts_kept(a: FlatteningPart, b: FlatteningPart)
    requires
        a.wf(),
        b.shape == a.shape,
        b.comb_outputs_activations == a.comb_outputs_activations,
        b.cnt_placed_duplicate_permute == a.cnt_placed_duplicate_permute,
        b.tables.wf(),
        forall|g: int|
            a.shape.dup_gather_end() - 32 * a.shape.num_duplicate_writeouts <= g < a.shape.dup_gather_end()
                ==> #[trigger] b.tables.gather(g) == a.tables.gather(g),
        forall|q: int|
            0 <= q < 32 * a.shape.num_normal_writeouts || a.shape.dup_end() - 32 * a.shape.num_duplicate_writeouts
                <= q < a.shape.dup_end() ==> #[trigger] b.tables.enable(q) == a.tables.enable(q),
        forall|q: int|
            0 <= q < 32 * a.shape.num_normal_writeouts || a.shape.dup_end() - 32 * a.shape.num_duplicate_writeouts
                <= q < a.shape.dup_end() ==> #[trigger] b.tables.inverted(q) == a.tables.inverted(q),
    ensures
        b.wf(),
{
    let x = a.comb_outputs_activations;
    a.shape.lemma_positions();
    super::activations::lemma_flags_imply(x.further_placed(), x.further());
    assert forall|i: int| #[trigger] b.act_ok(i) by {
        assert(a.act_ok(i));
        if 0 <= i < x.list@.len() {
            if let Some(q) = x.pos@[i] {
                assert(b.tables.enable(q as int) == a.tables.enable(q as int));
                assert(b.tables.inverted(q as int) == a.tables.inverted(q as int));
                if !x.first@[i] {
                    let g = a.shape.dup_gather_end() - (a.shape.dup_end() - q);
                    assert(b.tables.gather(g) == a.tables.gather(g));
                }
            }
        }
    }
    assert forall|i: int, j: int| #[trigger] b.apart(i, j) by {
        assert(a.apart(i, j));
    }
}

/// Is the part of the tables for the SRAM with the given number the same?
spec fn ram_same(shape: PartShape, a: Tables, b: Tables, r: int) -> bool {
    &&& forall|g: int| 128 * r <= g < 128 * r + 128 ==> #[trigger] b.gather(g) == a.gather(g)
    &&& forall|q: int|
        ram_bits(shape, r) <= q < ram_bits(shape, r) + 32 ==> #[trigger] b.enable(q) == a.enable(q)
    &&& forall|q: int|
        ram_bits(shape, r) <= q < ram_bits(shape, r) + 32 ==> #[trigger] b.inverted(q) == a.inverted(q)
}

/// Is the part of the tables for the DSP with the given number the same?
spec fn dsp_same(shape: PartShape, a: Tables, b: Tables, d: int) -> bool {
    &&& forall|g: int|
        dsp_lane(shape, d) <= g < dsp_lane(shape, d) + 128 ==> #[trigger] b.gather(g) == a.gather(g)
    &&& forall|q: int|
        dsp_bits(shape, d) <= q < dsp_bits(shape, d) + 64 ==> #[trigger] b.enable(q) == a.enable(q)
    &&& forall|q: int|
        dsp_bits(shape, d) <= q < dsp_bits(shape, d) + 64 ==> #[trigger] b.inverted(q) == a.inverted(q)
}

/// The state that a partition uses stays within what a position can name.
pub open spec fn starts_ok(p: FlatteningPart) -> bool {
    p.starts.state_start + p.shape.num_writeouts <= 0x0800_0000
}

/// Activations are placed within the words of the part.
pub(super) proof fn lemma_place_within(p: FlatteningPart, a: (usize, usize))
    requires
        p.wf(),
        p.comb_outputs_activations.list@.contains(a),
    ensures
        p.comb_outputs_activations.place_of(a) matches Some(q) ==> q < 32 * p.shape.num_writeouts,
{
    let acts = p.comb_outputs_activations;
    let (pin, key) = a;
    assert(gate_view(acts.ids).contains_key((pin, key)));
    if let Some(q) = acts.place_of(a) {
        let id = acts.id(a);
        assert(p.act_ok(id));
        if acts.first@[id] {
            assert(p.shape.pins()[acts.list@[id].0] < 32 * p.shape.num_normal_writeouts);
        }
    }
}

/// The activation of an endpoint group is known.
spec fn group_known(p: FlatteningPart, g: EndpointGroup) -> bool {
    activation(g) matches Some(a) ==> p.comb_outputs_activations.list@.contains(a)
}

/// What the endpoint group refers to stays in range.
spec fn group_sized(aig: AIG, p: FlatteningPart, sram: int, dsp: int, g: EndpointGroup) -> bool {
    match g {
        EndpointGroup::RAMBlock(ram) => sram < p.shape.num_srams && forall|k: int|
            0 <= k < 32 ==> (#[trigger] ram.port_r_rd_data@[k] == usize::MAX || ram.port_r_rd_data@[k]
                <= aig.num_aigpins),
        EndpointGroup::Macro(m) => dsp < p.shape.num_dsps && m.wf(),
        EndpointGroup::DFF(dff) => dff.en_iv * 2 + 1 <= usize::MAX,
        EndpointGroup::StagedIOPin(pin) => pin <= aig.num_aigpins,
        _ => true,
    }
}

impl FlatteningPart {
    /// Everything but what is placed is the same.
    pub open spec fn same_plan(self, before: FlatteningPart) -> bool {
        &&& self.shape == before.shape
        &&& self.starts == before.starts
        &&& self.comb_outputs_activations.list@ == before.comb_outputs_activations.list@
        &&& gate_view(self.comb_outputs_activations.ids) == gate_view(before.comb_outputs_activations.ids)
        &&& self.comb_outputs_activations.dups == before.comb_outputs_activations.dups
    }

    /// What is placed stays where it is.
    pub open spec fn keeps_places(self, before: FlatteningPart) -> bool {
        forall|i: int|
            0 <= i < before.comb_outputs_activations.pos@.len() && before.comb_outputs_activations.pos@[i] is Some
                ==> #[trigger] self.comb_outputs_activations.pos@[i] == before.comb_outputs_activations.pos@[i]
    }

    /// Stores an endpoint group.
    fn store_group(
        &mut self,
        g: EndpointGroup,
        sram: u32,
        dsp: u32,
        input_map: &mut IndexMap<usize, u32>,
        staged_io_map: &mut IndexMap<usize, u32>,
        output_map: &mut IndexMap<usize, u32>,
        Ghost(aig): Ghost<AIG>,
    ) -> (r: Result<(), FlattenError>)
        requires
            old(self).wf(),
            starts_ok(*old(self)),
            aig.num_aigpins <= crate::aig::MAX_AIGPINS,
            group_known(*old(self), g),
            group_sized(aig, *old(self), sram as int, dsp as int, g),
        ensures
            final(self).wf(),
            final(self).same_plan(*old(self)),
            final(self).keeps_places(*old(self)),
            r is Ok <==> group_fine(old(self).shape.pins(), g),
            r is Ok ==> group_stored(*final(self), sram as int, dsp as int, g),
            r is Ok ==> pos_view(*final(input_map)) == input_step(
                *final(self),
                sram as int,
                dsp as int,
                g,
                pos_view(*old(input_map)),
            ),
            r is Ok ==> pos_view(*final(output_map)) == output_step(
                *final(self),
                sram as int,
                g,
                pos_view(*old(output_map)),
            ),
            r is Ok ==> pos_view(*final(staged_io_map)) == staged_step(
                *final(self),
                g,
                pos_view(*old(staged_io_map)),
            ),
            forall|x: int|
                0 <= x < old(self).shape.num_srams && !(g is RAMBlock && x == sram) ==> #[trigger] ram_same(
                    old(self).shape,
                    old(self).tables,
                    final(self).tables,
                    x,
                ),
            forall|x: int|
                0 <= x < old(self).shape.num_dsps && !(g is Macro && x == dsp) ==> #[trigger] dsp_same(
                    old(self).shape,
                    old(self).tables,
                    final(self).tables,
                    x,
                ),
            r matches Err(e) ==> group_fault(old(self).shape.pins(), g, e),
    {
        let ghost s0 = *self;
        proof {
            self.shape.lemma_positions();
        }
        match g {
            EndpointGroup::RAMBlock(ram) => {
                match place_ram(&self.shape, &mut self.tables, sram as usize, ram) {
                    Err(e) => {
                        proof {
                            lemma_acts_kept(s0, *self);
                        }
                        return Err(e);
                    },
                    Ok(()) => {},
                }
                proof {
                    lemma_acts_kept(s0, *self);
                }
                let at: u32 = (self.starts.state_start + self.shape.num_writeouts - self.shape.num_srams + sram) * 32;
                map_ram(input_map, output_map, ram, at, Ghost(aig));
            },
            EndpointGroup::Macro(m) => {
                match place_dsp(&self.shape, &mut self.tables, dsp as usize, m) {
                    Err(e) => {
                        proof {
                            lemma_acts_kept(s0, *self);
                        }
                        return Err(e);
                    },
                    Ok(()) => {},
                }
                proof {
                    lemma_acts_kept(s0, *self);
                }
                let at: u32 = (self.starts.state_start + self.shape.num_normal_writeouts + dsp * 2) * 32;
                map_dsp(input_map, m, at);
            },
            EndpointGroup::PrimaryOutput(idx_iv) => {
                if idx_iv <= 1 {
                    return Err(FlattenError::ConstantOutput);
                }
                match self.get_or_place_output_with_activation(idx_iv, 1) {
                    Err(e) => {
                        return Err(e);
                    },
                    Ok(q) => {
                        proof {
                            lemma_place_within(*self, ((idx_iv / 2) as usize, (1 * 2 + idx_iv % 2) as usize));
                        }
                        let pos: u32 = self.starts.state_start * 32 + q as u32;
                        pos_insert(output_map, idx_iv, pos);
                    },
                }
            },
            EndpointGroup::StagedIOPin(idx) => {
                if idx == 0 {
                    return Err(FlattenError::ConstantOutput);
                }
                match self.get_or_place_output_with_activation(idx * 2, 1) {
                    Err(e) => {
                        return Err(e);
                    },
                    Ok(q) => {
                        proof {
                            lemma_place_within(*self, (((idx * 2) / 2) as usize, (1 * 2 + (idx * 2) % 2) as usize));
                        }
                        let pos: u32 = self.starts.state_start * 32 + q as u32;
                        pos_insert(staged_io_map, idx, pos);
                    },
                }
            },
            EndpointGroup::DFF(dff) => {
                if dff.d_iv == 0 {
                    pos_insert(input_map, dff.q, self.starts.zero_bit_pos);
                    return Ok(());
                }
                if dff.d_iv == 1 {
                    return Err(FlattenError::ConstantOne);
                }
                match self.get_or_place_output_with_activation(dff.d_iv, dff.en_iv) {
                    Err(e) => {
                        return Err(e);
                    },
                    Ok(q) => {
                        proof {
                            lemma_place_within(
                                *self,
                                ((dff.d_iv / 2) as usize, (dff.en_iv * 2 + dff.d_iv % 2) as usize),
                            );
                        }
                        let pos: u32 = self.starts.state_start * 32 + q as u32;
                        pos_insert(output_map, dff.d_iv, pos);
                        pos_insert(input_map, dff.q, pos);
                    },
                }
            },
        }
        Ok(())
    }
}

/// The group of an endpoint of a partition.
pub open spec fn group_of<'a>(aig: &'a AIG, staged: &StagedAIG, part: &Partition, i: int) -> EndpointGroup<'a> {
    staged.group(aig, part.endpoints@[i] as int)
}

/// Is the endpoint with the given number stored?
pub open spec fn endpoint_stored(
    aig: AIG,
    staged: StagedAIG,
    part: Partition,
    p: FlatteningPart,
    i: int,
) -> bool {
    group_stored(
        p,
        count_words(aig, staged, part.endpoints@.take(i)).0 as int,
        count_dsps(aig, staged, part.endpoints@.take(i)) as int,
        group_of(&aig, &staged, &part, i),
    )
}

/// Can all endpoint groups of a partition be stored?
pub open spec fn all_fine(aig: AIG, staged: StagedAIG, part: Partition, pins: Map<usize, usize>) -> bool {
    forall|i: int|
        0 <= i < part.endpoints@.len() ==> group_fine(pins, #[trigger] group_of(&aig, &staged, &part, i))
}

/// Does every word that is reserved for copies of outputs hold one?
pub open spec fn copies_used(p: FlatteningPart) -> bool {
    (p.cnt_placed_duplicate_permute + 31) / 32 == p.shape.num_duplicate_writeouts
}

/// Every activation is that of an endpoint.
proof fn lemma_activation_source(aig: AIG, staged: StagedAIG, endpoints: Seq<usize>, a: (usize, usize))
    requires
        activations(aig, staged, endpoints).contains(a),
    ensures
        exists|i: int|
            0 <= i < endpoints.len() && activation(staged.group(&aig, #[trigger] endpoints[i] as int)) == Some(a),
    decreases endpoints.len(),
{
    if endpoints.len() > 0 {
        let before = endpoints.drop_last();
        let rest = activations(aig, staged, before);
        let all = activations(aig, staged, endpoints);
        let k = all.index_of(a);
        if k < rest.len() {
            assert(rest[k] == a);
            assert(rest.contains(a));
            lemma_activation_source(aig, staged, before, a);
            let i = choose|i: int|
                0 <= i < before.len() && activation(staged.group(&aig, #[trigger] before[i] as int)) == Some(a);
            assert(endpoints[i] == before[i]);
        } else {
            assert(endpoints[endpoints.len() - 1] == endpoints.last());
        }
    }
}

/// The activation of every endpoint is among the activations.
pub(super) proof fn lemma_activation_known(aig: AIG, staged: StagedAIG, endpoints: Seq<usize>, i: int)
    requires
        0 <= i < endpoints.len(),
    ensures
        activation(staged.group(&aig, endpoints[i] as int)) matches Some(a) ==> activations(
            aig,
            staged,
            endpoints,
        ).contains(a),
    decreases endpoints.len(),
{
    let before = endpoints.drop_last();
    let rest = activations(aig, staged, before);
    let all = activations(aig, staged, endpoints);
    if let Some(a) = activation(staged.group(&aig, endpoints[i] as int)) {
        if i < endpoints.len() - 1 {
            lemma_activation_known(aig, staged, before, i);
            assert(before[i] == endpoints[i]);
            assert(all[rest.index_of(a)] == a);
        } else {
            assert(all[rest.len() as int] == a);
        }
    }
}

/// Where all endpoints are stored, all activations are placed.
proof fn lemma_copies_used(aig: AIG, staged: StagedAIG, part: Partition, p: FlatteningPart)
    requires
        p.wf(),
        p.shape.describes(aig, staged, part),
        p.comb_outputs_activations.models(activations(aig, staged, part.endpoints@)),
        forall|i: int| 0 <= i < part.endpoints@.len() ==> #[trigger] endpoint_stored(aig, staged, part, p, i),
    ensures
        copies_used(p),
{
    let x = p.comb_outputs_activations;
    assert forall|k: int| 0 <= k < x.list@.len() implies x.pos@[k] is Some by {
        let a = x.list@[k];
        assert(a == (a.0, a.1));
        assert(x.list@.contains((a.0, a.1)));
        lemma_activation_source(aig, staged, part.endpoints@, a);
        let i = choose|i: int|
            0 <= i < part.endpoints@.len() && activation(staged.group(&aig, #[trigger] part.endpoints@[i] as int))
                == Some(a);
        assert(endpoint_stored(aig, staged, part, p, i));
        assert(group_of(&aig, &staged, &part, i) == staged.group(&aig, part.endpoints@[i] as int));
        assert(gate_view(x.ids).contains_key((a.0, a.1)));
        assert(x.list@[gate_view(x.ids)[(a.0, a.1)] as int] == a);
    }
    assert(x.further_placed() =~= x.further());
}

/// The SRAM and DSP regions of earlier endpoints stay.
proof fn lemma_stored_kept(
    aig: AIG,
    staged: StagedAIG,
    part: Partition,
    a: FlatteningPart,
    b: FlatteningPart,
    i: int,
    j: int,
)
    requires
        a.wf(),
        b.wf(),
        b.same_plan(a),
        b.keeps_places(a),
        a.shape.describes(aig, staged, part),
        0 <= j < i < part.endpoints@.len(),
        endpoint_stored(aig, staged, part, a, j),
        group_known(a, group_of(&aig, &staged, &part, j)),
        ({
            let g = group_of(&aig, &staged, &part, i);
            let sram = count_words(aig, staged, part.endpoints@.take(i)).0;
            let dsp = count_dsps(aig, staged, part.endpoints@.take(i));
            &&& forall|x: int|
                0 <= x < a.shape.num_srams && !(g is RAMBlock && x == sram) ==> #[trigger] ram_same(
                    a.shape,
                    a.tables,
                    b.tables,
                    x,
                )
            &&& forall|x: int|
                0 <= x < a.shape.num_dsps && !(g is Macro && x == dsp) ==> #[trigger] dsp_same(
                    a.shape,
                    a.tables,
                    b.tables,
                    x,
                )
        }),
    ensures
        endpoint_stored(aig, staged, part, b, j),
        same_place_of(aig, staged, a, b, part.endpoints@[j]),
{
    let g = group_of(&aig, &staged, &part, j);
    let sram = count_words(aig, staged, part.endpoints@.take(j)).0 as int;
    let dsp = count_dsps(aig, staged, part.endpoints@.take(j)) as int;
    lemma_counts_between(aig, staged, part.endpoints@, j, i);
    lemma_counts_grow(aig, staged, part.endpoints@, j);
    match g {
        EndpointGroup::RAMBlock(ram) => {
            assert(ram_same(a.shape, a.tables, b.tables, sram));
            lemma_ram_kept(a.shape, a.tables, b.tables, sram, *ram);
        },
        EndpointGroup::Macro(m) => {
            assert(dsp_same(a.shape, a.tables, b.tables, dsp));
            lemma_dsp_kept(a.shape, a.tables, b.tables, dsp, *m);
        },
        _ => {
            if let Some(act) = activation(g) {
                assert(act == (act.0, act.1));
                assert(gate_view(a.comb_outputs_activations.ids).contains_key((act.0, act.1)));
                let id = a.comb_outputs_activations.id(act);
                if a.comb_outputs_activations.pos@[id] is Some {
                    assert(b.comb_outputs_activations.pos@[id] == a.comb_outputs_activations.pos@[id]);
                }
            }
        },
    }
}

impl FlatteningPart {
    /// Stores all endpoint groups of the partition, and records where what
    /// they store is found.
    pub fn make_inputs_outputs(
        &mut self,
        aig: &AIG,
        staged: &StagedAIG,
        part: &Partition,
        input_map: &mut IndexMap<usize, u32>,
        staged_io_map: &mut IndexMap<usize, u32>,
        output_map: &mut IndexMap<usize, u32>,
    ) -> (r: Result<(), FlattenError>)
        requires
            endpoints_readable(*aig),
            sram_data_ok(*aig),
            staged.wf(*aig),
            are_groups(*staged, part.endpoints@),
            old(self).wf(),
            starts_ok(*old(self)),
            old(self).shape.describes(*aig, *staged, *part),
            old(self).comb_outputs_activations.models(activations(*aig, *staged, part.endpoints@)),
        ensures
            final(self).wf(),
            final(self).same_plan(*old(self)),
            r is Ok <==> all_fine(*aig, *staged, *part, old(self).shape.pins()),
            r is Ok ==> copies_used(*final(self)),
            r matches Err(e) ==> e is Unplaced || e is NotDsp || e is ConstantOutput || e is ConstantOne,
            r matches Err(e) ==> exists|i: int|
                0 <= i < part.endpoints@.len() && group_fault(
                    old(self).shape.pins(),
                    #[trigger] group_of(aig, staged, part, i),
                    e,
                ),
            r is Ok ==> forall|i: int|
                0 <= i < part.endpoints@.len() ==> #[trigger] endpoint_stored(
                    *aig,
                    *staged,
                    *part,
                    *final(self),
                    i,
                ),
            r is Ok ==> pos_view(*final(input_map)) == input_map_after(
                *aig,
                *staged,
                *final(self),
                part.endpoints@,
                pos_view(*old(input_map)),
            ),
            r is Ok ==> pos_view(*final(output_map)) == output_map_after(
                *aig,
                *staged,
                *final(self),
                part.endpoints@,
                pos_view(*old(output_map)),
            ),
            r is Ok ==> pos_view(*final(staged_io_map)) == staged_map_after(
                *aig,
                *staged,
                *final(self),
                part.endpoints@,
                pos_view(*old(staged_io_map)),
            ),
    {
        let ghost in0 = pos_view(*input_map);
        let ghost out0 = pos_view(*output_map);
        let ghost io0 = pos_view(*staged_io_map);
        let ghost eps = part.endpoints@;
        let mut sram: u32 = 0;
        let mut dsp: u32 = 0;
        let mut i: usize = 0;
        assert(eps.take(0) =~= Seq::<usize>::empty());
        while i < part.endpoints.len()
            invariant
                endpoints_readable(*aig),
                sram_data_ok(*aig),
                staged.wf(*aig),
                are_groups(*staged, eps),
                eps == part.endpoints@,
                in0 == pos_view(*old(input_map)),
                out0 == pos_view(*old(output_map)),
                io0 == pos_view(*old(staged_io_map)),
                self.wf(),
                self.same_plan(*old(self)),
                starts_ok(*self),
                self.shape.describes(*aig, *staged, *part),
                self.comb_outputs_activations.models(activations(*aig, *staged, eps)),
                i <= eps.len(),
                sram == count_words(*aig, *staged, eps.take(i as int)).0,
                dsp == count_dsps(*aig, *staged, eps.take(i as int)),
                sram <= self.shape.num_srams,
                dsp <= self.shape.num_dsps,
                forall|j: int|
                    0 <= j < i ==> group_fine(self.shape.pins(), #[trigger] group_of(aig, staged, part, j)),
                forall|j: int| 0 <= j < i ==> #[trigger] endpoint_stored(*aig, *staged, *part, *self, j),
                pos_view(*input_map) == input_map_after(*aig, *staged, *self, eps.take(i as int), in0),
                pos_view(*output_map) == output_map_after(*aig, *staged, *self, eps.take(i as int), out0),
                pos_view(*staged_io_map) == staged_map_after(*aig, *staged, *self, eps.take(i as int), io0),
            decreases eps.len() - i,
        {
            let e = part.endpoints[i];
            let ghost s1 = *self;
            let ghost before = eps.take(i as int);
            proof {
                assert(eps[i as int] < staged.group_count());
                assert(eps.take(i + 1).drop_last() =~= before);
                assert(eps.take(i + 1).last() == e);
                lemma_group_pins(*aig, *staged, e as int);
                crate::pe::budget::lemma_dff_literal(*aig, *staged, e as int);
                lemma_activation_known(*aig, *staged, eps, i as int);
                lemma_counts_grow(*aig, *staged, eps, i as int);
                lemma_counts_grow(*aig, *staged, eps, i + 1);
                lemma_group_range(*aig, *staged, e as int);
            }
            let g = staged.get_endpoint_group(aig, e);
            proof {
                assert(g == group_of(aig, staged, part, i as int));
                assert(group_known(*self, g)) by {
                    if let Some(a) = activation(g) {
                        assert(a == (a.0, a.1));
                        assert(self.comb_outputs_activations.list@.contains((a.0, a.1)));
                    }
                }
            }
            match self.store_group(g, sram, dsp, input_map, staged_io_map, output_map, Ghost(*aig)) {
                Err(e) => {
                    proof {
                        assert(!group_fine(self.shape.pins(), group_of(aig, staged, part, i as int)));
                        assert(group_fault(self.shape.pins(), group_of(aig, staged, part, i as int), e));
                    }
                    return Err(e);
                },
                Ok(()) => {},
            }
            proof {
                assert forall|j: int| 0 <= j < i implies #[trigger] endpoint_stored(*aig, *staged, *part, *self, j)
                    && same_place_of(*aig, *staged, s1, *self, eps[j]) by {
                    assert(endpoint_stored(*aig, *staged, *part, s1, j));
                    lemma_activation_known(*aig, *staged, eps, j);
                    assert(group_known(s1, group_of(aig, staged, part, j))) by {
                        if let Some(a) = activation(group_of(aig, staged, part, j)) {
                            assert(a == (a.0, a.1));
                            assert(s1.comb_outputs_activations.list@.contains((a.0, a.1)));
                        }
                    }
                    lemma_stored_kept(*aig, *staged, *part, s1, *self, i as int, j);
                }
                assert forall|j: int| 0 <= j < before.len() implies #[trigger] same_place_of(
                    *aig,
                    *staged,
                    s1,
                    *self,
                    before[j],
                ) by {
                    assert(endpoint_stored(*aig, *staged, *part, *self, j));
                    assert(before[j] == eps[j]);
                }
                lemma_maps_kept(*aig, *staged, s1, *self, before, in0);
                lemma_maps_kept(*aig, *staged, s1, *self, before, out0);
                lemma_maps_kept(*aig, *staged, s1, *self, before, io0);
                assert(endpoint_stored(*aig, *staged, *part, *self, i as int));
            }
            if matches!(g, EndpointGroup::RAMBlock(_)) {
                sram += 1;
            }
            if matches!(g, EndpointGroup::Macro(_)) {
                dsp += 1;
            }
            i += 1;
        }
        proof {
            assert(eps.take(eps.len() as int) =~= eps);
            lemma_copies_used(*aig, *staged, *part, *self);
        }
        Ok(())
    }
}

/// SRAM data of endpoint groups is in range.
proof fn lemma_group_range(aig: AIG, staged: StagedAIG, i: int)
    requires
        endpoints_readable(aig),
        sram_data_ok(aig),
        staged.wf(aig),
        0 <= i < staged.group_count(),
    ensures
        staged.group(&aig, i) matches EndpointGroup::RAMBlock(ram) ==> forall|k: int|
            0 <= k < 32 ==> (#[trigger] ram.port_r_rd_data@[k] == usize::MAX || ram.port_r_rd_data@[k]
                <= aig.num_aigpins),
        staged.group(&aig, i) matches EndpointGroup::StagedIOPin(pin) ==> pin <= aig.num_aigpins,
{
    let n = staged.primary_output_pins@.len();
    if i < n {
        assert(staged.primary_output_pins@[i] <= aig.num_aigpins);
    } else {
        let e = staged.endpoints@[i - n] as int;
        assert(e < aig.endpoint_count());
        let a = crate::collections::set_items(aig.primary_outputs).len() + aig.dffs.vals().len();
        if a <= e < a + aig.srams.vals().len() {
            let ram = aig.srams.vals()[e - a];
            assert(staged.group(&aig, i) == EndpointGroup::RAMBlock(&ram));
            assert forall|k: int| 0 <= k < 32 implies (#[trigger] ram.port_r_rd_data@[k] == usize::MAX
                || ram.port_r_rd_data@[k] <= aig.num_aigpins) by {
                assert(aig.srams.vals()[e - a].port_r_rd_data@[k] == ram.port_r_rd_data@[k]);
            }
        }
    }
}

} // verus!
