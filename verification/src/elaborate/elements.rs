//! Inputs of flip-flops, SRAMs and macros.

use super::cells::{slot_pin, is_clock_name, is_clocked, BuildError, CellKind};
use super::clocks::{clock_fault, clock_lit, clock_path, lemma_clock_kept};
use super::rules::{has_output, is_gated, lit_or, macro_out, or_not_lit};
use crate::aig::{and_lit, defined, DriverType, RAMBlock, DFF};
use crate::macros::{MacroInst, MacroKind};
use crate::netlist::Netlist;
use vstd::prelude::*;

verus! {

/// Is `o` the literal that tells whether the clock at the pin is active? Where
/// there is no pin, it is the default.
pub open spec fn clock_or(
    nl: Netlist,
    drivers: Seq<DriverType>,
    lits: Seq<usize>,
    p: Option<usize>,
    default: usize,
    o: usize,
) -> bool {
    match p {
        None => o == default,
        Some(p) => clock_lit(drivers, lits, false, clock_path(nl, p, false, nl.num_pins()), o),
    }
}

/// Does the clock path from a pin lead to a clock, and are all enables along it
/// defined?
pub open spec fn clock_fine(nl: Netlist, lits: Seq<usize>, p: usize) -> bool {
    &&& clock_fault(nl, p, nl.num_pins()) is None
    &&& forall|i: int|
        0 <= i < clock_path(nl, p, false, nl.num_pins()).enables.len() ==> defined(
            lits[#[trigger] clock_path(nl, p, false, nl.num_pins()).enables[i] as int],
        )
}

/// Is this the name of a clock pin of the kind?
pub open spec fn is_clock_of(kind: CellKind, name: Seq<char>) -> bool {
    match kind {
        CellKind::Dff => name == "CLK"@,
        CellKind::Ram => name == "PORT_R_CLK"@ || name == "PORT_W_CLK"@,
        CellKind::Macro(k) => !(k is Carry4) && name == "CLK"@,
        _ => false,
    }
}

/// Are the clock paths from some pins fine?
pub open spec fn clocks_fine(nl: Netlist, lits: Seq<usize>, kind: CellKind, pins: Seq<usize>) -> bool {
    forall|i: int|
        0 <= i < pins.len() && is_clock_of(kind, nl.name(#[trigger] pins[i])) ==> clock_fine(nl, lits, pins[i])
}

/// Is the flip-flop that of a cell, with `clk` for its clock, and `d` and `en`
/// for data and enable behind set?
pub open spec fn dff_inputs(
    nl: Netlist,
    drivers: Seq<DriverType>,
    lits: Seq<usize>,
    c: usize,
    dff: DFF,
    clk: usize,
    d: usize,
    en: usize,
) -> bool {
    let d_iv = lit_or(lits, nl.cell_pin(c, "D"@), 0);
    let s_iv = lit_or(lits, nl.cell_pin(c, "S"@), 1);
    let r_iv = lit_or(lits, nl.cell_pin(c, "R"@), 1);
    &&& defined(d_iv)
    &&& defined(s_iv)
    &&& defined(r_iv)
    &&& clocks_fine(nl, lits, CellKind::Dff, nl.pins(c))
    &&& clock_or(nl, drivers, lits, nl.cell_pin(c, "CLK"@), 0, clk)
    &&& or_not_lit(drivers, d_iv, s_iv, d)
    &&& and_lit(drivers, d, r_iv, dff.d_iv)
    &&& or_not_lit(drivers, clk, s_iv, en)
    &&& or_not_lit(drivers, en, r_iv, dff.en_iv)
}

/// Is the flip-flop that of a cell? It stores its data when its clock is
/// active, and when set or reset is.
pub open spec fn dff_ok(nl: Netlist, drivers: Seq<DriverType>, lits: Seq<usize>, c: usize, dff: DFF) -> bool {
    &&& dff.d_iv / 2 < drivers.len()
    &&& dff.en_iv / 2 < drivers.len()
    &&& exists|clk: usize, d: usize, en: usize| #[trigger] dff_inputs(nl, drivers, lits, c, dff, clk, d, en)
}

/// Is the pin one of an SRAM's buses, with a bit that does not exist?
pub open spec fn is_bad_ram_pin(nl: Netlist, p: usize) -> bool {
    let name = nl.name(p);
    ||| (name == "PORT_R_ADDR"@ || name == "PORT_W_ADDR"@) && !(nl.bit(p) is Some && nl.bit(p).unwrap() < 13)
    ||| (name == "PORT_W_WR_DATA"@ || name == "PORT_W_WR_EN"@) && !(nl.bit(p) is Some && nl.bit(p).unwrap() < 32)
}

/// Do the literals of a bus come from the pins of a cell?
pub open spec fn bus_ok(nl: Netlist, lits: Seq<usize>, pins: Seq<usize>, name: Seq<char>, v: Seq<usize>) -> bool {
    forall|b: int| 0 <= b < v.len() ==> #[trigger] v[b] == lit_or(lits, nl.last_bit(pins, name, b as usize), 0)
}

/// Are the literals of a bus defined?
pub open spec fn bus_defined(nl: Netlist, lits: Seq<usize>, pins: Seq<usize>, name: Seq<char>) -> bool {
    forall|b: usize| b < 32 ==> defined(lit_or(lits, #[trigger] nl.last_bit(pins, name, b), 0))
}

/// Is the SRAM that of a cell, with `wclk` for its write clock?
pub open spec fn ram_inputs(
    nl: Netlist,
    drivers: Seq<DriverType>,
    lits: Seq<usize>,
    c: usize,
    r: RAMBlock,
    wclk: usize,
) -> bool {
    let pins = nl.pins(c);
    &&& forall|i: int| 0 <= i < pins.len() ==> !is_bad_ram_pin(nl, #[trigger] pins[i])
    &&& clocks_fine(nl, lits, CellKind::Ram, pins)
    &&& bus_ok(nl, lits, pins, "PORT_R_ADDR"@, r.port_r_addr_iv@)
    &&& bus_ok(nl, lits, pins, "PORT_W_ADDR"@, r.port_w_addr_iv@)
    &&& bus_ok(nl, lits, pins, "PORT_W_WR_DATA"@, r.port_w_wr_data_iv@)
    &&& clock_or(nl, drivers, lits, nl.cell_pin(c, "PORT_R_CLK"@), 0, r.port_r_en_iv)
    &&& clock_or(nl, drivers, lits, nl.cell_pin(c, "PORT_W_CLK"@), 0, wclk)
    &&& bus_defined(nl, lits, pins, "PORT_W_WR_EN"@)
    &&& forall|b: int|
        0 <= b < 32 ==> and_lit(
            drivers,
            lit_or(lits, nl.last_bit(pins, "PORT_W_WR_EN"@, b as usize), 0),
            wclk,
            #[trigger] r.port_w_wr_en_iv@[b],
        )
}

/// Is the SRAM that of a cell? It writes bits whose enables are set when the
/// write clock is active.
pub open spec fn ram_ok(nl: Netlist, drivers: Seq<DriverType>, lits: Seq<usize>, c: usize, r: RAMBlock) -> bool {
    &&& r.port_r_en_iv / 2 < drivers.len()
    &&& forall|b: int| 0 <= b < 32 ==> #[trigger] r.port_w_wr_en_iv@[b] / 2 < drivers.len()
    &&& exists|wclk: usize| #[trigger] ram_inputs(nl, drivers, lits, c, r, wclk)
}

/// Is the macro that of a cell? Inputs that are not connected have their
/// defaults.
pub open spec fn macro_ok(nl: Netlist, drivers: Seq<DriverType>, lits: Seq<usize>, c: usize, m: MacroInst) -> bool {
    &&& m.wf()
    &&& nl.kind(c) == CellKind::Macro(m.kind)
    &&& clocks_fine(nl, lits, nl.kind(c), nl.pins(c))
    &&& forall|s: int|
        0 <= s < m.inputs@.len() ==> #[trigger] m.inputs@[s] == lit_or(
            lits,
            slot_pin(nl, m.kind, nl.pins(c), s),
            m.kind.spec_default_input(s as usize),
        )
    &&& m.clk_en_iv / 2 < drivers.len() || m.clk_en_iv == 1
    &&& if m.kind is Carry4 {
        m.clk_en_iv == 1
    } else {
        clock_or(nl, drivers, lits, nl.cell_pin(c, "CLK"@), 1, m.clk_en_iv)
    }
}

/// Is this a clock pin of a cell? The design itself has none, unless it is an
/// SRAM.
pub open spec fn is_clock_pin(nl: Netlist, c: usize, p: usize) -> bool {
    c < nl.num_cells() && nl.pins(c).contains(p) && if c == 0 {
        nl.kind(c) == CellKind::Ram && is_clock_of(nl.kind(c), nl.name(p))
    } else {
        is_clocked(nl.kind(c)) && is_clock_name(nl.name(p))
    }
}

/// Is a clock pin of the cell gated by the pin?
pub open spec fn is_gated_by(nl: Netlist, c: usize, d: usize) -> bool {
    exists|p: usize| #[trigger]
        is_clock_pin(nl, c, p) && is_clock_of(nl.kind(c), nl.name(p)) && clock_path(nl, p, false,
            nl.num_pins()).enables.contains(d)
}

/// Does an output of the macro depend combinationally on the pin?
pub open spec fn feeds_output(nl: Netlist, c: usize, kind: MacroKind, d: usize, p: usize, s: usize) -> bool {
    &&& p < nl.num_pins()
    &&& macro_out(nl, p) matches Some((cell, slot)) && cell == c && kind.spec_comb_fanin(slot).contains(s)
    &&& slot_pin(nl, kind, nl.pins(c), s as int) == Some(d)
}

/// Does the value of the pin go into the data of a flip-flop, or enable
/// something?
pub open spec fn goes_into_element(nl: Netlist, d: usize, c: usize) -> bool {
    c < nl.num_cells() && match nl.kind(c) {
        CellKind::Dff => nl.cell_pin(c, "D"@) == Some(d) || nl.cell_pin(c, "S"@) == Some(d) || nl.cell_pin(c, "R"@)
            == Some(d) || is_gated_by(nl, c, d),
        CellKind::Ram => is_gated_by(nl, c, d) || exists|b: usize|
            b < 32 && #[trigger] nl.cell_bit(c, "PORT_W_WR_EN"@, b) == Some(d),
        CellKind::Macro(k) => (has_output(nl, c) && is_gated_by(nl, c, d)) || exists|p: usize,
            s: usize| #[trigger] feeds_output(nl, c, k, d, p, s),
        _ => false,
    }
}

/// What of flip-flops, SRAMs, macros and their clocks stands against a graph?
pub open spec fn element_fault(nl: Netlist, e: BuildError) -> bool {
    match e {
        BuildError::NoOutput(c) => c < nl.num_cells() && nl.kind(c) == CellKind::Dff && !has_output(nl, c),
        BuildError::BadRamPin(p) => exists|c: usize|
            c < nl.num_cells() && #[trigger] nl.kind(c) == CellKind::Ram && nl.pins(c).contains(p) && is_bad_ram_pin(
                nl,
                p,
            ),
        BuildError::GatedClock(d) => is_gated(nl, d) && exists|c: usize| #[trigger] goes_into_element(nl, d, c),
        BuildError::ClockPath(_) | BuildError::ClockLoop(_) | BuildError::ClockCell(_) => exists|c: usize, p: usize|
         #[trigger]
            is_clock_pin(nl, c, p) && clock_fault(nl, p, nl.num_pins()) == Some(e),
        _ => false,
    }
}

/// A gated clock must not go into an element.
pub(crate) proof fn lemma_gated_fault(nl: Netlist, d: usize, c: usize)
    requires
        is_gated(nl, d),
        goes_into_element(nl, d, c),
    ensures
        element_fault(nl, BuildError::GatedClock(d)),
{
}

/// Do all pins without a literal carry a gated clock?
pub open spec fn lits_known(nl: Netlist, lits: Seq<usize>) -> bool {
    forall|p: usize| p < nl.num_pins() && !defined(#[trigger] lits[p as int]) ==> is_gated(nl, p)
}

/// The most gates that the inputs of the first `k` cells need.
pub open spec fn gate_budget(nl: Netlist, k: nat) -> nat
    decreases k,
{
    if k == 0 {
        0
    } else {
        gate_budget(nl, (k - 1) as nat) + nl.cell_pins@[k - 1]@.len() * nl.num_pins() + 32
    }
}

pub(crate) proof fn lemma_clock_or_kept(
    nl: Netlist,
    d0: Seq<DriverType>,
    d1: Seq<DriverType>,
    lits: Seq<usize>,
    p: Option<usize>,
    default: usize,
    o: usize,
)
    requires
        d0.is_prefix_of(d1),
        clock_or(nl, d0, lits, p, default, o),
    ensures
        clock_or(nl, d1, lits, p, default, o),
{
    if let Some(p) = p {
        lemma_clock_kept(d0, d1, lits, false, clock_path(nl, p, false, nl.num_pins()), o);
    }
}

/// A flip-flop stays that of its cell.
pub(crate) proof fn lemma_dff_kept(
    nl: Netlist,
    d0: Seq<DriverType>,
    d1: Seq<DriverType>,
    lits: Seq<usize>,
    c: usize,
    dff: DFF,
)
    requires
        d0.is_prefix_of(d1),
        dff_ok(nl, d0, lits, c, dff),
    ensures
        dff_ok(nl, d1, lits, c, dff),
{
    let (clk, d, en) = choose|clk: usize, d: usize, en: usize| #[trigger]
        dff_inputs(nl, d0, lits, c, dff, clk, d, en);
    lemma_clock_or_kept(nl, d0, d1, lits, nl.cell_pin(c, "CLK"@), 0, clk);
    assert(dff_inputs(nl, d1, lits, c, dff, clk, d, en));
}

/// An SRAM stays that of its cell.
pub(crate) proof fn lemma_ram_kept(
    nl: Netlist,
    d0: Seq<DriverType>,
    d1: Seq<DriverType>,
    lits: Seq<usize>,
    c: usize,
    r: RAMBlock,
)
    requires
        d0.is_prefix_of(d1),
        ram_ok(nl, d0, lits, c, r),
    ensures
        ram_ok(nl, d1, lits, c, r),
{
    let wclk = choose|wclk: usize| #[trigger] ram_inputs(nl, d0, lits, c, r, wclk);
    lemma_clock_or_kept(nl, d0, d1, lits, nl.cell_pin(c, "PORT_R_CLK"@), 0, r.port_r_en_iv);
    lemma_clock_or_kept(nl, d0, d1, lits, nl.cell_pin(c, "PORT_W_CLK"@), 0, wclk);
    assert(ram_inputs(nl, d1, lits, c, r, wclk));
    assert forall|b: int| 0 <= b < 32 implies #[trigger] r.port_w_wr_en_iv@[b] / 2 < d1.len() by {
        assert(r.port_w_wr_en_iv@[b] / 2 < d0.len());
    }
}

/// A macro stays that of its cell.
pub(crate) proof fn lemma_macro_kept(
    nl: Netlist,
    d0: Seq<DriverType>,
    d1: Seq<DriverType>,
    lits: Seq<usize>,
    c: usize,
    m: MacroInst,
)
    requires
        d0.is_prefix_of(d1),
        macro_ok(nl, d0, lits, c, m),
    ensures
        macro_ok(nl, d1, lits, c, m),
{
    if !(m.kind is Carry4) {
        lemma_clock_or_kept(nl, d0, d1, lits, nl.cell_pin(c, "CLK"@), 1, m.clk_en_iv);
    }
}

} // verus!
