//! Netlists whose pins have the directions that the cell library gives them.

use super::cells::{cell_kind, BuildError, CellKind};
use super::elements::{element_fault, is_bad_ram_pin};
use super::graph::build_fault;
use super::rules::{is_output_of, macro_out, pin_fault, ram_out};
use crate::aigpdk::{is_and_cell, is_unary_cell, leaf_direction, ram_bus, scalar_direction};
use crate::macros::MacroKind;
use crate::netlist::Netlist;
use vstd::prelude::*;

verus! {

/// Do all pins of cells have the directions that the cell library gives them?
/// The design itself is no cell of the library.
pub open spec fn is_typed(nl: Netlist) -> bool {
    &&& forall|p: int|
        0 <= p < nl.num_pins() && nl.pin2cell@[p] != 0 ==> leaf_direction(
            nl.celltype(nl.pin2cell@[p]),
            nl.pinnames@[p].name@,
            nl.pinnames@[p].bit,
        ) == Some(#[trigger] nl.pindirect@[p])
    &&& forall|c: int, i: int|
        0 <= c < nl.num_cells() && 0 <= i < nl.cell_pins@[c]@.len() ==> nl.pin2cell@[(
        #[trigger] nl.cell_pins@[c]@[i]) as int] == c
    &&& nl.kind(0) != CellKind::Ram
}

/// The names of macros are no names of other cells.
proof fn lemma_macro_names(name: Seq<char>)
    ensures
        MacroKind::spec_from_celltype(name) is Some ==> !is_unary_cell(name) && !is_and_cell(name) && name != "DFF"@
            && name != "DFFSR"@ && name != "LATCH"@ && name != "CKLNQD"@ && name != "$__RAMGEM_SYNC_"@,
{
    reveal_strlit("CARRY4");
    reveal_strlit("SRLC32E");
    reveal_strlit("DSP48E2_BYPASS");
    reveal_strlit("DSP48E2_BYPASS_PREADD");
    reveal_strlit("DSP48E2_MULT");
    reveal_strlit("DSP48E2_MULT_PREADD");
    reveal_strlit("DSP48E2_MAC");
    reveal_strlit("DSP48E2_MAC_PREADD");
    reveal_strlit("INV");
    reveal_strlit("BUF");
    reveal_strlit("AND2_00_0");
    reveal_strlit("AND2_01_0");
    reveal_strlit("AND2_10_0");
    reveal_strlit("AND2_11_0");
    reveal_strlit("AND2_11_1");
    reveal_strlit("DFF");
    reveal_strlit("DFFSR");
    reveal_strlit("LATCH");
    reveal_strlit("CKLNQD");
    reveal_strlit("$__RAMGEM_SYNC_");
    assert("CARRY4"@.len() == 6 && "CARRY4"@[1] == 'A');
    assert("CKLNQD"@.len() == 6 && "CKLNQD"@[1] == 'K');
    assert("SRLC32E"@.len() == 7);
    assert("DSP48E2_BYPASS"@.len() == 14);
    assert("DSP48E2_BYPASS_PREADD"@.len() == 21);
    assert("DSP48E2_MULT"@.len() == 12);
    assert("DSP48E2_MULT_PREADD"@.len() == 19);
    assert("DSP48E2_MAC"@.len() == 11);
    assert("DSP48E2_MAC_PREADD"@.len() == 18);
    assert("INV"@.len() == 3 && "BUF"@.len() == 3 && "DFF"@.len() == 3);
    assert("AND2_00_0"@.len() == 9 && "AND2_01_0"@.len() == 9 && "AND2_10_0"@.len() == 9);
    assert("AND2_11_0"@.len() == 9 && "AND2_11_1"@.len() == 9);
    assert("DFFSR"@.len() == 5 && "LATCH"@.len() == 5);
    assert("$__RAMGEM_SYNC_"@.len() == 15);
}

/// The names of SRAM pins.
proof fn lemma_ram_names()
    ensures
        "PORT_R_RD_DATA"@ != "PORT_R_CLK"@,
        "PORT_R_RD_DATA"@ != "PORT_W_CLK"@,
        "PORT_R_ADDR"@ != "PORT_R_CLK"@,
        "PORT_R_ADDR"@ != "PORT_W_CLK"@,
        "PORT_W_ADDR"@ != "PORT_R_CLK"@,
        "PORT_W_ADDR"@ != "PORT_W_CLK"@,
        "PORT_W_WR_EN"@ != "PORT_R_CLK"@,
        "PORT_W_WR_EN"@ != "PORT_W_CLK"@,
        "PORT_W_WR_DATA"@ != "PORT_R_CLK"@,
        "PORT_W_WR_DATA"@ != "PORT_W_CLK"@,
        "PORT_W_WR_EN"@ != "PORT_R_ADDR"@,
        "PORT_W_WR_EN"@ != "PORT_W_ADDR"@,
        "PORT_W_WR_DATA"@ != "PORT_R_ADDR"@,
        "PORT_W_WR_DATA"@ != "PORT_W_ADDR"@,
        "$__RAMGEM_SYNC_"@ != "DFF"@,
        "$__RAMGEM_SYNC_"@ != "DFFSR"@,
        "$__RAMGEM_SYNC_"@ != "LATCH"@,
        "$__RAMGEM_SYNC_"@ != "CKLNQD"@,
        !is_unary_cell("$__RAMGEM_SYNC_"@),
        !is_and_cell("$__RAMGEM_SYNC_"@),
{
    reveal_strlit("PORT_R_RD_DATA");
    reveal_strlit("PORT_R_ADDR");
    reveal_strlit("PORT_W_ADDR");
    reveal_strlit("PORT_W_WR_DATA");
    reveal_strlit("PORT_W_WR_EN");
    reveal_strlit("PORT_R_CLK");
    reveal_strlit("PORT_W_CLK");
    reveal_strlit("INV");
    reveal_strlit("BUF");
    reveal_strlit("AND2_00_0");
    reveal_strlit("AND2_01_0");
    reveal_strlit("AND2_10_0");
    reveal_strlit("AND2_11_0");
    reveal_strlit("AND2_11_1");
    reveal_strlit("DFF");
    reveal_strlit("DFFSR");
    reveal_strlit("LATCH");
    reveal_strlit("CKLNQD");
    reveal_strlit("$__RAMGEM_SYNC_");
    assert("PORT_R_RD_DATA"@.len() == 14 && "PORT_W_WR_DATA"@.len() == 14);
    assert("PORT_R_ADDR"@.len() == 11 && "PORT_W_ADDR"@.len() == 11);
    assert("PORT_W_WR_EN"@.len() == 12);
    assert("PORT_R_CLK"@.len() == 10 && "PORT_W_CLK"@.len() == 10);
    assert("$__RAMGEM_SYNC_"@.len() == 15);
    assert("INV"@.len() == 3 && "BUF"@.len() == 3 && "DFF"@.len() == 3);
    assert("AND2_00_0"@.len() == 9 && "AND2_01_0"@.len() == 9 && "AND2_10_0"@.len() == 9);
    assert("AND2_11_0"@.len() == 9 && "AND2_11_1"@.len() == 9);
    assert("DFFSR"@.len() == 5 && "LATCH"@.len() == 5 && "CKLNQD"@.len() == 6);
}

/// A cell that is a macro is none of the other cells.
proof fn lemma_macro_direction(cell: Seq<char>, pin: Seq<char>, bit: Option<isize>)
    requires
        cell_kind(cell) is Macro,
    ensures
        leaf_direction(cell, pin, bit) == cell_kind(cell)->Macro_0.spec_direction_of(pin, bit),
{
    lemma_macro_names(cell);
    assert(scalar_direction(cell, pin) is None);
}

/// Where pins have the directions of the cell library, which netlist
/// construction asks for, graph construction finds every output of a macro and
/// every pin of an SRAM, and no cell of an unknown type has an output.
pub proof fn law_typed_netlists_have_known_pins(nl: Netlist, e: BuildError)
    requires
        nl.wf(),
        is_typed(nl),
        e is BadMacroPin || e is BadRamPin || e is UnknownCell,
    ensures
        !build_fault(nl, e),
{
    lemma_ram_names();
    match e {
        BuildError::BadMacroPin(p) => {
            if pin_fault(nl, e) {
                let c = nl.cell(p);
                assert(nl.pindirect@[p as int] == crate::netlist::Direction::O);
                lemma_macro_direction(nl.celltype(c), nl.name(p), nl.pinnames@[p as int].bit);
                assert(macro_out(nl, p) is Some);
            }
        },
        BuildError::BadRamPin(p) => {
            if pin_fault(nl, e) {
                assert(nl.pindirect@[p as int] == crate::netlist::Direction::O);
                assert(ram_out(nl, p) is Some);
            }
            if element_fault(nl, e) {
                let c = choose|c: usize|
                    c < nl.num_cells() && #[trigger] nl.kind(c) == CellKind::Ram && nl.pins(c).contains(p)
                        && is_bad_ram_pin(nl, p);
                let i = nl.pins(c).index_of(p);
                assert(nl.cell_pins@[c as int]@[i] == p);
                assert(c != 0);
                let d = nl.pindirect@[p as int];
                assert(leaf_direction(nl.celltype(c), nl.name(p), nl.pinnames@[p as int].bit) == Some(d));
                assert(ram_bus(nl.name(p)) is Some);
            }
        },
        BuildError::UnknownCell(c) => {
            if pin_fault(nl, e) {
                let p = choose|p: usize| #[trigger] is_output_of(nl, p, c);
                let d = nl.pindirect@[p as int];
                assert(leaf_direction(nl.celltype(c), nl.name(p), nl.pinnames@[p as int].bit) == Some(d));
            }
        },
        _ => {},
    }
}

} // verus!
