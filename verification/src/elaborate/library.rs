//! What graph construction can count on in the cell library.

use super::cells::{cell_kind, pins_named, present, CellKind};
use super::graph::is_graph_of;
use super::rules::pin_ok;
use crate::aig::AIG;
use crate::aigpdk::leaf_direction;
use crate::macros::{DspState, MacroKind};
use crate::netlist::{Direction, Netlist};
use vstd::prelude::*;

verus! {

/// Lengths and characters by which the names of the cells differ.
pub(super) proof fn lemma_cell_names()
    ensures
        "INV"@.len() == 3,
        "INV"@[0] == 'I',
        "BUF"@.len() == 3,
        "BUF"@[0] == 'B',
        "DFF"@.len() == 3,
        "DFF"@[0] == 'D',
        "DFFSR"@.len() == 5,
        "DFFSR"@[0] == 'D',
        "LATCH"@.len() == 5,
        "LATCH"@[0] == 'L',
        "CKLNQD"@.len() == 6,
        "CKLNQD"@[1] == 'K',
        "CARRY4"@.len() == 6,
        "CARRY4"@[1] == 'A',
        "SRLC32E"@.len() == 7,
        "SRLC32E"@[0] == 'S',
        "DSP48E2"@.len() == 7,
        "DSP48E2"@[0] == 'D',
        "DSP48E2_MAC"@.len() == 11,
        "DSP48E2_MULT"@.len() == 12,
        "DSP48E2_BYPASS"@.len() == 14,
        "$__RAMGEM_SYNC_"@.len() == 15,
        "DSP48E2_MAC_PREADD"@.len() == 18,
        "DSP48E2_MULT_PREADD"@.len() == 19,
        "DSP48E2_BYPASS_PREADD"@.len() == 21,
        "AND2_00_0"@.len() == 9,
        "AND2_00_0"@[5] == '0',
        "AND2_00_0"@[6] == '0',
        "AND2_01_0"@.len() == 9,
        "AND2_01_0"@[5] == '0',
        "AND2_01_0"@[6] == '1',
        "AND2_10_0"@.len() == 9,
        "AND2_10_0"@[5] == '1',
        "AND2_10_0"@[6] == '0',
        "AND2_11_0"@.len() == 9,
        "AND2_11_0"@[5] == '1',
        "AND2_11_0"@[6] == '1',
        "AND2_11_0"@[8] == '0',
        "AND2_11_1"@.len() == 9,
        "AND2_11_1"@[5] == '1',
        "AND2_11_1"@[6] == '1',
        "AND2_11_1"@[8] == '1',
{
    reveal_strlit("CARRY4");
    reveal_strlit("SRLC32E");
    reveal_strlit("DSP48E2");
    reveal_strlit("DSP48E2_BYPASS");
    reveal_strlit("DSP48E2_BYPASS_PREADD");
    reveal_strlit("DSP48E2_MULT");
    reveal_strlit("DSP48E2_MULT_PREADD");
    reveal_strlit("DSP48E2_MAC");
    reveal_strlit("DSP48E2_MAC_PREADD");
    reveal_strlit("INV");
    reveal_strlit("BUF");
    reveal_strlit("AND2_00_0");
    reveal_strlit("AND2_01_0");
    reveal_strlit("AND2_10_0");
    reveal_strlit("AND2_11_0");
    reveal_strlit("AND2_11_1");
    reveal_strlit("DFF");
    reveal_strlit("DFFSR");
    reveal_strlit("LATCH");
    reveal_strlit("CKLNQD");
    reveal_strlit("$__RAMGEM_SYNC_");
    assert("INV"@.len() == 3 && "INV"@[0] == 'I');
    assert("BUF"@.len() == 3 && "BUF"@[0] == 'B');
    assert("DFF"@.len() == 3 && "DFF"@[0] == 'D');
    assert("DFFSR"@.len() == 5 && "DFFSR"@[0] == 'D');
    assert("LATCH"@.len() == 5 && "LATCH"@[0] == 'L');
    assert("CKLNQD"@.len() == 6 && "CKLNQD"@[1] == 'K');
    assert("CARRY4"@.len() == 6 && "CARRY4"@[1] == 'A');
    assert("SRLC32E"@.len() == 7 && "SRLC32E"@[0] == 'S');
    assert("DSP48E2"@.len() == 7 && "DSP48E2"@[0] == 'D');
    assert("DSP48E2_MAC"@.len() == 11);
    assert("DSP48E2_MULT"@.len() == 12);
    assert("DSP48E2_BYPASS"@.len() == 14);
    assert("$__RAMGEM_SYNC_"@.len() == 15);
    assert("DSP48E2_MAC_PREADD"@.len() == 18);
    assert("DSP48E2_MULT_PREADD"@.len() == 19);
    assert("DSP48E2_BYPASS_PREADD"@.len() == 21);
    assert("AND2_00_0"@.len() == 9 && "AND2_00_0"@[5] == '0' && "AND2_00_0"@[6] == '0');
    assert("AND2_01_0"@.len() == 9 && "AND2_01_0"@[5] == '0' && "AND2_01_0"@[6] == '1');
    assert("AND2_10_0"@.len() == 9 && "AND2_10_0"@[5] == '1' && "AND2_10_0"@[6] == '0');
    assert("AND2_11_0"@.len() == 9 && "AND2_11_0"@[5] == '1' && "AND2_11_0"@[6] == '1' && "AND2_11_0"@[8] == '0');
    assert("AND2_11_1"@.len() == 9 && "AND2_11_1"@[5] == '1' && "AND2_11_1"@[6] == '1' && "AND2_11_1"@[8] == '1');
}

/// The direction of a pin without bits.
pub open spec fn points(cell: Seq<char>, pin: Seq<char>, d: Direction) -> bool {
    leaf_direction(cell, pin, None) == Some(d)
}

/// Are the pins that graph construction reads inputs, and those whose values it
/// defines outputs?
pub open spec fn pins_point(cell: Seq<char>) -> bool {
    match cell_kind(cell) {
        CellKind::Inv | CellKind::Buf => points(cell, "A"@, Direction::I) && points(cell, "Y"@, Direction::O),
        CellKind::And(..) => points(cell, "A"@, Direction::I) && points(cell, "B"@, Direction::I) && points(
            cell,
            "Y"@,
            Direction::O,
        ),
        CellKind::Dff => points(cell, "CLK"@, Direction::I) && points(cell, "D"@, Direction::I) && points(
            cell,
            "Q"@,
            Direction::O,
        ) && (cell == "DFFSR"@ ==> points(cell, "S"@, Direction::I) && points(cell, "R"@, Direction::I)),
        CellKind::Latch => points(cell, "CLK"@, Direction::I) && points(cell, "D"@, Direction::I) && points(
            cell,
            "Q"@,
            Direction::O,
        ),
        CellKind::ClockGate => points(cell, "CP"@, Direction::I) && points(cell, "E"@, Direction::I) && points(
            cell,
            "Q"@,
            Direction::O,
        ),
        CellKind::Ram => points(cell, "PORT_R_CLK"@, Direction::I) && points(cell, "PORT_W_CLK"@, Direction::I),
        CellKind::Macro(kind) => kind is Carry4 || points(cell, "CLK"@, Direction::I),
        CellKind::BareDsp | CellKind::Unknown => true,
    }
}

/// The bits of an SRAM's buses: addresses have 13, words 32, and only the data
/// that is read is an output.
pub open spec fn ram_bits_point(cell: Seq<char>, b: isize) -> bool {
    &&& 0 <= b < 13 ==> leaf_direction(cell, "PORT_R_ADDR"@, Some(b)) == Some(Direction::I)
    &&& 0 <= b < 13 ==> leaf_direction(cell, "PORT_W_ADDR"@, Some(b)) == Some(Direction::I)
    &&& 0 <= b < 32 ==> leaf_direction(cell, "PORT_W_WR_EN"@, Some(b)) == Some(Direction::I)
    &&& 0 <= b < 32 ==> leaf_direction(cell, "PORT_W_WR_DATA"@, Some(b)) == Some(Direction::I)
    &&& 0 <= b < 32 ==> leaf_direction(cell, "PORT_R_RD_DATA"@, Some(b)) == Some(Direction::O)
}

/// Is this the name of a pin that cells other than macros drive?
pub open spec fn is_driven_name(pin: Seq<char>) -> bool {
    pin == "Y"@ || pin == "Q"@ || pin == "PORT_R_RD_DATA"@
}

/// The cell library agrees with graph construction: the pins that construction
/// reads are inputs, those whose values it defines are outputs, and nothing else
/// is an output. Cells that construction does not know have no pins.
pub proof fn law_library_pins(cell: Seq<char>, pin: Seq<char>, bit: Option<isize>)
    ensures
        pins_point(cell),
        cell_kind(cell) == CellKind::Ram ==> forall|b: isize| #[trigger] ram_bits_point(cell, b),
        cell_kind(cell) matches CellKind::Macro(kind) ==> (leaf_direction(cell, pin, bit) == Some(Direction::O)
            ==> kind.spec_output_slot(
            pin,
            match bit {
                Some(b) => Some(b as usize),
                None => None,
            },
        ) is Some),
        !(cell_kind(cell) is Macro) && leaf_direction(cell, pin, bit) is Some ==> (leaf_direction(cell, pin, bit)
            == Some(Direction::O) <==> is_driven_name(pin)),
        cell_kind(cell) == CellKind::Unknown || cell_kind(cell) == CellKind::BareDsp ==> leaf_direction(
            cell,
            pin,
            bit,
        ) is None,
{
    lemma_cell_names();
    lemma_pin_names();
    assert forall|b: isize| cell_kind(cell) == CellKind::Ram implies #[trigger] ram_bits_point(cell, b) by {}
}

/// Lengths and characters by which the names of pins differ.
proof fn lemma_pin_names()
    ensures
        "A"@.len() == 1,
        "A"@[0] == 'A',
        "B"@.len() == 1,
        "B"@[0] == 'B',
        "D"@.len() == 1,
        "D"@[0] == 'D',
        "E"@.len() == 1,
        "E"@[0] == 'E',
        "Q"@.len() == 1,
        "Q"@[0] == 'Q',
        "R"@.len() == 1,
        "R"@[0] == 'R',
        "S"@.len() == 1,
        "S"@[0] == 'S',
        "Y"@.len() == 1,
        "Y"@[0] == 'Y',
        "CP"@.len() == 2,
        "CLK"@.len() == 3,
        "PORT_R_CLK"@.len() == 10,
        "PORT_W_CLK"@.len() == 10,
        "PORT_R_ADDR"@.len() == 11,
        "PORT_W_ADDR"@.len() == 11,
        "PORT_W_WR_EN"@.len() == 12,
        "PORT_W_WR_DATA"@.len() == 14,
        "PORT_W_WR_DATA"@[5] == 'W',
        "PORT_R_RD_DATA"@.len() == 14,
        "PORT_R_RD_DATA"@[5] == 'R',
{
    reveal_strlit("A");
    reveal_strlit("B");
    reveal_strlit("D");
    reveal_strlit("E");
    reveal_strlit("Q");
    reveal_strlit("R");
    reveal_strlit("S");
    reveal_strlit("Y");
    reveal_strlit("CP");
    reveal_strlit("CLK");
    reveal_strlit("PORT_R_CLK");
    reveal_strlit("PORT_W_CLK");
    reveal_strlit("PORT_R_ADDR");
    reveal_strlit("PORT_W_ADDR");
    reveal_strlit("PORT_W_WR_EN");
    reveal_strlit("PORT_W_WR_DATA");
    reveal_strlit("PORT_R_RD_DATA");
}

/// The digit that marks an inversion in the name of a gate.
pub open spec fn mark(inverted: bool) -> char {
    if inverted {
        '1'
    } else {
        '0'
    }
}

/// An and gate is called after what it inverts: `AND2_`, a digit for each input,
/// `_` and a digit for the output.
pub proof fn law_gates_are_called_after_inversions(cell: Seq<char>, a: bool, b: bool, y: bool)
    ensures
        cell_kind(cell) == CellKind::And(a, b, y) ==> cell == "AND2_"@ + seq![mark(a), mark(b), '_', mark(y)],
        cell == "AND2_"@ + seq![mark(a), mark(b), '_', mark(y)] && (y ==> a && b) ==> cell_kind(cell)
            == CellKind::And(a, b, y),
{
    lemma_cell_names();
    lemma_gate_names();
}

/// The names of and gates, put together.
proof fn lemma_gate_names()
    ensures
        "AND2_00_0"@ == "AND2_"@ + seq!['0', '0', '_', '0'],
        "AND2_01_0"@ == "AND2_"@ + seq!['0', '1', '_', '0'],
        "AND2_10_0"@ == "AND2_"@ + seq!['1', '0', '_', '0'],
        "AND2_11_0"@ == "AND2_"@ + seq!['1', '1', '_', '0'],
        "AND2_11_1"@ == "AND2_"@ + seq!['1', '1', '_', '1'],
{
    reveal_strlit("AND2_");
    reveal_strlit("AND2_00_0");
    reveal_strlit("AND2_01_0");
    reveal_strlit("AND2_10_0");
    reveal_strlit("AND2_11_0");
    reveal_strlit("AND2_11_1");
    assert("AND2_00_0"@ =~= "AND2_"@ + seq!['0', '0', '_', '0']);
    assert("AND2_01_0"@ =~= "AND2_"@ + seq!['0', '1', '_', '0']);
    assert("AND2_10_0"@ =~= "AND2_"@ + seq!['1', '0', '_', '0']);
    assert("AND2_11_0"@ =~= "AND2_"@ + seq!['1', '1', '_', '0']);
    assert("AND2_11_1"@ =~= "AND2_"@ + seq!['1', '1', '_', '1']);
}

/// The word for the state of a DSP's ALU.
pub open spec fn state_word(state: DspState) -> Seq<char> {
    match state {
        DspState::Bypass => "BYPASS"@,
        DspState::Mult => "MULT"@,
        DspState::Mac => "MAC"@,
    }
}

/// A DSP is called after its configuration: `DSP48E2_`, the word for the state of
/// its ALU, and `_PREADD` if it has a pre-adder.
pub proof fn law_dsps_are_called_after_configurations(cell: Seq<char>, state: DspState, use_preadder: bool)
    ensures
        cell_kind(cell) == CellKind::Macro(MacroKind::Dsp48e2 { state, use_preadder }) <==> cell == "DSP48E2_"@
            + state_word(state) + (if use_preadder {
            "_PREADD"@
        } else {
            Seq::empty()
        }),
{
    lemma_cell_names();
    lemma_dsp_names();
}

/// The names of DSPs, put together.
proof fn lemma_dsp_names()
    ensures
        "DSP48E2_BYPASS"@ == "DSP48E2_"@ + "BYPASS"@ + Seq::<char>::empty(),
        "DSP48E2_MULT"@ == "DSP48E2_"@ + "MULT"@ + Seq::<char>::empty(),
        "DSP48E2_MAC"@ == "DSP48E2_"@ + "MAC"@ + Seq::<char>::empty(),
        "DSP48E2_BYPASS_PREADD"@ == "DSP48E2_"@ + "BYPASS"@ + "_PREADD"@,
        "DSP48E2_MULT_PREADD"@ == "DSP48E2_"@ + "MULT"@ + "_PREADD"@,
        "DSP48E2_MAC_PREADD"@ == "DSP48E2_"@ + "MAC"@ + "_PREADD"@,
{
    reveal_strlit("DSP48E2_");
    reveal_strlit("BYPASS");
    reveal_strlit("MULT");
    reveal_strlit("MAC");
    reveal_strlit("_PREADD");
    reveal_strlit("DSP48E2_BYPASS");
    reveal_strlit("DSP48E2_MULT");
    reveal_strlit("DSP48E2_MAC");
    reveal_strlit("DSP48E2_BYPASS_PREADD");
    reveal_strlit("DSP48E2_MULT_PREADD");
    reveal_strlit("DSP48E2_MAC_PREADD");
    assert("DSP48E2_BYPASS"@ =~= "DSP48E2_"@ + "BYPASS"@ + Seq::<char>::empty());
    assert("DSP48E2_MULT"@ =~= "DSP48E2_"@ + "MULT"@ + Seq::<char>::empty());
    assert("DSP48E2_MAC"@ =~= "DSP48E2_"@ + "MAC"@ + Seq::<char>::empty());
    assert("DSP48E2_BYPASS_PREADD"@ =~= "DSP48E2_"@ + "BYPASS"@ + "_PREADD"@);
    assert("DSP48E2_MULT_PREADD"@ =~= "DSP48E2_"@ + "MULT"@ + "_PREADD"@);
    assert("DSP48E2_MAC_PREADD"@ =~= "DSP48E2_"@ + "MAC"@ + "_PREADD"@);
}

/// What is not there is harmless: enables of macros that are not connected are
/// set, and all other inputs are clear.
pub proof fn law_absent_pins_are_harmless(kind: MacroKind, pin: Seq<char>, bit: Option<usize>, s: usize)
    requires
        kind.spec_input_slot(pin, bit) == Some(s),
    ensures
        kind.spec_default_input(s) == (if pin == "CE"@ || pin == "CEP"@ {
            1
        } else {
            0int
        }),
{
    reveal_strlit("CE");
    reveal_strlit("CEP");
    reveal_strlit("CI");
    reveal_strlit("CIN");
    reveal_strlit("CYINIT");
    reveal_strlit("DI");
    reveal_strlit("S");
    reveal_strlit("A");
    reveal_strlit("B");
    reveal_strlit("C");
    reveal_strlit("D");
    assert("CE"@.len() == 2 && "CE"@[1] == 'E');
    assert("CI"@.len() == 2 && "CI"@[1] == 'I' && "CI"@[0] == 'C');
    assert("DI"@.len() == 2 && "DI"@[1] == 'I' && "DI"@[0] == 'D');
    assert("CEP"@.len() == 3 && "CEP"@[1] == 'E');
    assert("CIN"@.len() == 3 && "CIN"@[1] == 'I');
}

/// Registers cut paths: the value at the output of a flip-flop waits for its set and reset
/// only, and those at the outputs of SRAMs and DSPs wait for nothing. The value at the
/// output of a gate waits for all its inputs.
pub proof fn law_registers_cut_paths(nl: Netlist, p: usize, d: usize)
    requires
        !nl.is_input(p),
        nl.cell(p) != 0,
    ensures
        ({
            let c = nl.cell(p);
            let cell = nl.celltype(c);
            &&& cell == "DFF"@ || cell == "DFFSR"@ ==> (nl.deps(p).contains(d) <==> nl.pins(c).contains(d) && (nl.name(d)
                == "S"@ || nl.name(d) == "R"@))
            &&& cell == "$__RAMGEM_SYNC_"@ || cell == "LATCH"@ ==> nl.deps(p).len() == 0
            &&& cell == "DSP48E2_MAC"@ || cell == "DSP48E2_MULT"@ || cell == "DSP48E2_BYPASS"@ || cell
                == "DSP48E2_MAC_PREADD"@ || cell == "DSP48E2_MULT_PREADD"@ || cell == "DSP48E2_BYPASS_PREADD"@
                ==> nl.deps(p).len() == 0
            &&& cell == "INV"@ || cell == "BUF"@ || cell == "AND2_00_0"@ || cell == "AND2_01_0"@ || cell
                == "AND2_10_0"@ || cell == "AND2_11_0"@ || cell == "AND2_11_1"@ ==> (nl.cell_pin(c, "A"@) == Some(d)
                || nl.cell_pin(c, "B"@) == Some(d) ==> nl.deps(p).contains(d))
            &&& cell == "CKLNQD"@ ==> (nl.cell_pin(c, "CP"@) == Some(d) || nl.cell_pin(c, "E"@) == Some(d)
                ==> nl.deps(p).contains(d))
        }),
{
    let c = nl.cell(p);
    lemma_cell_names();
    lemma_pins_named(nl, nl.pins(c), "S"@, "R"@, d);
    lemma_present(nl.cell_pin(c, "A"@), nl.cell_pin(c, "B"@), d);
    lemma_present(nl.cell_pin(c, "CP"@), nl.cell_pin(c, "E"@), d);
}

proof fn lemma_pins_named(nl: Netlist, pins: Seq<usize>, a: Seq<char>, b: Seq<char>, d: usize)
    ensures
        pins_named(nl, pins, a, b).contains(d) <==> pins.contains(d) && (nl.name(d) == a || nl.name(d) == b),
    decreases pins.len(),
{
    if pins.len() > 0 {
        let before = pins.drop_last();
        let rest = pins_named(nl, before, a, b);
        let all = pins_named(nl, pins, a, b);
        lemma_pins_named(nl, before, a, b, d);
        assert(pins[pins.len() - 1] == pins.last());
        if pins.contains(d) {
            let i = pins.index_of(d);
            if i < before.len() {
                assert(before[i] == d);
            }
        }
        if before.contains(d) {
            assert(pins[before.index_of(d)] == d);
        }
        if rest.contains(d) {
            assert(all[rest.index_of(d)] == d);
        }
        if all.len() > rest.len() {
            assert(all[rest.len() as int] == pins.last());
        }
        if all.contains(d) {
            let i = all.index_of(d);
            if i < rest.len() {
                assert(rest[i] == d);
            }
        }
    }
}

proof fn lemma_present(a: Option<usize>, b: Option<usize>, d: usize)
    ensures
        a == Some(d) || b == Some(d) ==> present(a, b).contains(d),
{
    let s = present(a, b);
    if a == Some(d) {
        assert(s[0] == d);
    } else if b == Some(d) {
        assert(s[s.len() - 1] == d);
    }
}

/// The cells that are neither and gates nor DSPs with a configuration go by their names.
pub proof fn law_cells_go_by_names(cell: Seq<char>)
    ensures
        cell_kind(cell) == CellKind::Dff <==> cell == "DFF"@ || cell == "DFFSR"@,
        cell_kind(cell) == CellKind::Latch <==> cell == "LATCH"@,
        cell_kind(cell) == CellKind::Ram <==> cell == "$__RAMGEM_SYNC_"@,
        cell_kind(cell) == CellKind::BareDsp <==> cell == "DSP48E2"@,
        cell_kind(cell) == CellKind::ClockGate <==> cell == "CKLNQD"@,
        cell_kind(cell) == CellKind::Inv <==> cell == "INV"@,
        cell_kind(cell) == CellKind::Buf <==> cell == "BUF"@,
        cell_kind(cell) == CellKind::Macro(MacroKind::Carry4) <==> cell == "CARRY4"@,
        cell_kind(cell) == CellKind::Macro(MacroKind::Srlc32e) <==> cell == "SRLC32E"@,
{
    lemma_cell_names();
}

/// A graph is made of cells that are known: where a cell has outputs, it is no latch, no
/// DSP without its configuration, and nothing that is not in the library.
pub proof fn law_graphs_are_made_of_known_cells(nl: Netlist, aig: AIG, p: usize)
    requires
        is_graph_of(nl, aig),
        p < nl.num_pins(),
        !nl.is_input(p),
        nl.cell(p) != 0,
    ensures
        !(nl.kind(nl.cell(p)) is Latch),
        !(nl.kind(nl.cell(p)) is BareDsp),
        !(nl.kind(nl.cell(p)) is Unknown),
{
    assert(pin_ok(nl, aig.drivers@, aig.pin2aigpin_iv@, p));
}

} // verus!
