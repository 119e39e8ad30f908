//! The artificial cell library of and-inverter netlists.

use crate::macros::MacroKind;
use crate::macros::laws::law_widths_agree;
use crate::netlist::{BusRange, Direction};
use crate::text::same_str;
use vstd::prelude::*;

verus! {

/// The address width of an SRAM. The word width is always 32.
pub const AIGPDK_SRAM_ADDR_WIDTH: usize = 13;

/// The number of words of an SRAM.
pub const AIGPDK_SRAM_SIZE: usize = 8192;

/// Directions and widths of the pins of all cells.
#[derive(Debug, Clone, Copy)]
pub struct AIGPDKLeafPins();

/// An and gate, named by the inversion of its inputs and its output.
pub open spec fn is_and_cell(name: Seq<char>) -> bool {
    name == "AND2_00_0"@ || name == "AND2_01_0"@ || name == "AND2_10_0"@ || name == "AND2_11_0"@ || name
        == "AND2_11_1"@
}

/// An inverter or a buffer.
pub open spec fn is_unary_cell(name: Seq<char>) -> bool {
    name == "INV"@ || name == "BUF"@
}

/// The direction of a pin without bits.
pub open spec fn scalar_direction(cell: Seq<char>, pin: Seq<char>) -> Option<Direction> {
    if is_unary_cell(cell) {
        one_of(pin == "A"@, pin == "Y"@)
    } else if is_and_cell(cell) {
        one_of(pin == "A"@ || pin == "B"@, pin == "Y"@)
    } else if cell == "DFF"@ || cell == "LATCH"@ {
        one_of(pin == "CLK"@ || pin == "D"@, pin == "Q"@)
    } else if cell == "DFFSR"@ {
        one_of(pin == "CLK"@ || pin == "D"@ || pin == "S"@ || pin == "R"@, pin == "Q"@)
    } else if cell == "CKLNQD"@ {
        one_of(pin == "CP"@ || pin == "E"@, pin == "Q"@)
    } else if cell == "$__RAMGEM_SYNC_"@ {
        one_of(pin == "PORT_R_CLK"@ || pin == "PORT_W_CLK"@, false)
    } else {
        None
    }
}

/// An input, an output, or neither.
pub open spec fn one_of(input: bool, output: bool) -> Option<Direction> {
    if input {
        Some(Direction::I)
    } else if output {
        Some(Direction::O)
    } else {
        None
    }
}

/// The highest bit of a bus of an SRAM.
pub open spec fn ram_bus(pin: Seq<char>) -> Option<isize> {
    if pin == "PORT_R_ADDR"@ || pin == "PORT_W_ADDR"@ {
        Some(12)
    } else if pin == "PORT_W_WR_EN"@ || pin == "PORT_W_WR_DATA"@ || pin == "PORT_R_RD_DATA"@ {
        Some(31)
    } else {
        None
    }
}

/// The direction of a pin, if there is such a pin.
pub open spec fn leaf_direction(cell: Seq<char>, pin: Seq<char>, bit: Option<isize>) -> Option<Direction> {
    if bit is None && scalar_direction(cell, pin) is Some {
        scalar_direction(cell, pin)
    } else if cell == "$__RAMGEM_SYNC_"@ {
        match (ram_bus(pin), bit) {
            (Some(hi), Some(b)) => if 0 <= b <= hi {
                Some(
                    if pin == "PORT_R_RD_DATA"@ {
                        Direction::O
                    } else {
                        Direction::I
                    },
                )
            } else {
                None
            },
            _ => None,
        }
    } else {
        match MacroKind::spec_from_celltype(cell) {
            Some(kind) => kind.spec_direction_of(pin, bit),
            None => None,
        }
    }
}

/// The range of a bus, if the pin is one.
pub open spec fn leaf_width(cell: Seq<char>, pin: Seq<char>) -> Option<BusRange> {
    if cell == "$__RAMGEM_SYNC_"@ {
        match ram_bus(pin) {
            Some(hi) => Some(BusRange(hi, 0)),
            None => None,
        }
    } else {
        match MacroKind::spec_from_celltype(cell) {
            Some(kind) => kind.spec_width_of(pin),
            None => None,
        }
    }
}

/// An input, an output, or neither.
fn choose_direction(input: bool, output: bool) -> (r: Option<Direction>)
    ensures
        r == one_of(input, output),
{
    if input {
        Some(Direction::I)
    } else if output {
        Some(Direction::O)
    } else {
        None
    }
}

/// The direction of a pin without bits.
fn find_scalar(cell: &str, pin: &str) -> (r: Option<Direction>)
    ensures
        r == scalar_direction(cell@, pin@),
{
    if same_str(cell, "INV") || same_str(cell, "BUF") {
        choose_direction(same_str(pin, "A"), same_str(pin, "Y"))
    } else if same_str(cell, "AND2_00_0") || same_str(cell, "AND2_01_0") || same_str(cell, "AND2_10_0") || same_str(
        cell,
        "AND2_11_0",
    ) || same_str(cell, "AND2_11_1") {
        choose_direction(same_str(pin, "A") || same_str(pin, "B"), same_str(pin, "Y"))
    } else if same_str(cell, "DFF") || same_str(cell, "LATCH") {
        choose_direction(same_str(pin, "CLK") || same_str(pin, "D"), same_str(pin, "Q"))
    } else if same_str(cell, "DFFSR") {
        choose_direction(
            same_str(pin, "CLK") || same_str(pin, "D") || same_str(pin, "S") || same_str(pin, "R"),
            same_str(pin, "Q"),
        )
    } else if same_str(cell, "CKLNQD") {
        choose_direction(same_str(pin, "CP") || same_str(pin, "E"), same_str(pin, "Q"))
    } else if same_str(cell, "$__RAMGEM_SYNC_") {
        choose_direction(same_str(pin, "PORT_R_CLK") || same_str(pin, "PORT_W_CLK"), false)
    } else {
        None
    }
}

/// The highest bit of a bus of an SRAM.
fn find_ram_bus(pin: &str) -> (r: Option<isize>)
    ensures
        r == ram_bus(pin@),
{
    if same_str(pin, "PORT_R_ADDR") || same_str(pin, "PORT_W_ADDR") {
        Some(12)
    } else if same_str(pin, "PORT_W_WR_EN") || same_str(pin, "PORT_W_WR_DATA") || same_str(pin, "PORT_R_RD_DATA") {
        Some(31)
    } else {
        None
    }
}

impl AIGPDKLeafPins {
    /// The direction of a pin. There is `None` if the library has no such pin;
    /// in particular, asynchronous SRAMs are not supported, and a DSP48E2 whose
    /// configuration is not part of its name is not known.
    pub fn direction_of(&self, macro_name: &str, pin_name: &str, pin_idx: Option<isize>) -> (r: Option<Direction>)
        ensures
            r == leaf_direction(macro_name@, pin_name@, pin_idx),
    {
        if pin_idx.is_none() {
            let scalar = find_scalar(macro_name, pin_name);
            if scalar.is_some() {
                return scalar;
            }
        }
        if same_str(macro_name, "$__RAMGEM_SYNC_") {
            return match (find_ram_bus(pin_name), pin_idx) {
                (Some(hi), Some(b)) => if 0 <= b && b <= hi {
                    if same_str(pin_name, "PORT_R_RD_DATA") {
                        Some(Direction::O)
                    } else {
                        Some(Direction::I)
                    }
                } else {
                    None
                },
                _ => None,
            };
        }
        if same_str(macro_name, "DSP48E2") {
            proof {
                lemma_bare_dsp();
            }
            return None;
        }
        match MacroKind::from_celltype(macro_name) {
            Some(kind) => kind.direction_of(pin_name, pin_idx),
            None => None,
        }
    }

    /// The range of a bus, most significant bit first, or `None` if the pin is
    /// no bus. A DSP48E2 whose configuration is not part of its name is left
    /// out.
    pub fn width_of(&self, macro_name: &str, pin_name: &str) -> (r: Option<BusRange>)
        requires
            macro_name@ != "DSP48E2"@,
        ensures
            r == leaf_width(macro_name@, pin_name@),
    {
        if same_str(macro_name, "$__RAMGEM_SYNC_") {
            return match find_ram_bus(pin_name) {
                Some(hi) => Some(BusRange(hi, 0)),
                None => None,
            };
        }
        match MacroKind::from_celltype(macro_name) {
            Some(kind) => kind.width_of(pin_name),
            None => None,
        }
    }
}

/// A DSP48E2 whose configuration is not part of its name is no macro.
proof fn lemma_bare_dsp()
    ensures
        MacroKind::spec_from_celltype("DSP48E2"@) is None,
        "DSP48E2"@ != "$__RAMGEM_SYNC_"@,
{
    reveal_strlit("DSP48E2");
    reveal_strlit("$__RAMGEM_SYNC_");
    reveal_strlit("CARRY4");
    reveal_strlit("SRLC32E");
    reveal_strlit("DSP48E2_BYPASS");
    reveal_strlit("DSP48E2_BYPASS_PREADD");
    reveal_strlit("DSP48E2_MULT");
    reveal_strlit("DSP48E2_MULT_PREADD");
    reveal_strlit("DSP48E2_MAC");
    reveal_strlit("DSP48E2_MAC_PREADD");
    assert("DSP48E2"@.len() == 7 && "DSP48E2"@[0] == 'D');
    assert("SRLC32E"@.len() == 7 && "SRLC32E"@[0] == 'S');
    assert("CARRY4"@.len() == 6);
}

/// Buses have exactly the bits in their range. Pins that are no buses have no
/// bits.
pub proof fn law_leaf_pins_agree(cell: Seq<char>, pin: Seq<char>, b: isize)
    ensures
        leaf_width(cell, pin) matches Some(range) ==> range.1 == 0 && (leaf_direction(cell, pin, Some(b)) is Some
            <==> 0 <= b <= range.0),
        leaf_width(cell, pin) is None ==> leaf_direction(cell, pin, Some(b)) is None,
{
    if cell != "$__RAMGEM_SYNC_"@ {
        if let Some(kind) = MacroKind::spec_from_celltype(cell) {
            law_widths_agree(kind, pin, b);
        }
    }
}

} // verus!
