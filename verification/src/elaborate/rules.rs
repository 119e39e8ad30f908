//! What the literals of netlist pins are.

use super::cells::{macro_deps, BuildError, CellKind};
use crate::aig::{and_lit, defined, flip, spec_invert, DriverType, RAMBlock, DFF};
use crate::collections::Table;
use crate::macros::MacroInst;
use crate::netlist::Netlist;
use vstd::prelude::*;

verus! {

/// The literal of a pin, or a default value where there is no pin.
pub open spec fn lit_or(lits: Seq<usize>, p: Option<usize>, default: usize) -> usize {
    match p {
        Some(p) => lits[p as int],
        None => default,
    }
}

/// Is `o` the literal of "`a`, or not `s`"?
pub open spec fn or_not_lit(drivers: Seq<DriverType>, a: usize, s: usize, o: usize) -> bool {
    and_lit(drivers, spec_invert(a), s, spec_invert(o))
}

/// Is `o` the literal of a flip-flop's output, with pin `q`, behind active-low
/// set and reset, where `x` is the value behind set?
pub open spec fn dff_out(drivers: Seq<DriverType>, c: usize, s: usize, r: usize, q: usize, x: usize, o: usize) -> bool {
    &&& q < drivers.len()
    &&& drivers[q as int] == DriverType::DFF(c)
    &&& or_not_lit(drivers, (q * 2) as usize, s, x)
    &&& and_lit(drivers, x, r, o)
}

/// The cell and the bit of an SRAM's read data.
pub open spec fn ram_out(nl: Netlist, p: usize) -> Option<(usize, usize)> {
    let c = nl.cell(p);
    if !nl.is_input(p) && c != 0 && nl.kind(c) == CellKind::Ram && nl.name(p) == "PORT_R_RD_DATA"@ {
        match nl.bit(p) {
            Some(b) => if b < 32 {
                Some((c, b))
            } else {
                None
            },
            None => None,
        }
    } else {
        None
    }
}

/// The cell and the slot of a macro's output.
pub open spec fn macro_out(nl: Netlist, p: usize) -> Option<(usize, usize)> {
    let c = nl.cell(p);
    if !nl.is_input(p) && c != 0 {
        match nl.kind(c) {
            CellKind::Macro(k) => match k.spec_output_slot(nl.name(p), nl.bit(p)) {
                Some(slot) => Some((c, slot)),
                None => None,
            },
            _ => None,
        }
    } else {
        None
    }
}

/// Is the pin an output port of the design that is not tied to a constant?
pub open spec fn is_out_port(nl: Netlist, p: usize) -> bool {
    nl.is_driven(p) && nl.cell(p) == 0
}

/// Is the pin an output of a cell of the given kind?
pub open spec fn is_output_of(nl: Netlist, p: usize, c: usize) -> bool {
    p < nl.num_pins() && !nl.is_input(p) && nl.cell(p) == c && c != 0
}

/// Is `o` the literal of a pin, given the literals of the pins that it depends
/// on?
pub open spec fn pin_rule(nl: Netlist, drivers: Seq<DriverType>, lits: Seq<usize>, p: usize, o: usize) -> bool {
    let c = nl.cell(p);
    if nl.is_input(p) {
        if nl.on_zero(p) {
            o == 0
        } else if nl.on_one(p) {
            o == 1
        } else {
            o == lits[nl.root(p) as int]
        }
    } else if c == 0 {
        o % 2 == 0 && o / 2 < drivers.len() && drivers[(o / 2) as int] == DriverType::InputPort(p)
    } else {
        match nl.kind(c) {
            CellKind::Dff => {
                let s = lit_or(lits, nl.cell_pin(c, "S"@), 1);
                let r = lit_or(lits, nl.cell_pin(c, "R"@), 1);
                defined(s) && defined(r) && exists|q: usize, x: usize| #[trigger] dff_out(drivers, c, s, r, q, x, o)
            },
            CellKind::Ram => ram_out(nl, p) is Some && o % 2 == 0 && o / 2 < drivers.len() && drivers[(o / 2) as int]
                == DriverType::SRAM(c),
            CellKind::Macro(k) => macro_out(nl, p) is Some && o % 2 == 0 && o / 2 < drivers.len() && drivers[(o
                / 2) as int] == DriverType::Macro(c, macro_out(nl, p).unwrap().1),
            CellKind::ClockGate => nl.cell_pin(c, "CP"@) is Some && nl.cell_pin(c, "E"@) is Some && o == usize::MAX,
            CellKind::And(iv_a, iv_b, iv_y) => match (nl.cell_pin(c, "A"@), nl.cell_pin(c, "B"@)) {
                (Some(a), Some(b)) => defined(lits[a as int]) && defined(lits[b as int]) && and_lit(
                    drivers,
                    flip(lits[a as int], iv_a),
                    flip(lits[b as int], iv_b),
                    flip(o, iv_y),
                ),
                _ => false,
            },
            CellKind::Inv => nl.cell_pin(c, "A"@) is Some && o == spec_invert(
                lits[nl.cell_pin(c, "A"@).unwrap() as int],
            ),
            CellKind::Buf => nl.cell_pin(c, "A"@) is Some && o == lits[nl.cell_pin(c, "A"@).unwrap() as int],
            _ => false,
        }
    }
}

/// Does the pin have its literal?
pub open spec fn pin_ok(nl: Netlist, drivers: Seq<DriverType>, lits: Seq<usize>, p: usize) -> bool {
    pin_rule(nl, drivers, lits, p, lits[p as int])
}

/// Every flip-flop has the last of the pins that stand for its output.
pub open spec fn dffs_ok(nl: Netlist, dffs: Table<DFF>, drivers: Seq<DriverType>) -> bool {
    &&& dffs.wf()
    &&& forall|c: usize| #[trigger]
        dffs.has(c) ==> c < nl.num_cells() && has_output(nl, c) && nl.kind(c) == CellKind::Dff
            && 1 <= dffs.at(c).q < drivers.len()
            && drivers[dffs.at(c).q as int] == DriverType::DFF(c)
    &&& forall|i: int|
        0 <= i < drivers.len() ==> (#[trigger] drivers[i] matches DriverType::DFF(c) ==> dffs.has(c) && i <= dffs.at(
            c,
        ).q)
}

/// Is pin `o` that of the given bit of an SRAM's read data?
pub open spec fn ram_drives(nl: Netlist, lits: Seq<usize>, c: usize, b: int, o: usize) -> bool {
    exists|p: usize|
        p < nl.num_pins() && #[trigger] ram_out(nl, p) == Some((c, b as usize)) && lits[p as int] == o * 2
}

/// Is pin `o` that of the given output of a macro?
pub open spec fn macro_drives(nl: Netlist, lits: Seq<usize>, c: usize, s: int, o: usize) -> bool {
    exists|p: usize|
        p < nl.num_pins() && #[trigger] macro_out(nl, p) == Some((c, s as usize)) && lits[p as int] == o * 2
}

/// Does bit `b` of an SRAM's read data have its pin, if it has one?
pub open spec fn ram_bit_ok(
    nl: Netlist,
    drivers: Seq<DriverType>,
    lits: Seq<usize>,
    c: usize,
    b: int,
    o: usize,
) -> bool {
    o == 0 || (o < drivers.len() && drivers[o as int] == DriverType::SRAM(c) && ram_drives(nl, lits, c, b, o))
}

/// Does output slot `s` of a macro have its pin, if it has one?
pub open spec fn macro_slot_ok(
    nl: Netlist,
    drivers: Seq<DriverType>,
    lits: Seq<usize>,
    c: usize,
    s: int,
    o: usize,
) -> bool {
    o == 0 || (o < drivers.len() && drivers[o as int] == DriverType::Macro(c, s as usize) && macro_drives(
        nl,
        lits,
        c,
        s,
        o,
    ))
}

/// Does no input of an SRAM have a literal yet?
pub open spec fn is_blank(r: RAMBlock) -> bool {
    &&& r.port_r_en_iv == 0
    &&& forall|i: int| 0 <= i < 13 ==> #[trigger] r.port_r_addr_iv@[i] == 0
    &&& forall|i: int| 0 <= i < 13 ==> #[trigger] r.port_w_addr_iv@[i] == 0
    &&& forall|i: int| 0 <= i < 32 ==> #[trigger] r.port_w_wr_en_iv@[i] == 0
    &&& forall|i: int| 0 <= i < 32 ==> #[trigger] r.port_w_wr_data_iv@[i] == 0
}

/// Do the bits of an SRAM's read data have their pins?
pub open spec fn ram_bits_ok(nl: Netlist, drivers: Seq<DriverType>, lits: Seq<usize>, c: usize, r: RAMBlock) -> bool {
    forall|b: int| 0 <= b < 32 ==> ram_bit_ok(nl, drivers, lits, c, b, #[trigger] r.port_r_rd_data@[b])
}

/// Do the output slots of a macro have their pins?
pub open spec fn macro_slots_ok(
    nl: Netlist,
    drivers: Seq<DriverType>,
    lits: Seq<usize>,
    c: usize,
    m: MacroInst,
) -> bool {
    forall|s: int| 0 <= s < m.outputs@.len() ==> macro_slot_ok(nl, drivers, lits, c, s, #[trigger] m.outputs@[s])
}

/// SRAMs have the pins of their read data, as far as those are known.
pub open spec fn srams_ok(
    nl: Netlist,
    srams: Table<RAMBlock>,
    drivers: Seq<DriverType>,
    lits: Seq<usize>,
    order: Seq<usize>,
) -> bool {
    &&& srams.wf()
    &&& forall|c: usize| #[trigger]
        srams.has(c) ==> c < nl.num_cells() && nl.kind(c) == CellKind::Ram && ram_bits_ok(nl, drivers, lits, c,
            srams.at(c))
    &&& forall|c: usize| #[trigger] srams.has(c) ==> is_blank(srams.at(c))
    &&& forall|i: int|
        0 <= i < order.len() ==> (ram_out(nl, #[trigger] order[i]) matches Some((c, b)) ==> srams.has(c) && srams.at(
            c,
        ).port_r_rd_data@[b as int] != 0)
}

/// Macros have the pins of their outputs, as far as those are known.
pub open spec fn macros_ok(
    nl: Netlist,
    macros: Table<MacroInst>,
    drivers: Seq<DriverType>,
    lits: Seq<usize>,
    order: Seq<usize>,
) -> bool {
    &&& macros.wf()
    &&& forall|c: usize| #[trigger]
        macros.has(c) ==> c < nl.num_cells() && has_output(nl, c)
            && nl.kind(c) == CellKind::Macro(macros.at(c).kind) && macros.at(c).wf() && macro_slots_ok(
            nl,
            drivers,
            lits,
            c,
            macros.at(c),
        )
    &&& forall|i: int|
        0 <= i < order.len() ==> (macro_out(nl, #[trigger] order[i]) matches Some((c, s)) ==> macros.has(c)
            && macros.at(c).outputs@[s as int] != 0)
    &&& forall|i: int|
        0 <= i < drivers.len() ==> (#[trigger] drivers[i] matches DriverType::Macro(c, s) ==> macros.has(c) && s
            < macros.at(c).kind.spec_num_outputs() && macros.at(c).outputs@[s as int] != 0)
    &&& forall|i: int|
        0 <= i < drivers.len() ==> (#[trigger] drivers[i] matches DriverType::Macro(c, s) ==> is_behind(
            nl,
            lits,
            order,
            c,
            s,
            i,
        ))
}

/// Are the pins that an output of a macro depends on done, with pins before `i`?
pub open spec fn is_behind(nl: Netlist, lits: Seq<usize>, order: Seq<usize>, c: usize, s: usize, i: int) -> bool {
    forall|d: usize| #[trigger]
        macro_deps(nl, c, s).contains(d) ==> order.contains(d) && (defined(lits[d as int]) ==> lits[d as int] / 2 < i)
}

/// Is there an output port with the given literal?
pub open spec fn is_out_lit(nl: Netlist, lits: Seq<usize>, order: Seq<usize>, v: usize) -> bool {
    exists|i: int| 0 <= i < order.len() && #[trigger] is_out_port(nl, order[i]) && lits[order[i] as int] == v
}

/// The primary outputs are the literals of the output ports.
pub open spec fn outs_ok(nl: Netlist, outs: Seq<usize>, lits: Seq<usize>, order: Seq<usize>) -> bool {
    forall|v: usize| #[trigger] outs.contains(v) <==> is_out_lit(nl, lits, order, v)
}

/// Does the pin carry a gated clock, which has no literal? The first `fuel`
/// pins of the path are looked at.
pub open spec fn carries_clock(nl: Netlist, p: usize, fuel: nat) -> bool
    decreases fuel,
{
    let c = nl.cell(p);
    if fuel == 0 {
        false
    } else if nl.is_input(p) {
        nl.is_driven(p) && carries_clock(nl, nl.root(p), (fuel - 1) as nat)
    } else if c == 0 {
        false
    } else if nl.kind(c) == CellKind::ClockGate {
        true
    } else if nl.kind(c) == CellKind::Inv || nl.kind(c) == CellKind::Buf {
        match nl.cell_pin(c, "A"@) {
            Some(a) => carries_clock(nl, a, (fuel - 1) as nat),
            None => false,
        }
    } else {
        false
    }
}

/// Does the pin carry a gated clock?
pub open spec fn is_gated(nl: Netlist, p: usize) -> bool {
    exists|fuel: nat| #[trigger] carries_clock(nl, p, fuel)
}

/// Does the value of the first pin go into a gate for the second one?
pub open spec fn goes_into_gate(nl: Netlist, d: usize, p: usize) -> bool {
    let c = nl.cell(p);
    is_output_of(nl, p, c) && match nl.kind(c) {
        CellKind::Dff => nl.cell_pin(c, "S"@) == Some(d) || nl.cell_pin(c, "R"@) == Some(d),
        CellKind::And(_, _, _) => nl.cell_pin(c, "A"@) == Some(d) || nl.cell_pin(c, "B"@) == Some(d),
        _ => false,
    }
}

/// Does each pin depend on the next one?
pub open spec fn is_dep_walk(nl: Netlist, w: Seq<usize>) -> bool {
    forall|i: int| 0 <= i < w.len() - 1 ==> #[trigger] nl.deps(w[i]).contains(w[i + 1])
}

/// Does the pin depend on itself?
pub open spec fn on_loop(nl: Netlist, p: usize) -> bool {
    exists|w: Seq<usize>| #[trigger] is_dep_walk(nl, w) && w.len() >= 2 && w[0] == p && w.last() == p
}

/// Does the cell have an output?
pub open spec fn has_output(nl: Netlist, c: usize) -> bool {
    exists|p: usize| #[trigger] is_output_of(nl, p, c)
}

/// Does a gate lack an input pin?
pub open spec fn lacks_pin(nl: Netlist, c: usize) -> bool {
    match nl.kind(c) {
        CellKind::ClockGate => nl.cell_pin(c, "CP"@) is None || nl.cell_pin(c, "E"@) is None,
        CellKind::And(_, _, _) => nl.cell_pin(c, "A"@) is None || nl.cell_pin(c, "B"@) is None,
        CellKind::Inv | CellKind::Buf => nl.cell_pin(c, "A"@) is None,
        _ => false,
    }
}

/// What of the pins and their drivers stands against a graph?
pub open spec fn pin_fault(nl: Netlist, e: BuildError) -> bool {
    match e {
        BuildError::CombLoop(p) => p < nl.num_pins() && on_loop(nl, p),
        BuildError::UnmangledDsp(c) => has_output(nl, c) && nl.kind(c) == CellKind::BareDsp,
        BuildError::Latch(c) => has_output(nl, c) && nl.kind(c) == CellKind::Latch,
        BuildError::UnknownCell(c) => has_output(nl, c) && nl.kind(c) == CellKind::Unknown,
        BuildError::MissingPin(c) => has_output(nl, c) && lacks_pin(nl, c),
        BuildError::BadMacroPin(p) => is_output_of(nl, p, nl.cell(p)) && nl.kind(nl.cell(p)) is Macro && macro_out(
            nl,
            p,
        ) is None,
        BuildError::BadRamPin(p) => is_output_of(nl, p, nl.cell(p)) && nl.kind(nl.cell(p)) == CellKind::Ram
            && ram_out(nl, p) is None,
        BuildError::GatedClock(d) => is_gated(nl, d) && exists|p: usize| #[trigger] goes_into_gate(nl, d, p),
        _ => false,
    }
}

} // verus!
