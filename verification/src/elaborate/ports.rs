//! What SRAMs, macros and clocks of a graph have from the pins of a netlist.

use super::cells::{feeds_slot, slot_pin, CellKind};
use super::clocks::{clock_path, flag_lit, has_odd_input, last_input};
use super::elements::{bus_ok, macro_ok, ram_inputs, ram_ok};
use super::graph::is_graph_of;
use super::laws::{is_cell_clock, is_clock_value, lemma_clock_value, pin_value, value_or};
use super::rules::{is_out_port, is_output_of, lit_or, macro_out, macro_slot_ok, pin_ok, ram_bit_ok, ram_out};
use crate::aig::{is_valuation, literal_value, DriverType, AIG};
use crate::collections::set_items;
use crate::macros::MacroKind;
use crate::netlist::Netlist;
use vstd::prelude::*;

verus! {

/// Do the literals of a bus have the values of the pins with its name, and zero where
/// there is no pin?
pub open spec fn bus_follows(
    nl: Netlist,
    aig: AIG,
    val: spec_fn(usize) -> bool,
    c: usize,
    name: Seq<char>,
    lits: Seq<usize>,
) -> bool {
    forall|b: int|
        0 <= b < lits.len() ==> literal_value(val, #[trigger] lits[b]) == value_or(
            aig,
            val,
            nl.cell_bit(c, name, b as usize),
            false,
        )
}

/// The ports of an SRAM have the values of the pins that are named after them, and its
/// read data is that of its output pins.
pub proof fn law_ram_ports(nl: Netlist, aig: AIG, val: spec_fn(usize) -> bool, c: usize, b: int)
    requires
        is_graph_of(nl, aig),
        is_valuation(aig, val),
        c < nl.num_cells(),
        nl.kind(c) == CellKind::Ram,
        0 <= b < 32,
    ensures
        aig.srams.has(c),
        bus_follows(nl, aig, val, c, "PORT_R_ADDR"@, aig.srams.at(c).port_r_addr_iv@),
        bus_follows(nl, aig, val, c, "PORT_W_ADDR"@, aig.srams.at(c).port_w_addr_iv@),
        bus_follows(nl, aig, val, c, "PORT_W_WR_DATA"@, aig.srams.at(c).port_w_wr_data_iv@),
        is_cell_clock(
            nl,
            aig,
            val,
            nl.cell_pin(c, "PORT_R_CLK"@),
            literal_value(val, aig.srams.at(c).port_r_en_iv),
        ),
        aig.srams.at(c).port_r_rd_data@[b] != 0 ==> exists|p: usize| #[trigger]
            is_output_of(nl, p, c) && nl.name(p) == "PORT_R_RD_DATA"@ && nl.bit(p) == Some(b as usize) && pin_value(
                aig,
                val,
                p,
            ) == val(aig.srams.at(c).port_r_rd_data@[b]),
{
    let lits = aig.pin2aigpin_iv@;
    assert(aig.srams.has(c));
    let ram = aig.srams.at(c);
    assert(ram_ok(nl, aig.drivers@, lits, c, ram));
    let wclk = choose|wclk: usize| #[trigger] ram_inputs(nl, aig.drivers@, lits, c, ram, wclk);
    lemma_bus_follows(nl, aig, val, c, "PORT_R_ADDR"@, ram.port_r_addr_iv@);
    lemma_bus_follows(nl, aig, val, c, "PORT_W_ADDR"@, ram.port_w_addr_iv@);
    lemma_bus_follows(nl, aig, val, c, "PORT_W_WR_DATA"@, ram.port_w_wr_data_iv@);
    if let Some(p) = nl.cell_pin(c, "PORT_R_CLK"@) {
        lemma_clock_value(nl, aig, val, p, ram.port_r_en_iv);
    }
    let o = ram.port_r_rd_data@[b];
    if o != 0 {
        assert(ram_bit_ok(nl, aig.drivers@, lits, c, b, o));
        let p = choose|p: usize|
            p < nl.num_pins() && #[trigger] ram_out(nl, p) == Some((c, b as usize)) && lits[p as int] == o * 2;
        assert(is_output_of(nl, p, c));
    }
}

proof fn lemma_bus_follows(
    nl: Netlist,
    aig: AIG,
    val: spec_fn(usize) -> bool,
    c: usize,
    name: Seq<char>,
    v: Seq<usize>,
)
    requires
        is_valuation(aig, val),
        bus_ok(nl, aig.pin2aigpin_iv@, nl.pins(c), name, v),
    ensures
        bus_follows(nl, aig, val, c, name, v),
{
    assert forall|b: int| 0 <= b < v.len() implies literal_value(val, #[trigger] v[b]) == value_or(
        aig,
        val,
        nl.cell_bit(c, name, b as usize),
        false,
    ) by {
        assert(v[b] == lit_or(aig.pin2aigpin_iv@, nl.last_bit(nl.pins(c), name, b as usize), 0));
    }
}

/// Is the pin a pin of the cell that stands for input `s` of the macro?
pub open spec fn is_macro_input(nl: Netlist, c: usize, kind: MacroKind, s: usize, p: usize) -> bool {
    nl.pins(c).contains(p) && kind.spec_input_slot(nl.name(p), nl.bit(p)) == Some(s)
}

proof fn lemma_slot_pin_kept(nl: Netlist, kind: MacroKind, pins: Seq<usize>, s: usize)
    ensures
        slot_pin(nl, kind, pins, s as int) matches Some(p) ==> pins.contains(p) && kind.spec_input_slot(
            nl.name(p),
            nl.bit(p),
        ) == Some(s),
        slot_pin(nl, kind, pins, s as int) is None ==> forall|i: int|
            0 <= i < pins.len() ==> kind.spec_input_slot(nl.name(#[trigger] pins[i]), nl.bit(pins[i])) != Some(s),
    decreases pins.len(),
{
    if pins.len() > 0 {
        let rest = pins.drop_last();
        lemma_slot_pin_kept(nl, kind, rest, s);
        lemma_clock_feeds_no_slot(kind, nl.bit(pins.last()));
        if feeds_slot(nl, kind, pins.last(), s as int) {
            assert(pins[pins.len() - 1] == pins.last());
        } else if let Some(p) = slot_pin(nl, kind, rest, s as int) {
            assert(pins[rest.index_of(p)] == p);
        } else {
            assert forall|i: int| 0 <= i < pins.len() implies kind.spec_input_slot(
                nl.name(#[trigger] pins[i]),
                nl.bit(pins[i]),
            ) != Some(s) by {
                if i < rest.len() {
                    assert(rest[i] == pins[i]);
                }
            }
        }
    }
}

/// No macro has a slot for its clock.
proof fn lemma_clock_feeds_no_slot(kind: MacroKind, bit: Option<usize>)
    ensures
        kind.spec_input_slot("CLK"@, bit) is None,
{
    reveal_strlit("CLK");
    reveal_strlit("CIN");
    reveal_strlit("CEP");
    reveal_strlit("CI");
    reveal_strlit("CE");
    reveal_strlit("CYINIT");
    reveal_strlit("DI");
    reveal_strlit("S");
    reveal_strlit("A");
    reveal_strlit("B");
    reveal_strlit("C");
    reveal_strlit("D");
    assert("CLK"@.len() == 3 && "CLK"@[1] == 'L');
    assert("CIN"@[1] == 'I' && "CEP"@[1] == 'E');
}

/// The inputs of a macro have the values of the pins that stand for them; where there is
/// no pin, enables are set and all else is clear. Its clock enable is that of its clock, or
/// set where it has none, and its outputs are those of its output pins.
pub proof fn law_macro_ports(nl: Netlist, aig: AIG, val: spec_fn(usize) -> bool, c: usize, s: usize)
    requires
        is_graph_of(nl, aig),
        is_valuation(aig, val),
        aig.macros.has(c),
    ensures
        nl.kind(c) == CellKind::Macro(aig.macros.at(c).kind),
        ({
            let m = aig.macros.at(c);
            let x = literal_value(val, m.inputs@[s as int]);
            s < m.kind.spec_num_inputs() ==> ((exists|p: usize| #[trigger]
                is_macro_input(nl, c, m.kind, s, p) && pin_value(aig, val, p) == x) || ((forall|p: usize|
                !#[trigger] is_macro_input(nl, c, m.kind, s, p)) && x == match m.kind {
                MacroKind::Dsp48e2 { .. } => s == 120,
                MacroKind::Srlc32e => s == 1,
                MacroKind::Carry4 => false,
            }))
        }),
        ({
            let m = aig.macros.at(c);
            let x = literal_value(val, m.clk_en_iv);
            match nl.cell_pin(c, "CLK"@) {
                Some(p) => m.kind is Carry4 || is_clock_value(aig, val, clock_path(nl, p, false, nl.num_pins()), x),
                None => x,
            }
        }),
        ({
            let m = aig.macros.at(c);
            s < m.kind.spec_num_outputs() && m.outputs@[s as int] != 0 ==> exists|p: usize| #[trigger]
                is_output_of(nl, p, c) && m.kind.spec_output_slot(nl.name(p), nl.bit(p)) == Some(s) && pin_value(
                    aig,
                    val,
                    p,
                ) == val(m.outputs@[s as int])
        }),
{
    let lits = aig.pin2aigpin_iv@;
    let m = aig.macros.at(c);
    assert(macro_ok(nl, aig.drivers@, lits, c, m));
    if s < m.kind.spec_num_inputs() {
        let pins = nl.pins(c);
        lemma_slot_pin_kept(nl, m.kind, pins, s);
        assert(m.inputs@[s as int] == lit_or(lits, slot_pin(nl, m.kind, pins, s as int), m.kind.spec_default_input(s)));
        match slot_pin(nl, m.kind, pins, s as int) {
            Some(p) => {
                assert(is_macro_input(nl, c, m.kind, s, p));
            },
            None => {
                assert forall|p: usize| !#[trigger] is_macro_input(nl, c, m.kind, s, p) by {
                    if pins.contains(p) {
                        assert(pins[pins.index_of(p)] == p);
                    }
                }
            },
        }
    }
    if let Some(p) = nl.cell_pin(c, "CLK"@) {
        if !(m.kind is Carry4) {
            lemma_clock_value(nl, aig, val, p, m.clk_en_iv);
        }
    }
    if s < m.kind.spec_num_outputs() && m.outputs@[s as int] != 0 {
        let o = m.outputs@[s as int];
        assert(macro_slot_ok(nl, aig.drivers@, lits, c, s as int, o));
        let p = choose|p: usize|
            p < nl.num_pins() && #[trigger] macro_out(nl, p) == Some((c, s)) && lits[p as int] == o * 2;
        assert(is_output_of(nl, p, c));
    }
}

/// Clock paths go from pin to pin: an input is where its driver is, an inverter turns the
/// edge around, a buffer does not, a clock gate adds its enable, and a port of the design is
/// the end. A constant has no clock.
pub proof fn law_clock_paths(nl: Netlist, p: usize, negedge: bool, fuel: nat)
    requires
        fuel > 0,
    ensures
        ({
            let c = nl.cell(p);
            let next = (fuel - 1) as nat;
            let path = clock_path(nl, p, negedge, fuel);
            let fine = !has_odd_input(nl, nl.pins(c));
            &&& nl.is_input(p) && (nl.on_zero(p) || nl.on_one(p)) ==> path.source is None
            &&& nl.is_input(p) && !nl.on_zero(p) && !nl.on_one(p) ==> path == clock_path(
                nl,
                nl.root(p),
                negedge,
                next,
            )
            &&& !nl.is_input(p) && c == 0 ==> path.source == Some((p, negedge)) && path.enables.len() == 0
            &&& !nl.is_input(p) && c != 0 && fine && nl.celltype(c) == "INV"@ ==> (last_input(
                nl,
                nl.pins(c),
                "A"@,
            ) matches Some(a) ==> path == clock_path(nl, a, !negedge, next))
            &&& !nl.is_input(p) && c != 0 && fine && nl.celltype(c) == "BUF"@ ==> (last_input(
                nl,
                nl.pins(c),
                "A"@,
            ) matches Some(a) ==> path == clock_path(nl, a, negedge, next))
            &&& !nl.is_input(p) && c != 0 && fine && nl.celltype(c) == "CKLNQD"@ ==> (last_input(
                nl,
                nl.pins(c),
                "CP"@,
            ) matches Some(cp) ==> (last_input(nl, nl.pins(c), "E"@) matches Some(en) ==> path.source == clock_path(
                nl,
                cp,
                negedge,
                next,
            ).source && path.enables == clock_path(nl, cp, negedge, next).enables.push(en)))
        }),
{
    super::library::lemma_cell_names();
}

/// The flag of a clock port tells its rising edges by number 0, and its falling edges by
/// number 1.
pub proof fn law_clock_flags(drivers: Seq<DriverType>, port: usize, negedge: bool, o: usize)
    requires
        flag_lit(drivers, Some((port, negedge)), o),
    ensures
        o % 2 == 0,
        o / 2 < drivers.len(),
        drivers[(o / 2) as int] == DriverType::InputClockFlag(
            port,
            if negedge {
                1
            } else {
                0
            },
        ),
{
}

/// The outputs of a graph are the literals at the output ports of its design, but for
/// those that are tied to constants.
pub proof fn law_outputs_are_ports(nl: Netlist, aig: AIG, v: usize)
    requires
        is_graph_of(nl, aig),
    ensures
        set_items(aig.primary_outputs).contains(v) <==> exists|p: usize|
            p < nl.num_pins() && nl.cell(p) == 0 && nl.is_input(p) && !nl.on_zero(p) && !nl.on_one(p)
                && #[trigger] aig.pin2aigpin_iv@[p as int] == v,
{
    if set_items(aig.primary_outputs).contains(v) {
        let p = choose|p: usize|
            p < nl.num_pins() && #[trigger] is_out_port(nl, p) && aig.pin2aigpin_iv@[p as int] == v;
        assert(aig.pin2aigpin_iv@[p as int] == v);
    }
    if exists|p: usize|
        p < nl.num_pins() && nl.cell(p) == 0 && nl.is_input(p) && !nl.on_zero(p) && !nl.on_one(p)
            && #[trigger] aig.pin2aigpin_iv@[p as int] == v {
        let p = choose|p: usize|
            p < nl.num_pins() && nl.cell(p) == 0 && nl.is_input(p) && !nl.on_zero(p) && !nl.on_one(p)
                && #[trigger] aig.pin2aigpin_iv@[p as int] == v;
        assert(is_out_port(nl, p));
    }
}

/// Every input port of a design has a pin of its own, which it drives.
pub proof fn law_inputs_are_ports(nl: Netlist, aig: AIG, p: usize)
    requires
        is_graph_of(nl, aig),
        p < nl.num_pins(),
        nl.cell(p) == 0,
        !nl.is_input(p),
    ensures
        aig.pin2aigpin_iv@[p as int] % 2 == 0,
        aig.pin2aigpin_iv@[p as int] / 2 < aig.drivers@.len(),
        aig.drivers@[(aig.pin2aigpin_iv@[p as int] / 2) as int] == DriverType::InputPort(p),
{
    assert(pin_ok(nl, aig.drivers@, aig.pin2aigpin_iv@, p));
}

} // verus!
