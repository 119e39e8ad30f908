//! What holds of graphs of netlists.

use super::cells::{slot_pin, BuildError, CellKind};
use super::clocks::{clock_fault, clock_path, conjoined, flag_lit, ClockPath};
use super::elements::{
    bus_defined, clock_fine, clock_or, dff_inputs, dff_ok, element_fault, feeds_output, goes_into_element,
    is_bad_ram_pin, is_clock_of, is_clock_pin, is_gated_by, macro_ok, ram_inputs, ram_ok,
};
use super::graph::{build_fault, covers, is_graph_of};
use super::pins::deps_first;
use super::rules::{
    carries_clock, dff_out, goes_into_gate, is_dep_walk, is_gated, is_output_of, lit_or, macro_out, pin_fault, pin_ok,
};
use crate::aig::{
    defined, flip, is_valuation, law_conjunction, law_inversion, literal_value, spec_invert, DriverType, AIG,
};
use crate::macros::{lemma_comb_slots_in_range, lemma_live};
use crate::netlist::Netlist;
use vstd::prelude::*;

verus! {

/// The value of a netlist pin, as its literal says.
pub open spec fn pin_value(aig: AIG, val: spec_fn(usize) -> bool, p: usize) -> bool {
    literal_value(val, aig.pin2aigpin_iv@[p as int])
}

/// The value of an input pin of a cell, or a default where there is no pin.
pub open spec fn value_or(aig: AIG, val: spec_fn(usize) -> bool, p: Option<usize>, default: bool) -> bool {
    match p {
        Some(p) => pin_value(aig, val, p),
        None => default,
    }
}

/// Inputs have the values of the pins that drive them, and outputs of gates
/// have the values that the gates compute.
pub proof fn law_gates_compute(nl: Netlist, aig: AIG, val: spec_fn(usize) -> bool, p: usize)
    requires
        is_graph_of(nl, aig),
        is_valuation(aig, val),
        p < nl.num_pins(),
    ensures
        nl.is_input(p) && nl.on_zero(p) ==> !pin_value(aig, val, p),
        nl.is_input(p) && !nl.on_zero(p) && nl.on_one(p) ==> pin_value(aig, val, p),
        nl.is_driven(p) ==> pin_value(aig, val, p) == pin_value(aig, val, nl.root(p)),
        ({
            let c = nl.cell(p);
            let a = nl.cell_pin(c, "A"@);
            let b = nl.cell_pin(c, "B"@);
            !nl.is_input(p) && c != 0 ==> match nl.kind(c) {
                CellKind::And(iv_a, iv_b, iv_y) => a is Some && b is Some && pin_value(aig, val, p) == (((pin_value(
                    aig,
                    val,
                    a.unwrap(),
                ) != iv_a) && (pin_value(aig, val, b.unwrap()) != iv_b)) != iv_y),
                CellKind::Inv => a is Some && pin_value(aig, val, p) == !pin_value(aig, val, a.unwrap()),
                CellKind::Buf => a is Some && pin_value(aig, val, p) == pin_value(aig, val, a.unwrap()),
                _ => true,
            }
        }),
{
    let lits = aig.pin2aigpin_iv@;
    let c = nl.cell(p);
    assert(pin_ok(nl, aig.drivers@, lits, p));
    if !nl.is_input(p) && c != 0 {
        match nl.kind(c) {
            CellKind::And(iv_a, iv_b, iv_y) => {
                let a = lits[nl.cell_pin(c, "A"@).unwrap() as int];
                let b = lits[nl.cell_pin(c, "B"@).unwrap() as int];
                let o = lits[p as int];
                law_inversion(val, a);
                law_inversion(val, b);
                law_inversion(val, o);
                law_conjunction(aig, val, flip(a, iv_a), flip(b, iv_b), flip(o, iv_y));
            },
            CellKind::Inv => {
                law_inversion(val, lits[nl.cell_pin(c, "A"@).unwrap() as int]);
            },
            _ => {},
        }
    }
}

/// An output of a flip-flop has the value that the flip-flop stores, unless
/// active-low set or reset is active; reset wins.
#[verifier::rlimit(60)]
pub proof fn law_dff_output(nl: Netlist, aig: AIG, val: spec_fn(usize) -> bool, p: usize)
    requires
        is_graph_of(nl, aig),
        is_valuation(aig, val),
        is_output_of(nl, p, nl.cell(p)),
        nl.kind(nl.cell(p)) == CellKind::Dff,
    ensures
        ({
            let c = nl.cell(p);
            let s = value_or(aig, val, nl.cell_pin(c, "S"@), true);
            let r = value_or(aig, val, nl.cell_pin(c, "R"@), true);
            exists|q: usize|
                q < aig.drivers@.len() && #[trigger] aig.drivers@[q as int] == DriverType::DFF(c) && pin_value(
                    aig,
                    val,
                    p,
                ) == ((val(q) || !s) && r)
        }),
{
    let lits = aig.pin2aigpin_iv@;
    let c = nl.cell(p);
    assert(pin_ok(nl, aig.drivers@, lits, p));
    let s = lit_or(lits, nl.cell_pin(c, "S"@), 1);
    let r = lit_or(lits, nl.cell_pin(c, "R"@), 1);
    let o = lits[p as int];
    let (q, x) = choose|q: usize, x: usize| #[trigger] dff_out(aig.drivers@, c, s, r, q, x, o);
    let q2 = (q * 2) as usize;
    law_inversion(val, q2);
    law_inversion(val, x);
    law_conjunction(aig, val, spec_invert(q2), s, spec_invert(x));
    law_conjunction(aig, val, x, r, o);
    assert(literal_value(val, q2) == val(q));
    assert(aig.drivers@[q as int] == DriverType::DFF(c));
}

/// Is `x` the value of the clock of a cell? A dangling clock is never active,
/// and a clock behind gates is active when its flag and all enables are.
pub open spec fn is_clock_value(aig: AIG, val: spec_fn(usize) -> bool, path: ClockPath, x: bool) -> bool {
    exists|o: usize|
        #![trigger flag_lit(aig.drivers@, path.source, o)]
        flag_lit(aig.drivers@, path.source, o) && x == (literal_value(val, o) && forall|i: int|
            0 <= i < path.enables.len() ==> pin_value(aig, val, #[trigger] path.enables[i]))
}

/// Literals along a clock path have the values of conjunctions.
proof fn lemma_conjoined(aig: AIG, val: spec_fn(usize) -> bool, enables: Seq<usize>, w: Seq<usize>, k: int)
    requires
        is_valuation(aig, val),
        aig.drivers@.len() <= crate::aig::MAX_AIGPINS + 1,
        conjoined(aig.drivers@, aig.pin2aigpin_iv@, enables, w),
        0 <= k <= enables.len(),
    ensures
        literal_value(val, w[k]) == (literal_value(val, w[0]) && forall|i: int|
            0 <= i < k ==> pin_value(aig, val, #[trigger] enables[i])),
    decreases k,
{
    if k > 0 {
        lemma_conjoined(aig, val, enables, w, k - 1);
        let lits = aig.pin2aigpin_iv@;
        assert(crate::aig::and_lit(aig.drivers@, w[k - 1], lits[enables[k - 1] as int], w[k - 1 + 1]));
        law_conjunction(aig, val, w[k - 1], lits[enables[k - 1] as int], w[k]);
        let all = forall|i: int| 0 <= i < k ==> pin_value(aig, val, #[trigger] enables[i]);
        let before = forall|i: int| 0 <= i < k - 1 ==> pin_value(aig, val, #[trigger] enables[i]);
        assert(all == (before && pin_value(aig, val, enables[k - 1])));
    }
}

/// The value of a clock's literal.
pub(super) proof fn lemma_clock_value(nl: Netlist, aig: AIG, val: spec_fn(usize) -> bool, p: usize, o: usize)
    requires
        is_valuation(aig, val),
        aig.drivers@.len() <= crate::aig::MAX_AIGPINS + 1,
        clock_or(nl, aig.drivers@, aig.pin2aigpin_iv@, Some(p), 0, o),
    ensures
        is_clock_value(aig, val, clock_path(nl, p, false, nl.num_pins()), literal_value(val, o)),
{
    let path = clock_path(nl, p, false, nl.num_pins());
    let w = choose|w: Seq<usize>| #[trigger]
        conjoined(aig.drivers@, aig.pin2aigpin_iv@, path.enables, w) && flag_lit(aig.drivers@, path.source, w[0]) && o
            == w.last();
    lemma_conjoined(aig, val, path.enables, w, path.enables.len() as int);
    assert(w[path.enables.len() as int] == w.last());
    assert(flag_lit(aig.drivers@, path.source, w[0]));
}

/// Is `x` the value of the clock at a pin of a cell? Where there is no pin, the
/// clock is never active.
pub open spec fn is_cell_clock(nl: Netlist, aig: AIG, val: spec_fn(usize) -> bool, p: Option<usize>, x: bool) -> bool {
    match p {
        Some(p) => is_clock_value(aig, val, clock_path(nl, p, false, nl.num_pins()), x),
        None => !x,
    }
}

/// Does the flip-flop store what it should, given the value of its clock?
pub open spec fn dff_stores(nl: Netlist, aig: AIG, val: spec_fn(usize) -> bool, c: usize, clk: bool) -> bool {
    let d = value_or(aig, val, nl.cell_pin(c, "D"@), false);
    let s = value_or(aig, val, nl.cell_pin(c, "S"@), true);
    let r = value_or(aig, val, nl.cell_pin(c, "R"@), true);
    &&& literal_value(val, aig.dffs.at(c).d_iv) == ((d || !s) && r)
    &&& literal_value(val, aig.dffs.at(c).en_iv) == (clk || !s || !r)
}

/// A flip-flop is updated when its clock is active, or when set or reset is. It
/// then stores its data, one while set is active, and zero while reset is.
pub proof fn law_dff_updates(nl: Netlist, aig: AIG, val: spec_fn(usize) -> bool, c: usize)
    requires
        is_graph_of(nl, aig),
        is_valuation(aig, val),
        c < nl.num_cells(),
        nl.kind(c) == CellKind::Dff,
    ensures
        aig.dffs.has(c),
        exists|clk: bool| is_cell_clock(nl, aig, val, nl.cell_pin(c, "CLK"@), clk) && #[trigger] dff_stores(nl, aig,
            val, c, clk),
{
    let lits = aig.pin2aigpin_iv@;
    assert(aig.dffs.has(c));
    let dff = aig.dffs.at(c);
    assert(dff_ok(nl, aig.drivers@, lits, c, dff));
    let (k, d, en) = choose|k: usize, d: usize, en: usize| #[trigger]
        dff_inputs(nl, aig.drivers@, lits, c, dff, k, d, en);
    let d_iv = lit_or(lits, nl.cell_pin(c, "D"@), 0);
    let s = lit_or(lits, nl.cell_pin(c, "S"@), 1);
    let r = lit_or(lits, nl.cell_pin(c, "R"@), 1);
    law_inversion(val, d_iv);
    law_inversion(val, d);
    law_inversion(val, k);
    law_inversion(val, en);
    law_inversion(val, dff.en_iv);
    law_conjunction(aig, val, spec_invert(d_iv), s, spec_invert(d));
    law_conjunction(aig, val, d, r, dff.d_iv);
    law_conjunction(aig, val, spec_invert(k), s, spec_invert(en));
    law_conjunction(aig, val, spec_invert(en), r, spec_invert(dff.en_iv));
    if let Some(p) = nl.cell_pin(c, "CLK"@) {
        lemma_clock_value(nl, aig, val, p, k);
    }
    assert(dff_stores(nl, aig, val, c, literal_value(val, k)));
}

/// Are the bits of an SRAM written that should be, given the value of its write
/// clock?
pub open spec fn ram_writes(nl: Netlist, aig: AIG, val: spec_fn(usize) -> bool, c: usize, clk: bool) -> bool {
    forall|b: int|
        0 <= b < 32 ==> literal_value(val, #[trigger] aig.srams.at(c).port_w_wr_en_iv@[b]) == (value_or(
            aig,
            val,
            nl.cell_bit(c, "PORT_W_WR_EN"@, b as usize),
            false,
        ) && clk)
}

/// An SRAM writes a bit when the bit's write enable is set while the write clock
/// is active.
pub proof fn law_ram_writes(nl: Netlist, aig: AIG, val: spec_fn(usize) -> bool, c: usize)
    requires
        is_graph_of(nl, aig),
        is_valuation(aig, val),
        c < nl.num_cells(),
        nl.kind(c) == CellKind::Ram,
    ensures
        aig.srams.has(c),
        exists|clk: bool|
            is_cell_clock(nl, aig, val, nl.cell_pin(c, "PORT_W_CLK"@), clk) && #[trigger] ram_writes(
                nl,
                aig,
                val,
                c,
                clk,
            ),
{
    let lits = aig.pin2aigpin_iv@;
    assert(aig.srams.has(c));
    let ram = aig.srams.at(c);
    assert(ram_ok(nl, aig.drivers@, lits, c, ram));
    let wclk = choose|wclk: usize| #[trigger] ram_inputs(nl, aig.drivers@, lits, c, ram, wclk);
    if let Some(p) = nl.cell_pin(c, "PORT_W_CLK"@) {
        lemma_clock_value(nl, aig, val, p, wclk);
    }
    assert forall|b: int| 0 <= b < 32 implies literal_value(val, #[trigger] ram.port_w_wr_en_iv@[b]) == (value_or(
        aig,
        val,
        nl.cell_bit(c, "PORT_W_WR_EN"@, b as usize),
        false,
    ) && literal_value(val, wclk)) by {
        let en = lit_or(lits, nl.cell_bit(c, "PORT_W_WR_EN"@, b as usize), 0);
        law_conjunction(aig, val, en, wclk, ram.port_w_wr_en_iv@[b]);
    }
    assert(ram_writes(nl, aig, val, c, literal_value(val, wclk)));
}

/// A pin that carries a gated clock has no literal.
proof fn lemma_gated(nl: Netlist, aig: AIG, p: usize, fuel: nat)
    requires
        nl.wf(),
        is_graph_of(nl, aig),
        p < nl.num_pins(),
        carries_clock(nl, p, fuel),
    ensures
        !defined(aig.pin2aigpin_iv@[p as int]),
    decreases fuel,
{
    let lits = aig.pin2aigpin_iv@;
    let c = nl.cell(p);
    assert(pin_ok(nl, aig.drivers@, lits, p));
    if nl.is_input(p) {
        assert(nl.pin2net@[p as int] < nl.net_roots@.len());
        assert(nl.root(p) < nl.num_pins());
        lemma_gated(nl, aig, nl.root(p), (fuel - 1) as nat);
    } else if nl.kind(c) != CellKind::ClockGate {
        let a = nl.cell_pin(c, "A"@).unwrap();
        lemma_cell_pin(nl, c, "A"@);
        assert(nl.pin2cell@[p as int] < nl.num_cells());
        lemma_gated(nl, aig, a, (fuel - 1) as nat);
    }
}

/// The pin of a cell is a pin.
proof fn lemma_cell_pin(nl: Netlist, c: usize, name: Seq<char>)
    requires
        nl.wf(),
        c < nl.num_cells(),
    ensures
        nl.cell_pin(c, name) matches Some(p) ==> p < nl.num_pins(),
{
    nl.lemma_last_named(nl.pins(c), name);
    if let Some(p) = nl.cell_pin(c, name) {
        let i = nl.pins(c).index_of(p);
        assert(nl.cell_pins@[c as int]@[i] == p);
    }
}

/// A pin with a literal carries no gated clock.
proof fn lemma_not_gated(nl: Netlist, aig: AIG, p: usize)
    requires
        nl.wf(),
        is_graph_of(nl, aig),
        p < nl.num_pins(),
        defined(aig.pin2aigpin_iv@[p as int]),
    ensures
        !is_gated(nl, p),
{
    if is_gated(nl, p) {
        let fuel = choose|fuel: nat| #[trigger] carries_clock(nl, p, fuel);
        lemma_gated(nl, aig, p, fuel);
    }
}

/// Along dependencies, pins come earlier and earlier.
proof fn lemma_walk_down(nl: Netlist, order: Seq<usize>, w: Seq<usize>, k: int)
    requires
        deps_first(nl, order),
        order.no_duplicates(),
        is_dep_walk(nl, w),
        0 <= k < w.len(),
        order.contains(w[0]),
    ensures
        order.contains(w[k]),
        order.index_of(w[k]) + k <= order.index_of(w[0]),
    decreases k,
{
    if k > 0 {
        lemma_walk_down(nl, order, w, k - 1);
        let i = order.index_of(w[k - 1]);
        assert(order[i] == w[k - 1]);
        assert(nl.deps(w[k - 1]).contains(w[k - 1 + 1]));
        assert(nl.deps(order[i]).contains(w[k]));
        let j = order.take(i).index_of(w[k]);
        assert(order[j] == w[k]);
        assert(order.index_of(w[k]) == j);
    }
}

/// What stands against a graph because of pins does not hold of a netlist that
/// has one.
proof fn lemma_no_pin_fault(nl: Netlist, aig: AIG, e: BuildError)
    requires
        nl.wf(),
        is_graph_of(nl, aig),
    ensures
        !pin_fault(nl, e),
{
    let lits = aig.pin2aigpin_iv@;
    if pin_fault(nl, e) {
        match e {
            BuildError::CombLoop(p) => {
                let order = choose|order: Seq<usize>| #[trigger]
                    deps_first(nl, order) && order.no_duplicates() && covers(nl, order);
                let w = choose|w: Seq<usize>| #[trigger]
                    is_dep_walk(nl, w) && w.len() >= 2 && w[0] == p && w.last() == p;
                assert(order.contains(p));
                lemma_walk_down(nl, order, w, w.len() - 1);
            },
            BuildError::UnmangledDsp(c)
            | BuildError::Latch(c)
            | BuildError::UnknownCell(c)
            | BuildError::MissingPin(c) => {
                let p = choose|p: usize| #[trigger] is_output_of(nl, p, c);
                assert(pin_ok(nl, aig.drivers@, lits, p));
            },
            BuildError::BadMacroPin(p) | BuildError::BadRamPin(p) => {
                assert(pin_ok(nl, aig.drivers@, lits, p));
            },
            BuildError::GatedClock(d) => {
                let p = choose|p: usize| #[trigger] goes_into_gate(nl, d, p);
                let c = nl.cell(p);
                assert(pin_ok(nl, aig.drivers@, lits, p));
                assert(nl.pin2cell@[p as int] < nl.num_cells());
                lemma_cell_pin(nl, c, "A"@);
                lemma_cell_pin(nl, c, "B"@);
                lemma_cell_pin(nl, c, "S"@);
                lemma_cell_pin(nl, c, "R"@);
                assert(defined(lits[d as int]));
                lemma_not_gated(nl, aig, d);
            },
            _ => {},
        }
    }
}

/// The clock path from a pin of a connected cell is fine.
proof fn lemma_fine_clock(nl: Netlist, aig: AIG, c: usize, p: usize)
    requires
        is_graph_of(nl, aig),
        c < nl.num_cells(),
        nl.pins(c).contains(p),
        is_clock_of(nl.kind(c), nl.name(p)),
        nl.kind(c) is Macro ==> aig.macros.has(c),
    ensures
        clock_fine(nl, aig.pin2aigpin_iv@, p),
{
    let lits = aig.pin2aigpin_iv@;
    let pins = nl.pins(c);
    assert(pins[pins.index_of(p)] == p);
    match nl.kind(c) {
        CellKind::Dff => {
            assert(aig.dffs.has(c));
            let dff = aig.dffs.at(c);
            assert(dff_ok(nl, aig.drivers@, lits, c, dff));
            let (k, d, en) = choose|k: usize, d: usize, en: usize| #[trigger]
                dff_inputs(nl, aig.drivers@, lits, c, dff, k, d, en);
        },
        CellKind::Ram => {
            assert(aig.srams.has(c));
            let r = aig.srams.at(c);
            assert(ram_ok(nl, aig.drivers@, lits, c, r));
            let wclk = choose|wclk: usize| #[trigger] ram_inputs(nl, aig.drivers@, lits, c, r, wclk);
        },
        _ => {
            assert(macro_ok(nl, aig.drivers@, lits, c, aig.macros.at(c)));
        },
    }
}

/// Enables on clock paths are pins.
proof fn lemma_enables(nl: Netlist, p: usize, negedge: bool, fuel: nat)
    requires
        nl.wf(),
        p < nl.num_pins(),
    ensures
        forall|i: int|
            0 <= i < clock_path(nl, p, negedge, fuel).enables.len() ==> #[trigger] clock_path(
                nl,
                p,
                negedge,
                fuel,
            ).enables[i] < nl.num_pins(),
    decreases fuel,
{
    if fuel > 0 {
        let c = nl.cell(p);
        assert(nl.pin2cell@[p as int] < nl.num_cells());
        assert(nl.pin2net@[p as int] < nl.net_roots@.len());
        assert forall|i: int| 0 <= i < nl.pins(c).len() implies #[trigger] nl.pins(c)[i] < nl.num_pins() by {
            assert(nl.cell_pins@[c as int]@[i] < nl.num_pins());
        }
        lemma_last_input(nl, nl.pins(c), "A"@);
        lemma_last_input(nl, nl.pins(c), "CP"@);
        lemma_last_input(nl, nl.pins(c), "E"@);
        let f = (fuel - 1) as nat;
        match super::clocks::clock_step(nl, p) {
            super::clocks::ClockStep::To(q, inv) => {
                lemma_enables(nl, q, negedge != inv, f);
            },
            super::clocks::ClockStep::Gated(cp, en) => {
                lemma_enables(nl, cp, negedge, f);
                let rest = clock_path(nl, cp, negedge, f).enables;
                assert forall|i: int| 0 <= i < rest.push(en).len() implies #[trigger] rest.push(en)[i]
                    < nl.num_pins() by {
                    if i < rest.len() {
                        assert(rest[i] < nl.num_pins());
                    }
                }
            },
            _ => {},
        }
    }
}

proof fn lemma_last_input(nl: Netlist, pins: Seq<usize>, name: Seq<char>)
    requires
        forall|i: int| 0 <= i < pins.len() ==> #[trigger] pins[i] < nl.num_pins(),
    ensures
        super::clocks::last_input(nl, pins, name) matches Some(p) ==> p < nl.num_pins(),
    decreases pins.len(),
{
    if pins.len() > 0 {
        assert(pins.last() == pins[pins.len() - 1]);
        let before = pins.drop_last();
        assert forall|i: int| 0 <= i < before.len() implies #[trigger] before[i] < nl.num_pins() by {
            assert(before[i] == pins[i]);
        }
        lemma_last_input(nl, before, name);
    }
}

/// Inputs that a used output of a macro depends on are defined.
proof fn lemma_output_inputs(nl: Netlist, aig: AIG, c: usize, p: usize, slot: usize, s: usize)
    requires
        is_graph_of(nl, aig),
        p < nl.num_pins(),
        macro_out(nl, p) == Some((c, slot)),
        aig.macros.has(c),
        aig.macros.at(c).kind.spec_comb_fanin(slot).contains(s),
    ensures
        defined(aig.macros.at(c).inputs@[s as int]),
{
    let lits = aig.pin2aigpin_iv@;
    let m = aig.macros.at(c);
    assert(pin_ok(nl, aig.drivers@, lits, p));
    let u = (lits[p as int] / 2) as usize;
    assert(aig.drivers@[u as int] == DriverType::Macro(c, slot));
    if !defined(m.inputs@[s as int]) {
        lemma_live(m.inputs@, m.kind.spec_comb_fanin(slot), s);
        assert(aig.fanin(u).contains((m.inputs@[s as int] / 2) as usize));
    }
}

/// What stands against a graph because of elements does not hold of a netlist
/// that has one.
proof fn lemma_no_element_fault(nl: Netlist, aig: AIG, e: BuildError)
    requires
        nl.wf(),
        is_graph_of(nl, aig),
    ensures
        !element_fault(nl, e),
{
    let lits = aig.pin2aigpin_iv@;
    if element_fault(nl, e) {
        match e {
            BuildError::NoOutput(c) => {
                assert(aig.dffs.has(c));
            },
            BuildError::BadRamPin(p) => {
                let c = choose|c: usize|
                    c < nl.num_cells() && #[trigger] nl.kind(c) == CellKind::Ram && nl.pins(c).contains(p)
                        && is_bad_ram_pin(nl, p);
                assert(aig.srams.has(c));
                let r = aig.srams.at(c);
                assert(ram_ok(nl, aig.drivers@, lits, c, r));
                let wclk = choose|wclk: usize| #[trigger] ram_inputs(nl, aig.drivers@, lits, c, r, wclk);
                let pins = nl.pins(c);
                assert(pins[pins.index_of(p)] == p);
            },
            BuildError::GatedClock(d) => {
                let c = choose|c: usize| #[trigger] goes_into_element(nl, d, c);
                lemma_element_defined(nl, aig, d, c);
                lemma_not_gated(nl, aig, d);
            },
            BuildError::ClockPath(_) | BuildError::ClockLoop(_) | BuildError::ClockCell(_) => {
                let (c, p) = choose|c: usize, p: usize| #[trigger]
                    is_clock_pin(nl, c, p) && clock_fault(nl, p, nl.num_pins()) == Some(e);
                assert(is_clock_pin(nl, c, p));
            },
            _ => {},
        }
    }
}

/// What goes into an element has a literal.
proof fn lemma_element_defined(nl: Netlist, aig: AIG, d: usize, c: usize)
    requires
        nl.wf(),
        is_graph_of(nl, aig),
        goes_into_element(nl, d, c),
    ensures
        d < nl.num_pins(),
        defined(aig.pin2aigpin_iv@[d as int]),
{
    let lits = aig.pin2aigpin_iv@;
    if is_gated_by(nl, c, d) && (nl.kind(c) is Macro ==> super::rules::has_output(nl, c)) {
        let p = choose|p: usize| #[trigger]
            is_clock_pin(nl, c, p) && is_clock_of(nl.kind(c), nl.name(p)) && clock_path(
                nl,
                p,
                false,
                nl.num_pins(),
            ).enables.contains(d);
        let pins = nl.pins(c);
        assert(nl.cell_pins@[c as int]@[pins.index_of(p)] == p);
        if nl.kind(c) is Macro {
            let x = choose|x: usize| #[trigger] is_output_of(nl, x, c);
            assert(pin_ok(nl, aig.drivers@, lits, x));
            assert(macro_out(nl, x) is Some);
        }
        lemma_fine_clock(nl, aig, c, p);
        lemma_enables(nl, p, false, nl.num_pins());
        let enables = clock_path(nl, p, false, nl.num_pins()).enables;
        let i = enables.index_of(d);
        assert(enables[i] == d);
        assert(defined(lits[clock_path(nl, p, false, nl.num_pins()).enables[i] as int]));
    } else {
        match nl.kind(c) {
            CellKind::Dff => {
                lemma_cell_pin(nl, c, "D"@);
                lemma_cell_pin(nl, c, "S"@);
                lemma_cell_pin(nl, c, "R"@);
                assert(aig.dffs.has(c));
                let dff = aig.dffs.at(c);
                assert(dff_ok(nl, aig.drivers@, lits, c, dff));
                let (k, x, en) = choose|k: usize, x: usize, en: usize| #[trigger]
                    dff_inputs(nl, aig.drivers@, lits, c, dff, k, x, en);
                assert(dff_inputs(nl, aig.drivers@, lits, c, dff, k, x, en));
            },
            CellKind::Ram => {
                let b = choose|b: usize| b < 32 && #[trigger] nl.cell_bit(c, "PORT_W_WR_EN"@, b) == Some(d);
                assert(aig.srams.has(c));
                let r = aig.srams.at(c);
                assert(ram_ok(nl, aig.drivers@, lits, c, r));
                let wclk = choose|wclk: usize| #[trigger] ram_inputs(nl, aig.drivers@, lits, c, r, wclk);
                assert(bus_defined(nl, lits, nl.pins(c), "PORT_W_WR_EN"@));
                assert(nl.last_bit(nl.pins(c), "PORT_W_WR_EN"@, b) == Some(d));
                lemma_cell_bit(nl, c, nl.pins(c), "PORT_W_WR_EN"@, b);
            },
            CellKind::Macro(k) => {
                let (p, s) = choose|p: usize, s: usize| #[trigger] feeds_output(nl, c, k, d, p, s);
                let slot = macro_out(nl, p).unwrap().1;
                assert(aig.macros.has(c));
                let m = aig.macros.at(c);
                assert(macro_ok(nl, aig.drivers@, lits, c, m));
                lemma_comb_slots_in_range(m.kind, slot);
                let slots = m.kind.spec_comb_fanin(slot);
                assert(slots[slots.index_of(s)] == s);
                lemma_output_inputs(nl, aig, c, p, slot, s);
                lemma_slot(nl, aig, c, d, s as int);
            },
            _ => {},
        }
    }
}

/// The input slot that a pin feeds has the pin's literal.
proof fn lemma_slot(nl: Netlist, aig: AIG, c: usize, d: usize, s: int)
    requires
        nl.wf(),
        c < nl.num_cells(),
        macro_ok(nl, aig.drivers@, aig.pin2aigpin_iv@, c, aig.macros.at(c)),
        slot_pin(nl, aig.macros.at(c).kind, nl.pins(c), s) == Some(d),
    ensures
        d < nl.num_pins(),
        0 <= s < aig.macros.at(c).inputs@.len() ==> aig.macros.at(c).inputs@[s] == aig.pin2aigpin_iv@[d as int],
{
    assert forall|i: int| 0 <= i < nl.pins(c).len() implies #[trigger] nl.pins(c)[i] < nl.num_pins() by {
        assert(nl.cell_pins@[c as int]@[i] < nl.num_pins());
    }
    super::cells::lemma_slot_pin(nl, aig.macros.at(c).kind, c, nl.pins(c), s);
}

/// The bus pin of a cell is a pin.
proof fn lemma_cell_bit(nl: Netlist, c: usize, pins: Seq<usize>, name: Seq<char>, b: usize)
    requires
        nl.wf(),
        c < nl.num_cells(),
        forall|i: int| 0 <= i < pins.len() ==> nl.pins(c).contains(#[trigger] pins[i]),
    ensures
        nl.last_bit(pins, name, b) matches Some(p) ==> p < nl.num_pins(),
    decreases pins.len(),
{
    if pins.len() > 0 {
        assert(pins[pins.len() - 1] == pins.last());
        let x = nl.pins(c).index_of(pins.last());
        assert(nl.cell_pins@[c as int]@[x] == pins.last());
        let before = pins.drop_last();
        assert forall|i: int| 0 <= i < before.len() implies nl.pins(c).contains(#[trigger] before[i]) by {
            assert(before[i] == pins[i]);
        }
        lemma_cell_bit(nl, c, before, name, b);
    }
}

/// A netlist that has a graph has no fault: construction fails if and only if
/// there is one, or if the graph would be too large.
pub proof fn law_graph_has_no_fault(nl: Netlist, aig: AIG, e: BuildError)
    requires
        nl.wf(),
        is_graph_of(nl, aig),
        !(e is TooLarge),
    ensures
        !build_fault(nl, e),
{
    lemma_no_pin_fault(nl, aig, e);
    lemma_no_element_fault(nl, aig, e);
    if let BuildError::UnmangledDsp(c) = e {
        if c < nl.num_cells() {
            assert(nl.kind(c) != CellKind::BareDsp);
        }
    }
}

} // verus!
