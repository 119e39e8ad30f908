//! Connecting flip-flops, SRAMs and macros.

use super::cells::{feeds_slot, slot_pin, BuildError, CellKind};
use super::clocks::{
    clock_lit, clock_path, conjoined, flag_lit, lemma_clock_fault, lemma_gates_after_gates, lemma_more_gates,
    with_clock,
};
use super::draft::{is_wired, with_gate};
use super::elements::{
    bus_defined, bus_ok, clock_fine, clock_or, clocks_fine, dff_inputs, dff_ok, element_fault, goes_into_element,
    is_bad_ram_pin, is_clock_of, is_clock_pin, is_gated_by, lemma_clock_or_kept, lits_known, macro_ok, ram_inputs,
    ram_ok,
};
use super::rules::{has_output, is_blank, is_gated, lit_or, or_not_lit};
use crate::aig::{and_lit, defined, invert, spec_invert, DriverType, RAMBlock, AIG, DFF, MAX_AIGPINS};
use crate::macros::{default_inputs, MacroInst, MacroKind};
use crate::netlist::Netlist;
use vstd::prelude::*;

verus! {

/// Has the graph grown by gates and clock flags only, by no more than `n` pins?
pub open spec fn grown(nl: Netlist, a0: AIG, a1: AIG, n: int) -> bool {
    &&& a1.pins_wf(nl)
    &&& a1.pin2aigpin_iv@ == a0.pin2aigpin_iv@
    &&& a1.primary_outputs == a0.primary_outputs
    &&& a1.adds_only_gates(a0)
    &&& a1.num_aigpins <= a0.num_aigpins + n
}

/// Can the inputs of a cell be connected?
pub open spec fn connectable(nl: Netlist, a: AIG, c: usize) -> bool {
    &&& nl.wf()
    &&& c < nl.num_cells()
    &&& a.pins_wf(nl)
    &&& lits_known(nl, a.pin2aigpin_iv@)
}

/// Why was the cell not connected?
pub open spec fn connect_error(nl: Netlist, a: AIG, c: usize, e: BuildError) -> bool {
    if e is TooLarge {
        a.num_aigpins + nl.pins(c).len() * nl.num_pins() + 32 > MAX_AIGPINS
    } else {
        element_fault(nl, e)
    }
}

pub(super) proof fn lemma_step(i: int, n: int, m: int)
    requires
        0 <= i < m,
        0 <= n,
    ensures
        (i + 1) * n == i * n + n,
        (i + 1) * n <= m * n,
        0 <= i * n,
{
    assert((i + 1) * n == i * n + n) by (nonlinear_arith);
    assert((i + 1) * n <= m * n) by (nonlinear_arith)
        requires
            i + 1 <= m,
            0 <= n,
    ;
    assert(0 <= i * n) by (nonlinear_arith)
        requires
            0 <= i,
            0 <= n,
    ;
}

/// The literals of the input pins of a flip-flop.
#[derive(Debug, Clone, Copy)]
pub struct DffPins {
    pub d: usize,
    pub s: usize,
    pub r: usize,
    pub clk: usize,
}

impl DffPins {
    /// Are these the literals of the input pins of a cell?
    #[verifier::opaque]
    pub open spec fn of_cell(self, nl: Netlist, drivers: Seq<DriverType>, lits: Seq<usize>, c: usize) -> bool {
        &&& self.d == lit_or(lits, nl.cell_pin(c, "D"@), 0)
        &&& self.s == lit_or(lits, nl.cell_pin(c, "S"@), 1)
        &&& self.r == lit_or(lits, nl.cell_pin(c, "R"@), 1)
        &&& clock_or(nl, drivers, lits, nl.cell_pin(c, "CLK"@), 0, self.clk)
        &&& clocks_fine(nl, lits, CellKind::Dff, nl.pins(c))
    }
}

/// The graph is sound. This hides what that means where nothing depends on it.
#[verifier::opaque]
pub open spec fn sound(nl: Netlist, a: AIG) -> bool {
    a.pins_wf(nl)
}

/// Only gates were added, no more than `n`.
#[verifier::opaque]
pub open spec fn only_gates(nl: Netlist, a0: AIG, a1: AIG, n: int) -> bool {
    &&& a1.adds_only_gates(a0)
    &&& a1.same_but_clocks(a0)
    &&& a0.num_aigpins <= a1.num_aigpins <= a0.num_aigpins + n
}

pub(super) proof fn lemma_gates_join(nl: Netlist, a0: AIG, a1: AIG, a2: AIG, m: int, n: int)
    requires
        a0 == a1 || only_gates(nl, a0, a1, m),
        only_gates(nl, a1, a2, n),
        0 <= m,
    ensures
        only_gates(nl, a0, a2, m + n),
        a1.drivers@.is_prefix_of(a2.drivers@),
        a0.drivers@.is_prefix_of(a2.drivers@),
        a2.pin2aigpin_iv@ == a0.pin2aigpin_iv@,
        a1.num_aigpins <= a2.num_aigpins <= a0.num_aigpins + m + n,
{
    reveal(only_gates);
    if a0 != a1 {
        lemma_gates_after_gates(a0, a1, a2);
    }
}

/// Is `o` the literal of the conjunction, or of "`a`, or not `b`"?
#[verifier::opaque]
pub open spec fn gate_is(drivers: Seq<DriverType>, or_not: bool, a: usize, b: usize, o: usize) -> bool {
    if or_not {
        or_not_lit(drivers, a, b, o)
    } else {
        and_lit(drivers, a, b, o)
    }
}

/// More pins do not change literals.
pub(super) proof fn lemma_gate_kept(d0: Seq<DriverType>, d1: Seq<DriverType>, or_not: bool, a: usize, b: usize,
    o: usize)
    requires
        d0.is_prefix_of(d1),
        gate_is(d0, or_not, a, b, o),
    ensures
        gate_is(d1, or_not, a, b, o),
{
    reveal(gate_is);
}

/// Are these the data and the enable of a flip-flop, whatever its output?
#[verifier::opaque]
pub open spec fn gates_dff(
    nl: Netlist,
    drivers: Seq<DriverType>,
    lits: Seq<usize>,
    c: usize,
    d_iv: usize,
    en_iv: usize,
) -> bool {
    forall|q: usize| #[trigger] dff_ok(nl, drivers, lits, c, DFF { d_iv, en_iv, q })
}

/// The drivers with the four gates of the data and the enable of a flip-flop.
#[verifier::opaque]
pub open spec fn gated_dff(drivers: Seq<DriverType>, v: DffPins) -> Seq<DriverType> {
    let (d1, x) = with_gate(drivers, true, v.d, v.s);
    let (d2, en) = with_gate(d1, true, v.clk, v.s);
    let (d3, _) = with_gate(d2, false, x, v.r);
    with_gate(d3, true, en, v.r).0
}

/// Four gates make the data and the enable of a flip-flop.
proof fn lemma_dff_gated(
    nl: Netlist,
    c: usize,
    v: DffPins,
    lits: Seq<usize>,
    a1: Seq<DriverType>,
    a2: Seq<DriverType>,
    a3: Seq<DriverType>,
    a4: Seq<DriverType>,
    a5: Seq<DriverType>,
    d: usize,
    en: usize,
    d_iv: usize,
    en_iv: usize,
)
    requires
        v.of_cell(nl, a1, lits, c),
        defined(v.d) && defined(v.s) && defined(v.r),
        a1.is_prefix_of(a5),
        a2.is_prefix_of(a5),
        a3.is_prefix_of(a5),
        a4.is_prefix_of(a5),
        gate_is(a2, true, v.d, v.s, d),
        gate_is(a3, true, v.clk, v.s, en),
        gate_is(a4, false, d, v.r, d_iv),
        gate_is(a5, true, en, v.r, en_iv),
        d_iv / 2 < a5.len(),
        en_iv / 2 < a5.len(),
    ensures
        gates_dff(nl, a5, lits, c, d_iv, en_iv),
{
    reveal(DffPins::of_cell);
    lemma_clock_or_kept(nl, a1, a5, lits, nl.cell_pin(c, "CLK"@), 0, v.clk);
    lemma_gate_kept(a2, a5, true, v.d, v.s, d);
    lemma_gate_kept(a3, a5, true, v.clk, v.s, en);
    lemma_gate_kept(a4, a5, false, d, v.r, d_iv);
    reveal(gate_is);
    reveal(gates_dff);
    assert forall|q: usize| #[trigger] dff_ok(nl, a5, lits, c, DFF { d_iv, en_iv, q }) by {
        assert(dff_inputs(nl, a5, lits, c, DFF { d_iv, en_iv, q }, v.clk, d, en));
    }
}

/// The bit of a bus pin, if it is below the width.
fn bus_bit(nl: &Netlist, p: usize, width: usize) -> (r: Option<usize>)
    requires
        nl.wf(),
        p < nl.num_pins(),
    ensures
        r is Some <==> nl.bit(p) is Some && nl.bit(p).unwrap() < width,
        r matches Some(b) ==> nl.bit(p) == Some(b) && b < width,
{
    match nl.bit_of(p) {
        Some(b) => if b < width {
            Some(b)
        } else {
            None
        },
        None => None,
    }
}

/// Does the SRAM have the literals of some pins, write enables without the
/// clock?
pub open spec fn scanned_ram(
    nl: Netlist,
    drivers: Seq<DriverType>,
    lits: Seq<usize>,
    pins: Seq<usize>,
    r: RAMBlock,
    wclk: usize,
) -> bool {
    &&& forall|i: int| 0 <= i < pins.len() ==> !is_bad_ram_pin(nl, #[trigger] pins[i])
    &&& clocks_fine(nl, lits, CellKind::Ram, pins)
    &&& bus_ok(nl, lits, pins, "PORT_R_ADDR"@, r.port_r_addr_iv@)
    &&& bus_ok(nl, lits, pins, "PORT_W_ADDR"@, r.port_w_addr_iv@)
    &&& bus_ok(nl, lits, pins, "PORT_W_WR_DATA"@, r.port_w_wr_data_iv@)
    &&& bus_ok(nl, lits, pins, "PORT_W_WR_EN"@, r.port_w_wr_en_iv@)
    &&& clock_or(nl, drivers, lits, nl.last_named(pins, "PORT_R_CLK"@), 0, r.port_r_en_iv)
    &&& clock_or(nl, drivers, lits, nl.last_named(pins, "PORT_W_CLK"@), 0, wclk)
}

/// Is bit `k` of the write enables gated with the write clock?
spec fn bit_gated(drivers: Seq<DriverType>, en: Seq<usize>, wclk: usize, out: Seq<usize>, k: int) -> bool {
    &&& defined(en[k])
    &&& and_lit(drivers, en[k], wclk, out[k])
    &&& out[k] / 2 < drivers.len()
}

/// The names of an SRAM's pins are different.
proof fn lemma_names()
    ensures
        "PORT_R_ADDR"@ != "PORT_W_ADDR"@,
        "PORT_R_ADDR"@ != "PORT_W_WR_DATA"@,
        "PORT_R_ADDR"@ != "PORT_W_WR_EN"@,
        "PORT_R_ADDR"@ != "PORT_R_CLK"@,
        "PORT_R_ADDR"@ != "PORT_W_CLK"@,
        "PORT_W_ADDR"@ != "PORT_W_WR_DATA"@,
        "PORT_W_ADDR"@ != "PORT_W_WR_EN"@,
        "PORT_W_ADDR"@ != "PORT_R_CLK"@,
        "PORT_W_ADDR"@ != "PORT_W_CLK"@,
        "PORT_W_WR_DATA"@ != "PORT_W_WR_EN"@,
        "PORT_W_WR_DATA"@ != "PORT_R_CLK"@,
        "PORT_W_WR_DATA"@ != "PORT_W_CLK"@,
        "PORT_W_WR_EN"@ != "PORT_R_CLK"@,
        "PORT_W_WR_EN"@ != "PORT_W_CLK"@,
        "PORT_R_CLK"@ != "PORT_W_CLK"@,
{
    reveal_strlit("PORT_R_ADDR");
    reveal_strlit("PORT_W_ADDR");
    reveal_strlit("PORT_W_WR_DATA");
    reveal_strlit("PORT_W_WR_EN");
    reveal_strlit("PORT_R_CLK");
    reveal_strlit("PORT_W_CLK");
    assert("PORT_R_ADDR"@[5] == 'R' && "PORT_W_ADDR"@[5] == 'W');
    assert("PORT_R_CLK"@[5] == 'R' && "PORT_W_CLK"@[5] == 'W');
    assert("PORT_R_ADDR"@.len() == 11);
    assert("PORT_W_ADDR"@.len() == 11);
    assert("PORT_W_WR_DATA"@.len() == 14);
    assert("PORT_W_WR_EN"@.len() == 12);
    assert("PORT_R_CLK"@.len() == 10);
    assert("PORT_W_CLK"@.len() == 10);
}

/// One more pin of a bus.
proof fn lemma_bus_step(
    nl: Netlist,
    lits: Seq<usize>,
    pins: Seq<usize>,
    i: int,
    name: Seq<char>,
    v0: Seq<usize>,
    v1: Seq<usize>,
)
    requires
        0 <= i < pins.len(),
        v0.len() <= 32,
        bus_ok(nl, lits, pins.take(i), name, v0),
        nl.name(pins[i]) != name ==> v1 == v0,
        nl.name(pins[i]) == name ==> nl.bit(pins[i]) is Some && nl.bit(pins[i]).unwrap() < v0.len() && v1
            == v0.update(nl.bit(pins[i]).unwrap() as int, lits[pins[i] as int]),
    ensures
        bus_ok(nl, lits, pins.take(i + 1), name, v1),
{
    let t = pins.take(i + 1);
    assert(t.drop_last() =~= pins.take(i));
    assert(t.last() == pins[i]);
    assert forall|b: int| 0 <= b < v1.len() implies #[trigger] v1[b] == lit_or(
        lits,
        nl.last_bit(t, name, b as usize),
        0,
    ) by {
        assert(v0[b] == lit_or(lits, nl.last_bit(pins.take(i), name, b as usize), 0));
    }
}

/// One more pin whose clock path is fine, if it is a clock pin.
proof fn lemma_fine_step(nl: Netlist, lits: Seq<usize>, kind: CellKind, pins: Seq<usize>, i: int)
    requires
        0 <= i < pins.len(),
        clocks_fine(nl, lits, kind, pins.take(i)),
        is_clock_of(kind, nl.name(pins[i])) ==> clock_fine(nl, lits, pins[i]),
    ensures
        clocks_fine(nl, lits, kind, pins.take(i + 1)),
{
    let t = pins.take(i + 1);
    assert forall|k: int| 0 <= k < t.len() && is_clock_of(kind, nl.name(#[trigger] t[k])) implies clock_fine(
        nl,
        lits,
        t[k],
    ) by {
        if k < i {
            assert(t[k] == pins.take(i)[k]);
        }
    }
}

/// One more pin of an SRAM.
proof fn lemma_ram_step(
    nl: Netlist,
    d0: Seq<DriverType>,
    d1: Seq<DriverType>,
    lits: Seq<usize>,
    pins: Seq<usize>,
    i: int,
    r0: RAMBlock,
    r1: RAMBlock,
    w0: usize,
    w1: usize,
)
    requires
        0 <= i < pins.len(),
        d0.is_prefix_of(d1),
        scanned_ram(nl, d0, lits, pins.take(i), r0, w0),
        !is_bad_ram_pin(nl, pins[i]),
        is_clock_of(CellKind::Ram, nl.name(pins[i])) ==> clock_fine(nl, lits, pins[i]),
        ({
            let p = pins[i];
            let iv = lits[p as int];
            let name = nl.name(p);
            let b = nl.bit(p).unwrap() as int;
            &&& r1.port_r_addr_iv@ == if name == "PORT_R_ADDR"@ {
                r0.port_r_addr_iv@.update(b, iv)
            } else {
                r0.port_r_addr_iv@
            }
            &&& r1.port_w_addr_iv@ == if name == "PORT_W_ADDR"@ {
                r0.port_w_addr_iv@.update(b, iv)
            } else {
                r0.port_w_addr_iv@
            }
            &&& r1.port_w_wr_data_iv@ == if name == "PORT_W_WR_DATA"@ {
                r0.port_w_wr_data_iv@.update(b, iv)
            } else {
                r0.port_w_wr_data_iv@
            }
            &&& r1.port_w_wr_en_iv@ == if name == "PORT_W_WR_EN"@ {
                r0.port_w_wr_en_iv@.update(b, iv)
            } else {
                r0.port_w_wr_en_iv@
            }
            &&& if name == "PORT_R_CLK"@ {
                clock_or(nl, d1, lits, Some(p), 0, r1.port_r_en_iv)
            } else {
                r1.port_r_en_iv == r0.port_r_en_iv
            }
            &&& if name == "PORT_W_CLK"@ {
                clock_or(nl, d1, lits, Some(p), 0, w1)
            } else {
                w1 == w0
            }
        }),
    ensures
        scanned_ram(nl, d1, lits, pins.take(i + 1), r1, w1),
{
    let t = pins.take(i + 1);
    assert(t.drop_last() =~= pins.take(i));
    assert(t.last() == pins[i]);
    lemma_fine_step(nl, lits, CellKind::Ram, pins, i);
    lemma_bus_step(nl, lits, pins, i, "PORT_R_ADDR"@, r0.port_r_addr_iv@, r1.port_r_addr_iv@);
    lemma_bus_step(nl, lits, pins, i, "PORT_W_ADDR"@, r0.port_w_addr_iv@, r1.port_w_addr_iv@);
    lemma_bus_step(nl, lits, pins, i, "PORT_W_WR_DATA"@, r0.port_w_wr_data_iv@, r1.port_w_wr_data_iv@);
    lemma_bus_step(nl, lits, pins, i, "PORT_W_WR_EN"@, r0.port_w_wr_en_iv@, r1.port_w_wr_en_iv@);
    lemma_clock_or_kept(nl, d0, d1, lits, nl.last_named(pins.take(i), "PORT_R_CLK"@), 0, r0.port_r_en_iv);
    lemma_clock_or_kept(nl, d0, d1, lits, nl.last_named(pins.take(i), "PORT_W_CLK"@), 0, w0);
    assert forall|k: int| 0 <= k < t.len() implies !is_bad_ram_pin(nl, #[trigger] t[k]) by {
        if k < i {
            assert(t[k] == pins.take(i)[k]);
        }
    }
}

impl AIG {
    /// Traces a clock pin of a cell.
    fn trace_cell_clock(&mut self, nl: &Netlist, c: usize, i: usize) -> (r: Result<usize, BuildError>)
        requires
            connectable(*nl, *old(self), c),
            i < nl.pins(c).len(),
            is_clock_of(nl.kind(c), nl.name(nl.pins(c)[i as int])),
            c == 0 ==> nl.kind(c) == CellKind::Ram,
            nl.kind(c) is Macro ==> has_output(*nl, c),
        ensures
            grown(*nl, *old(self), *final(self), nl.num_pins() as int),
            final(self).same_but_clocks(*old(self)),
            r matches Ok(o) ==> o / 2 <= final(self).num_aigpins && clock_lit(
                final(self).drivers@,
                final(self).pin2aigpin_iv@,
                false,
                clock_path(*nl, nl.pins(c)[i as int], false, nl.num_pins()),
                o,
            ),
            r is Ok ==> clock_fine(*nl, old(self).pin2aigpin_iv@, nl.pins(c)[i as int]),
            r matches Ok(o) ==> (final(self).drivers@, o) == with_clock(
                *nl,
                old(self).drivers@,
                old(self).pin2aigpin_iv@,
                nl.pins(c)[i as int],
                false,
                false,
                nl.num_pins(),
            ),
            r matches Err(e) ==> if e is TooLarge {
                old(self).num_aigpins + nl.num_pins() > MAX_AIGPINS
            } else {
                element_fault(*nl, e)
            },
    {
        let p = nl.cell_pins[c][i];
        assert(nl.cell_pins@[c as int]@[i as int] < nl.num_pins());
        assert(nl.pins(c).contains(p));
        assert(is_clock_pin(*nl, c, p));
        let n = nl.pin2cell.len();
        let r = self.trace_clock_pin(nl, p, false, false, n);
        proof {
            lemma_clock_fault(*nl, p, n as nat);
            if let Ok(o) = r {
                let path = clock_path(*nl, p, false, n as nat);
                let w = choose|w: Seq<usize>| #[trigger]
                    conjoined(self.drivers@, self.pin2aigpin_iv@, path.enables, w) && flag_lit(
                        self.drivers@,
                        path.source,
                        w[0],
                    ) && o == w.last();
                assert(conjoined(self.drivers@, self.pin2aigpin_iv@, path.enables, w));
            }
            if let Err(e) = r {
                if let BuildError::GatedClock(q) = e {
                    assert(is_clock_pin(*nl, c, p) && is_clock_of(nl.kind(c), nl.name(p)));
                    assert(is_gated_by(*nl, c, q));
                    assert(goes_into_element(*nl, q, c));
                }
            }
        }
        r
    }

    /// The literals of the input pins of a flip-flop.
    fn scan_dff(&mut self, nl: &Netlist, c: usize) -> (r: Result<DffPins, BuildError>)
        requires
            connectable(*nl, *old(self), c),
            nl.kind(c) == CellKind::Dff,
            c != 0,
        ensures
            r is Ok ==> grown(*nl, *old(self), *final(self), (nl.pins(c).len() * nl.num_pins()) as int),
            r is Ok ==> final(self).same_but_clocks(*old(self)),
            r matches Ok(d) ==> d.of_cell(*nl, final(self).drivers@, final(self).pin2aigpin_iv@, c) && d.clk / 2
                <= final(self).num_aigpins,
            r matches Ok(d) ==> (final(self).drivers@, d.clk) == nl.scanned(
                old(self).drivers@,
                old(self).pin2aigpin_iv@,
                CellKind::Dff,
                nl.pins(c),
                "CLK"@,
            ),
            r matches Err(e) ==> connect_error(*nl, *old(self), c, e),
    {
        let ghost a0 = *self;
        let ghost lits = self.pin2aigpin_iv@;
        let ghost np = nl.num_pins() as int;
        let mut s: usize = 1;
        let mut r: usize = 1;
        let mut d: usize = 0;
        let mut clk: usize = 0;
        let n = nl.cell_pins[c].len();
        let mut i: usize = 0;
        assert(0 * np == 0) by (nonlinear_arith);
        while i < n
            invariant
                connectable(*nl, a0, c),
                nl.kind(c) == CellKind::Dff,
                c != 0,
                a0 == *old(self),
                lits == a0.pin2aigpin_iv@,
                np == nl.num_pins(),
                n == nl.pins(c).len(),
                i <= n,
                grown(*nl, a0, *self, i * np),
                self.same_but_clocks(a0),
                d == lit_or(lits, nl.last_named(nl.pins(c).take(i as int), "D"@), 0),
                s == lit_or(lits, nl.last_named(nl.pins(c).take(i as int), "S"@), 1),
                r == lit_or(lits, nl.last_named(nl.pins(c).take(i as int), "R"@), 1),
                clock_or(*nl, self.drivers@, lits, nl.last_named(nl.pins(c).take(i as int), "CLK"@), 0, clk),
                clk / 2 <= self.num_aigpins,
                clocks_fine(*nl, lits, CellKind::Dff, nl.pins(c).take(i as int)),
                (self.drivers@, clk) == nl.scanned(
                    a0.drivers@,
                    lits,
                    CellKind::Dff,
                    nl.pins(c).take(i as int),
                    "CLK"@,
                ),
            decreases n - i,
        {
            let ghost a1 = *self;
            let p = nl.cell_pins[c][i];
            proof {
                assert(nl.cell_pins@[c as int]@[i as int] < nl.num_pins());
                assert(nl.pins(c).take(i + 1).drop_last() =~= nl.pins(c).take(i as int));
                assert(nl.pins(c).take(i + 1).last() == p);
                lemma_step(i as int, np, n as int);
            }
            if nl.is_named(p, "D") {
                d = self.pin2aigpin_iv[p];
            }
            if nl.is_named(p, "S") {
                s = self.pin2aigpin_iv[p];
            }
            if nl.is_named(p, "R") {
                r = self.pin2aigpin_iv[p];
            }
            if nl.is_named(p, "CLK") {
                clk = match self.trace_cell_clock(nl, c, i) {
                    Err(e) => {
                        return Err(e);
                    },
                    Ok(o) => o,
                };
                proof {
                    lemma_gates_after_gates(a0, a1, *self);
                }
            }
            proof {
                lemma_fine_step(*nl, lits, CellKind::Dff, nl.pins(c), i as int);
            }
            i += 1;
        }
        assert(nl.pins(c).take(n as int) =~= nl.pins(c));
        proof {
            reveal(DffPins::of_cell);
        }
        Ok(DffPins { d, s, r, clk })
    }

    /// The conjunction of two literals, or "`a`, or not `b`". There is `None`
    /// when literals run out.
    pub(super) fn gate(&mut self, nl: &Netlist, or_not: bool, a: usize, b: usize) -> (r: Option<usize>)
        requires
            sound(*nl, *old(self)),
            a / 2 <= old(self).num_aigpins,
            b / 2 <= old(self).num_aigpins,
        ensures
            r is Some ==> sound(*nl, *final(self)) && only_gates(*nl, *old(self), *final(self), 1),
            r is None ==> old(self).num_aigpins + 1 > MAX_AIGPINS,
            r matches Some(o) ==> gate_is(final(self).drivers@, or_not, a, b, o) && o / 2 <= final(self).num_aigpins,
            r matches Some(o) ==> (final(self).drivers@, o) == with_gate(old(self).drivers@, or_not, a, b),
    {
        let ghost a0 = *self;
        proof {
            reveal(sound);
            reveal(gate_is);
        }
        let a_in: usize = if or_not {
            invert(a)
        } else {
            a
        };
        let o = match self.add_and_gate(a_in, b) {
            None => {
                return None;
            },
            Some(o) => o,
        };
        proof {
            lemma_more_gates(a0, *self, *nl);
            reveal(only_gates);
            assert(spec_invert(spec_invert(o)) == o);
        }
        if or_not {
            Some(invert(o))
        } else {
            Some(o)
        }
    }

    /// The data and the enable of a flip-flop with the given inputs. There is
    /// `None` when literals run out.
    fn gate_dff(&mut self, nl: &Netlist, c: usize, v: DffPins) -> (r: Option<(usize, usize)>)
        requires
            sound(*nl, *old(self)),
            v.of_cell(*nl, old(self).drivers@, old(self).pin2aigpin_iv@, c),
            defined(v.d) && defined(v.s) && defined(v.r),
            v.d / 2 <= old(self).num_aigpins,
            v.s / 2 <= old(self).num_aigpins,
            v.r / 2 <= old(self).num_aigpins,
            v.clk / 2 <= old(self).num_aigpins,
        ensures
            r is Some ==> sound(*nl, *final(self)) && only_gates(*nl, *old(self), *final(self), 4),
            r is None ==> old(self).num_aigpins + 4 > MAX_AIGPINS,
            r matches Some(x) ==> gates_dff(*nl, final(self).drivers@, final(self).pin2aigpin_iv@, c, x.0, x.1),
            r is Some ==> final(self).drivers@ == gated_dff(old(self).drivers@, v),
    {
        let ghost a1 = *self;
        let ghost lits = self.pin2aigpin_iv@;
        let d1 = match self.gate(nl, true, v.d, v.s) {
            None => {
                return None;
            },
            Some(x) => x,
        };
        let ghost a2 = *self;
        proof {
            lemma_gates_join(*nl, a1, a1, a2, 0, 1);
        }
        let en1 = match self.gate(nl, true, v.clk, v.s) {
            None => {
                return None;
            },
            Some(x) => x,
        };
        let ghost a3 = *self;
        proof {
            lemma_gates_join(*nl, a1, a2, a3, 1, 1);
        }
        let d_iv = match self.gate(nl, false, d1, v.r) {
            None => {
                return None;
            },
            Some(x) => x,
        };
        let ghost a4 = *self;
        proof {
            lemma_gates_join(*nl, a1, a3, a4, 2, 1);
        }
        let en_iv = match self.gate(nl, true, en1, v.r) {
            None => {
                return None;
            },
            Some(x) => x,
        };
        proof {
            let a5 = *self;
            lemma_gates_join(*nl, a1, a4, a5, 3, 1);
            lemma_gates_join(*nl, a3, a4, a5, 1, 1);
            lemma_gates_join(*nl, a2, a3, a5, 1, 2);
            assert(a5.drivers@.len() == a5.num_aigpins + 1) by {
                reveal(sound);
            }
            assert(a5.drivers@ == gated_dff(a1.drivers@, v)) by {
                reveal(gated_dff);
            }
            lemma_dff_gated(
                *nl,
                c,
                v,
                lits,
                a1.drivers@,
                a2.drivers@,
                a3.drivers@,
                a4.drivers@,
                a5.drivers@,
                d1,
                en1,
                d_iv,
                en_iv,
            );
        }
        Some((d_iv, en_iv))
    }

    /// Connects the inputs of a flip-flop.
    pub(crate) fn connect_dff(&mut self, nl: &Netlist, c: usize) -> (r: Result<(), BuildError>)
        requires
            connectable(*nl, *old(self), c),
            nl.kind(c) == CellKind::Dff,
            c != 0,
            old(self).dffs.wf(),
            old(self).dffs.has(c),
        ensures
            r is Ok ==> grown(
                *nl,
                *old(self),
                *final(self),
                (nl.pins(c).len() * nl.num_pins() + 32) as int,
            ),
            r is Ok ==> final(self).srams == old(self).srams && final(self).macros == old(self).macros,
            r is Ok ==> final(self).dffs.wf() && final(self).dffs.at(c).q == old(self).dffs.at(c).q,
            r is Ok ==> forall|j: usize| #[trigger] final(self).dffs.has(j) <==> old(self).dffs.has(j),
            r is Ok ==> forall|j: usize|
                j != c && old(self).dffs.has(j) ==> #[trigger] final(self).dffs.at(j) == old(self).dffs.at(j),
            r is Ok ==> dff_ok(
                *nl,
                final(self).drivers@,
                final(self).pin2aigpin_iv@,
                c,
                final(self).dffs.at(c),
            ),
            r is Ok ==> is_wired(*nl, *old(self), *final(self), c),
            r matches Err(e) ==> connect_error(*nl, *old(self), c, e),
    {
        let ghost a0 = *self;
        let ghost lits = self.pin2aigpin_iv@;
        let v = match self.scan_dff(nl, c) {
            Err(e) => {
                return Err(e);
            },
            Ok(v) => v,
        };
        let ghost a1 = *self;
        proof {
            reveal(sound);
            reveal(DffPins::of_cell);
        }
        if let Some(d) = nl.find_pin(c, "D") {
            assert(v.d == lits[d as int]);
            if v.d / 2 == usize::MAX / 2 {
                assert(is_gated(*nl, d));
                assert(goes_into_element(*nl, d, c));
                return Err(BuildError::GatedClock(d));
            }
        }
        if let Some(d) = nl.find_pin(c, "S") {
            assert(v.s == lits[d as int]);
            if v.s / 2 == usize::MAX / 2 {
                assert(is_gated(*nl, d));
                assert(goes_into_element(*nl, d, c));
                return Err(BuildError::GatedClock(d));
            }
        }
        if let Some(d) = nl.find_pin(c, "R") {
            assert(v.r == lits[d as int]);
            if v.r / 2 == usize::MAX / 2 {
                assert(is_gated(*nl, d));
                assert(goes_into_element(*nl, d, c));
                return Err(BuildError::GatedClock(d));
            }
        }
        assert(a1.pin2aigpin_iv@ == lits);
        let (d_iv, en_iv): (usize, usize) = match self.gate_dff(nl, c, v) {
            None => {
                return Err(BuildError::TooLarge);
            },
            Some(x) => x,
        };
        let ghost a2 = *self;
        assert(a2.dffs == a0.dffs) by {
            reveal(only_gates);
        }
        let q: usize = match self.dffs.get(c) {
            Some(d) => d.q,
            None => 0,
        };
        let dff = DFF { d_iv, en_iv, q };
        let _ = self.dffs.insert(c, dff);
        proof {
            reveal(sound);
            reveal(only_gates);
            reveal(gates_dff);
            lemma_gates_after_gates(a0, a1, a2);
            super::values::lemma_pins_same(*nl, a2, *self);
            assert(dff_ok(*nl, a2.drivers@, a2.pin2aigpin_iv@, c, dff));
            assert(a2.drivers@ == nl.wired(a0.drivers@, lits, a0.macros.keys(), c)) by {
                reveal(gated_dff);
            }
        }
        Ok(())
    }

    /// The SRAM with the literals of its input pins, write enables without the
    /// clock, and the literal of its write clock.
    fn scan_ram(&mut self, nl: &Netlist, c: usize, ram: RAMBlock) -> (r: Result<(RAMBlock, usize), BuildError>)
        requires
            connectable(*nl, *old(self), c),
            nl.kind(c) == CellKind::Ram,
            is_blank(ram),
        ensures
            r is Ok ==> grown(*nl, *old(self), *final(self), (nl.pins(c).len() * nl.num_pins()) as int),
            r is Ok ==> final(self).same_but_clocks(*old(self)),
            r matches Ok(x) ==> scanned_ram(
                *nl,
                final(self).drivers@,
                final(self).pin2aigpin_iv@,
                nl.pins(c),
                x.0,
                x.1,
            ) && x.0.port_r_rd_data == ram.port_r_rd_data && x.0.port_r_en_iv / 2 <= final(self).num_aigpins && x.1 / 2
                <= final(self).num_aigpins,
            r matches Ok(x) ==> (final(self).drivers@, x.1) == nl.scanned(
                old(self).drivers@,
                old(self).pin2aigpin_iv@,
                CellKind::Ram,
                nl.pins(c),
                "PORT_W_CLK"@,
            ),
            r matches Err(e) ==> connect_error(*nl, *old(self), c, e),
    {
        let ghost a0 = *self;
        let ghost lits = self.pin2aigpin_iv@;
        let ghost np = nl.num_pins() as int;
        let ghost pins = nl.pins(c);
        let mut sram = ram;
        let mut wclk: usize = 0;
        let n = nl.cell_pins[c].len();
        let mut i: usize = 0;
        assert(0 * np == 0) by (nonlinear_arith);
        while i < n
            invariant
                connectable(*nl, a0, c),
                nl.kind(c) == CellKind::Ram,
                a0 == *old(self),
                lits == a0.pin2aigpin_iv@,
                np == nl.num_pins(),
                pins == nl.pins(c),
                n == pins.len(),
                i <= n,
                grown(*nl, a0, *self, i * np),
                self.same_but_clocks(a0),
                scanned_ram(*nl, self.drivers@, lits, pins.take(i as int), sram, wclk),
                sram.port_r_rd_data == ram.port_r_rd_data,
                sram.port_r_en_iv / 2 <= self.num_aigpins,
                wclk / 2 <= self.num_aigpins,
                (self.drivers@, wclk) == nl.scanned(
                    a0.drivers@,
                    lits,
                    CellKind::Ram,
                    pins.take(i as int),
                    "PORT_W_CLK"@,
                ),
            decreases n - i,
        {
            let ghost a1 = *self;
            let ghost r0 = sram;
            let ghost w0 = wclk;
            let p = nl.cell_pins[c][i];
            proof {
                assert(nl.cell_pins@[c as int]@[i as int] < nl.num_pins());
                assert(pins.take(i + 1).drop_last() =~= pins.take(i as int));
                assert(pins.take(i + 1).last() == p);
                assert(pins.contains(p));
                lemma_step(i as int, np, n as int);
                lemma_names();
            }
            let iv = self.pin2aigpin_iv[p];
            if nl.is_named(p, "PORT_R_ADDR") {
                match bus_bit(nl, p, 13) {
                    None => {
                        assert(element_fault(*nl, BuildError::BadRamPin(p)));
                        return Err(BuildError::BadRamPin(p));
                    },
                    Some(b) => {
                        sram.port_r_addr_iv[b] = iv;
                    },
                }
            } else if nl.is_named(p, "PORT_W_ADDR") {
                match bus_bit(nl, p, 13) {
                    None => {
                        assert(element_fault(*nl, BuildError::BadRamPin(p)));
                        return Err(BuildError::BadRamPin(p));
                    },
                    Some(b) => {
                        sram.port_w_addr_iv[b] = iv;
                    },
                }
            } else if nl.is_named(p, "PORT_W_WR_DATA") {
                match bus_bit(nl, p, 32) {
                    None => {
                        assert(element_fault(*nl, BuildError::BadRamPin(p)));
                        return Err(BuildError::BadRamPin(p));
                    },
                    Some(b) => {
                        sram.port_w_wr_data_iv[b] = iv;
                    },
                }
            } else if nl.is_named(p, "PORT_W_WR_EN") {
                match bus_bit(nl, p, 32) {
                    None => {
                        assert(element_fault(*nl, BuildError::BadRamPin(p)));
                        return Err(BuildError::BadRamPin(p));
                    },
                    Some(b) => {
                        sram.port_w_wr_en_iv[b] = iv;
                    },
                }
            } else if nl.is_named(p, "PORT_R_CLK") {
                sram.port_r_en_iv = match self.trace_cell_clock(nl, c, i) {
                    Err(e) => {
                        return Err(e);
                    },
                    Ok(o) => o,
                };
                proof {
                    lemma_gates_after_gates(a0, a1, *self);
                }
            } else if nl.is_named(p, "PORT_W_CLK") {
                wclk = match self.trace_cell_clock(nl, c, i) {
                    Err(e) => {
                        return Err(e);
                    },
                    Ok(o) => o,
                };
                proof {
                    lemma_gates_after_gates(a0, a1, *self);
                }
            }
            proof {
                lemma_ram_step(*nl, a1.drivers@, self.drivers@, lits, pins, i as int, r0, sram, w0, wclk);
            }
            i += 1;
        }
        assert(pins.take(n as int) =~= pins);
        Ok((sram, wclk))
    }

    /// Gates the write enables of an SRAM with its write clock.
    fn gate_ram(&mut self, nl: &Netlist, c: usize, ram: RAMBlock, wclk: usize) -> (r: Result<RAMBlock, BuildError>)
        requires
            connectable(*nl, *old(self), c),
            nl.kind(c) == CellKind::Ram,
            scanned_ram(*nl, old(self).drivers@, old(self).pin2aigpin_iv@, nl.pins(c), ram, wclk),
            ram.port_r_en_iv / 2 <= old(self).num_aigpins,
            wclk / 2 <= old(self).num_aigpins,
        ensures
            r is Ok ==> grown(*nl, *old(self), *final(self), 32),
            r is Ok ==> final(self).same_but_clocks(*old(self)),
            r matches Ok(x) ==> x.port_r_rd_data == ram.port_r_rd_data && ram_ok(
                *nl,
                final(self).drivers@,
                final(self).pin2aigpin_iv@,
                c,
                x,
            ),
            r is Ok ==> final(self).drivers@ == nl.with_enables(
                old(self).drivers@,
                old(self).pin2aigpin_iv@,
                c,
                wclk,
                32,
            ),
            r matches Err(e) ==> if e is TooLarge {
                old(self).num_aigpins + 32 > MAX_AIGPINS
            } else {
                element_fault(*nl, e)
            },
    {
        let ghost a0 = *self;
        let ghost lits = self.pin2aigpin_iv@;
        let mut out = ram;
        let mut b: usize = 0;
        while b < 32
            invariant
                connectable(*nl, a0, c),
                nl.kind(c) == CellKind::Ram,
                a0 == *old(self),
                lits == a0.pin2aigpin_iv@,
                b <= 32,
                grown(*nl, a0, *self, b as int),
                self.same_but_clocks(a0),
                scanned_ram(*nl, a0.drivers@, lits, nl.pins(c), ram, wclk),
                wclk / 2 <= a0.num_aigpins,
                out.port_r_rd_data == ram.port_r_rd_data,
                out.port_r_addr_iv == ram.port_r_addr_iv,
                out.port_w_addr_iv == ram.port_w_addr_iv,
                out.port_w_wr_data_iv == ram.port_w_wr_data_iv,
                out.port_r_en_iv == ram.port_r_en_iv,
                forall|k: int|
                    0 <= k < b ==> #[trigger] bit_gated(
                        self.drivers@,
                        ram.port_w_wr_en_iv@,
                        wclk,
                        out.port_w_wr_en_iv@,
                        k,
                    ),
                forall|k: int| b <= k < 32 ==> #[trigger] out.port_w_wr_en_iv@[k] == ram.port_w_wr_en_iv@[k],
                self.drivers@ == nl.with_enables(a0.drivers@, lits, c, wclk, b as nat),
            decreases 32 - b,
        {
            let ghost a1 = *self;
            let ghost out1 = out;
            let iv = out.port_w_wr_en_iv[b];
            assert(iv == ram.port_w_wr_en_iv@[b as int]);
            assert(iv == lit_or(lits, nl.cell_bit(c, "PORT_W_WR_EN"@, b), 0));
            let pin = nl.find_bit(c, "PORT_W_WR_EN", b);
            if let Some(p) = pin {
                if iv / 2 == usize::MAX / 2 {
                    proof {
                        assert(!defined(lits[p as int]));
                        assert(is_gated(*nl, p));
                        assert(nl.cell_bit(c, "PORT_W_WR_EN"@, b) == Some(p));
                        assert(goes_into_element(*nl, p, c));
                    }
                    return Err(BuildError::GatedClock(p));
                }
                assert(!defined(a1.pin2aigpin_iv@[p as int]) || a1.pin2aigpin_iv@[p as int] / 2 <= a1.num_aigpins);
            }
            assert(iv / 2 <= a1.num_aigpins);
            let o = match self.add_and_gate(iv, wclk) {
                None => {
                    return Err(BuildError::TooLarge);
                },
                Some(o) => o,
            };
            out.port_w_wr_en_iv[b] = o;
            proof {
                lemma_more_gates(a1, *self, *nl);
                lemma_gates_after_gates(a0, a1, *self);
                assert forall|k: int| 0 <= k < b + 1 implies #[trigger] bit_gated(
                    self.drivers@,
                    ram.port_w_wr_en_iv@,
                    wclk,
                    out.port_w_wr_en_iv@,
                    k,
                ) by {
                    if k < b {
                        assert(bit_gated(a1.drivers@, ram.port_w_wr_en_iv@, wclk, out1.port_w_wr_en_iv@, k));
                        assert(out.port_w_wr_en_iv@[k] == out1.port_w_wr_en_iv@[k]);
                    }
                }
            }
            b += 1;
        }
        proof {
            let d1 = self.drivers@;
            lemma_clock_or_kept(
                *nl,
                a0.drivers@,
                d1,
                lits,
                nl.cell_pin(c, "PORT_R_CLK"@),
                0,
                ram.port_r_en_iv,
            );
            lemma_clock_or_kept(*nl, a0.drivers@, d1, lits, nl.cell_pin(c, "PORT_W_CLK"@), 0, wclk);
            assert(bus_defined(*nl, lits, nl.pins(c), "PORT_W_WR_EN"@)) by {
                assert forall|k: usize| k < 32 implies defined(
                    lit_or(lits, #[trigger] nl.last_bit(nl.pins(c), "PORT_W_WR_EN"@, k), 0),
                ) by {
                    assert(bit_gated(d1, ram.port_w_wr_en_iv@, wclk, out.port_w_wr_en_iv@, k as int));
                    assert(ram.port_w_wr_en_iv@[k as int] == lit_or(
                        lits,
                        nl.last_bit(nl.pins(c), "PORT_W_WR_EN"@, k),
                        0,
                    ));
                }
            }
            assert forall|k: int| 0 <= k < 32 implies and_lit(
                d1,
                lit_or(lits, nl.last_bit(nl.pins(c), "PORT_W_WR_EN"@, k as usize), 0),
                wclk,
                #[trigger] out.port_w_wr_en_iv@[k],
            ) by {
                assert(bit_gated(d1, ram.port_w_wr_en_iv@, wclk, out.port_w_wr_en_iv@, k));
                assert(ram.port_w_wr_en_iv@[k] == lit_or(
                    lits,
                    nl.last_bit(nl.pins(c), "PORT_W_WR_EN"@, k as usize),
                    0,
                ));
            }
            assert(ram_inputs(*nl, d1, lits, c, out, wclk));
            assert forall|k: int| 0 <= k < 32 implies #[trigger] out.port_w_wr_en_iv@[k] / 2 < d1.len() by {
                assert(bit_gated(d1, ram.port_w_wr_en_iv@, wclk, out.port_w_wr_en_iv@, k));
            }
        }
        Ok(out)
    }

    /// Connects the inputs of an SRAM.
    pub(crate) fn connect_ram(&mut self, nl: &Netlist, c: usize) -> (r: Result<(), BuildError>)
        requires
            connectable(*nl, *old(self), c),
            nl.kind(c) == CellKind::Ram,
            old(self).srams.wf(),
            old(self).srams.has(c) ==> is_blank(old(self).srams.at(c)),
        ensures
            r is Ok ==> grown(
                *nl,
                *old(self),
                *final(self),
                (nl.pins(c).len() * nl.num_pins() + 32) as int,
            ),
            r is Ok ==> final(self).dffs == old(self).dffs && final(self).macros == old(self).macros,
            r is Ok ==> final(self).srams.wf() && final(self).srams.has(c),
            r is Ok ==> (old(self).srams.has(c) ==> final(self).srams.at(c).port_r_rd_data == old(self).srams.at(
                c,
            ).port_r_rd_data),
            r is Ok ==> (!old(self).srams.has(c) ==> forall|b: int|
                0 <= b < 32 ==> #[trigger] final(self).srams.at(c).port_r_rd_data@[b] == 0),
            r is Ok ==> forall|j: usize| #[trigger] final(self).srams.has(j) <==> old(self).srams.has(j) || j == c,
            r is Ok ==> forall|j: usize|
                j != c && old(self).srams.has(j) ==> #[trigger] final(self).srams.at(j) == old(self).srams.at(j),
            r is Ok ==> ram_ok(*nl, final(self).drivers@, final(self).pin2aigpin_iv@, c, final(self).srams.at(c)),
            r is Ok ==> is_wired(*nl, *old(self), *final(self), c),
            r matches Err(e) ==> connect_error(*nl, *old(self), c, e),
    {
        let ghost a0 = *self;
        let sram: RAMBlock = match self.srams.get(c) {
            Some(r) => *r,
            None => RAMBlock::new(),
        };
        let (scanned, wclk): (RAMBlock, usize) = match self.scan_ram(nl, c, sram) {
            Err(e) => {
                return Err(e);
            },
            Ok(x) => x,
        };
        let ghost a1 = *self;
        let done: RAMBlock = match self.gate_ram(nl, c, scanned, wclk) {
            Err(e) => {
                return Err(e);
            },
            Ok(x) => x,
        };
        let ghost a2 = *self;
        let _ = self.srams.insert(c, done);
        proof {
            lemma_gates_after_gates(a0, a1, a2);
            super::values::lemma_pins_same(*nl, a2, *self);
        }
        Ok(())
    }

    /// Connects the inputs of a macro.
    pub(crate) fn connect_macro(&mut self, nl: &Netlist, c: usize, kind: MacroKind) -> (r: Result<(), BuildError>)
        requires
            connectable(*nl, *old(self), c),
            nl.kind(c) == CellKind::Macro(kind),
            has_output(*nl, c),
            old(self).macros.wf(),
            old(self).macros.has(c),
            old(self).macros.at(c).kind == kind,
            old(self).macros.at(c).wf(),
        ensures
            r is Ok ==> grown(
                *nl,
                *old(self),
                *final(self),
                (nl.pins(c).len() * nl.num_pins() + 32) as int,
            ),
            r is Ok ==> final(self).dffs == old(self).dffs && final(self).srams == old(self).srams,
            r is Ok ==> final(self).macros.wf() && final(self).macros.at(c).outputs@ == old(self).macros.at(c).outputs@,
            r is Ok ==> forall|j: usize| #[trigger] final(self).macros.has(j) <==> old(self).macros.has(j),
            r is Ok ==> forall|j: usize|
                j != c && old(self).macros.has(j) ==> #[trigger] final(self).macros.at(j) == old(self).macros.at(j),
            r is Ok ==> macro_ok(*nl, final(self).drivers@, final(self).pin2aigpin_iv@, c, final(self).macros.at(c)),
            r is Ok ==> is_wired(*nl, *old(self), *final(self), c),
            r matches Err(e) ==> connect_error(*nl, *old(self), c, e),
    {
        let ghost a0 = *self;
        let ghost lits = self.pin2aigpin_iv@;
        let ghost np = nl.num_pins() as int;
        let ghost pins = nl.pins(c);
        let mut inputs = default_inputs(kind);
        let mut clk_en_iv: usize = 1;
        let clocked = kind.has_clock();
        let n = nl.cell_pins[c].len();
        let mut i: usize = 0;
        assert(0 * np == 0) by (nonlinear_arith);
        proof {
            assert forall|s: int| 0 <= s < inputs@.len() implies #[trigger] inputs@[s] == lit_or(
                lits,
                slot_pin(*nl, kind, pins.take(0), s),
                kind.spec_default_input(s as usize),
            ) by {
                assert(inputs@[s as usize as int] == kind.spec_default_input(s as usize));
            }
        }
        while i < n
            invariant
                connectable(*nl, a0, c),
                nl.kind(c) == CellKind::Macro(kind),
                has_output(*nl, c),
                clocked == !(kind is Carry4),
                a0 == *old(self),
                lits == a0.pin2aigpin_iv@,
                np == nl.num_pins(),
                pins == nl.pins(c),
                n == pins.len(),
                i <= n,
                grown(*nl, a0, *self, i * np),
                self.same_but_clocks(a0),
                inputs@.len() == kind.spec_num_inputs(),
                forall|s: int|
                    0 <= s < inputs@.len() ==> #[trigger] inputs@[s] == lit_or(
                        lits,
                        slot_pin(*nl, kind, pins.take(i as int), s),
                        kind.spec_default_input(s as usize),
                    ),
                clocked ==> clock_or(
                    *nl,
                    self.drivers@,
                    lits,
                    nl.last_named(pins.take(i as int), "CLK"@),
                    1,
                    clk_en_iv,
                ),
                !clocked ==> clk_en_iv == 1,
                clocks_fine(*nl, lits, nl.kind(c), pins.take(i as int)),
                clk_en_iv / 2 <= self.num_aigpins,
                self.drivers@ == nl.scanned(a0.drivers@, lits, nl.kind(c), pins.take(i as int), "CLK"@).0,
            decreases n - i,
        {
            let ghost a1 = *self;
            let ghost in0 = inputs@;
            let p = nl.cell_pins[c][i];
            proof {
                assert(nl.cell_pins@[c as int]@[i as int] < nl.num_pins());
                assert(pins.take(i + 1).drop_last() =~= pins.take(i as int));
                assert(pins.take(i + 1).last() == p);
                lemma_step(i as int, np, n as int);
            }
            if clocked && nl.is_named(p, "CLK") {
                clk_en_iv = match self.trace_cell_clock(nl, c, i) {
                    Err(e) => {
                        return Err(e);
                    },
                    Ok(o) => o,
                };
                proof {
                    lemma_gates_after_gates(a0, a1, *self);
                }
            } else if let Some(slot) = kind.input_slot(nl.pinnames[p].name.as_str(), nl.bit_of(p)) {
                inputs[slot] = self.pin2aigpin_iv[p];
            }
            proof {
                assert forall|s: int| 0 <= s < inputs@.len() implies #[trigger] inputs@[s] == lit_or(
                    lits,
                    slot_pin(*nl, kind, pins.take(i + 1), s),
                    kind.spec_default_input(s as usize),
                ) by {
                    assert(in0[s] == lit_or(
                        lits,
                        slot_pin(*nl, kind, pins.take(i as int), s),
                        kind.spec_default_input(s as usize),
                    ));
                    assert(feeds_slot(*nl, kind, p, s) || inputs@[s] == in0[s]);
                }
                lemma_fine_step(*nl, lits, nl.kind(c), pins, i as int);
            }
            i += 1;
        }
        assert(pins.take(n as int) =~= pins);
        let ghost a2 = *self;
        let outputs: Vec<usize> = match self.macros.get(c) {
            Some(m) => m.outputs.clone(),
            None => Vec::new(),
        };
        assert(outputs@ =~= a0.macros.at(c).outputs@);
        let m = MacroInst { kind, inputs, outputs, clk_en_iv };
        let ghost m1 = m;
        let _ = self.macros.insert(c, m);
        proof {
            super::values::lemma_pins_same(*nl, a2, *self);
            assert(macro_ok(*nl, self.drivers@, lits, c, m1));
        }
        Ok(())
    }
}

} // verus!
