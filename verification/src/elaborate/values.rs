//! Literals of single pins.

use super::cells::{macro_deps, BuildError, CellKind};
use super::clocks::lemma_more_gates;
use super::connect::{gate_is, lemma_gate_kept, lemma_gates_join, only_gates, sound};
use super::draft::is_turn;
use super::kept::{
    lemma_behind_kept, lemma_deps_named, lemma_dffs_kept, lemma_macro_slots_kept, lemma_macros_kept, lemma_outs_with,
    lemma_ram_bits_kept, lemma_srams_kept,
};
use super::rules::{
    dff_out, dffs_ok, goes_into_gate, has_output, is_behind, is_blank, is_gated, is_out_port, is_output_of, lit_or,
    macro_drives, macro_out, macro_slot_ok, macro_slots_ok, macros_ok, outs_ok, pin_fault, pin_rule, ram_bit_ok,
    ram_bits_ok, ram_drives, ram_out, srams_ok,
};
use crate::aig::{defined, flip, invert, DriverType, RAMBlock, AIG, DFF, MAX_AIGPINS};
use crate::collections::{set_add, set_items};
use crate::macros::{MacroInst, MacroKind};
use crate::netlist::{Direction, Netlist};
use vstd::prelude::*;

verus! {

/// Do the tables know what the drivers and the literals of the given pins say?
pub open spec fn tables_ok(nl: Netlist, aig: AIG, lits: Seq<usize>, order: Seq<usize>) -> bool {
    &&& dffs_ok(nl, aig.dffs, aig.drivers@)
    &&& srams_ok(nl, aig.srams, aig.drivers@, lits, order)
    &&& macros_ok(nl, aig.macros, aig.drivers@, lits, order)
    &&& outs_ok(nl, set_items(aig.primary_outputs), lits, order)
}

/// Can the literal of the pin be found, now that those of the given pins are?
pub open spec fn ready(nl: Netlist, aig: AIG, p: usize, order: Seq<usize>) -> bool {
    &&& nl.wf()
    &&& p < nl.num_pins()
    &&& aig.pins_wf(nl)
    &&& tables_ok(nl, aig, aig.pin2aigpin_iv@, order)
    &&& aig.pin2aigpin_iv@[p as int] == usize::MAX
    &&& forall|i: int| 0 <= i < order.len() ==> #[trigger] order[i] < nl.num_pins() && order[i] != p
    &&& forall|d: usize| #[trigger]
        nl.deps(p).contains(d) && !defined(aig.pin2aigpin_iv@[d as int]) ==> is_gated(nl, d)
    &&& forall|d: usize| #[trigger] nl.deps(p).contains(d) ==> order.contains(d)
}

/// Has the literal of the pin been found?
pub open spec fn found(nl: Netlist, a0: AIG, a1: AIG, p: usize, o: usize, order: Seq<usize>) -> bool {
    &&& a1.pins_wf(nl)
    &&& a1.pin2aigpin_iv@ == a0.pin2aigpin_iv@
    &&& a0.drivers@.is_prefix_of(a1.drivers@)
    &&& a1.num_aigpins <= a0.num_aigpins + 2
    &&& !defined(o) || o / 2 <= a1.num_aigpins
    &&& pin_rule(nl, a1.drivers@, a1.pin2aigpin_iv@, p, o)
    &&& tables_ok(nl, a1, a1.pin2aigpin_iv@.update(p as int, o), order.push(p))
}

/// A pin of which the tables do not know has its literal.
proof fn lemma_found(nl: Netlist, a0: AIG, a1: AIG, p: usize, o: usize, order: Seq<usize>)
    requires
        ready(nl, a0, p, order),
        a1.pins_wf(nl),
        a1.same_but_clocks(a0),
        a0.drivers@.is_prefix_of(a1.drivers@),
        a1.num_aigpins <= a0.num_aigpins + 2,
        forall|i: int|
            a0.drivers@.len() <= i < a1.drivers@.len() ==> !(#[trigger] a1.drivers@[i] is DFF) && !(a1.drivers@[i]
                is Macro),
        !defined(o) || o / 2 <= a1.num_aigpins,
        pin_rule(nl, a1.drivers@, a1.pin2aigpin_iv@, p, o),
        ram_out(nl, p) is None,
        macro_out(nl, p) is None,
        !is_out_port(nl, p),
    ensures
        found(nl, a0, a1, p, o, order),
{
    let l0 = a0.pin2aigpin_iv@;
    lemma_dffs_kept(nl, a0.dffs, a0.drivers@, a1.drivers@);
    lemma_srams_kept(nl, a0.srams, a0.drivers@, a1.drivers@, l0, order, p, o);
    lemma_macros_kept(nl, a0.macros, a0.drivers@, a1.drivers@, l0, order, p, o);
    let outs = set_items(a0.primary_outputs);
    lemma_outs_with(nl, outs, outs, l0, order, p, o);
}

/// One more pin that is neither an and gate nor a clock flag.
pub(super) proof fn lemma_one_more(nl: Netlist, a0: AIG, a1: AIG, driver: DriverType)
    requires
        a0.pins_wf(nl),
        a1.drivers_wf(),
        a1.cache_wf(),
        a1.same_but_pins(a0),
        a1.drivers@ == a0.drivers@.push(driver),
        !(driver is InputClockFlag),
    ensures
        a1.pins_wf(nl),
        a1.same_but_clocks(a0),
        a0.drivers@.is_prefix_of(a1.drivers@),
{
    assert forall|i: int| 0 <= i < a1.drivers@.len() implies (
    #[trigger] a1.drivers@[i] matches DriverType::InputClockFlag(k, e) ==> a1.clock_pin2aigpins.has(k) && {
        let (a, b) = a1.clock_pin2aigpins.at(k);
        (e == 0 && a == i) || (e == 1 && b == i)
    }) by {
        if i < a0.drivers@.len() {
            assert(a1.drivers@[i] == a0.drivers@[i]);
        }
    }
    assert forall|p: int| 0 <= p < a1.pin2aigpin_iv@.len() implies !defined(#[trigger] a1.pin2aigpin_iv@[p])
        || a1.pin2aigpin_iv@[p] / 2 <= a1.num_aigpins by {
        assert(!defined(a0.pin2aigpin_iv@[p]) || a0.pin2aigpin_iv@[p] / 2 <= a0.num_aigpins);
    }
}

/// The tables do not speak of clocks, gates and other pins.
pub(super) proof fn lemma_pins_same(nl: Netlist, a0: AIG, a1: AIG)
    requires
        a0.pins_wf(nl),
        a1.num_aigpins == a0.num_aigpins,
        a1.drivers == a0.drivers,
        a1.and_gate_cache == a0.and_gate_cache,
        a1.pin2aigpin_iv == a0.pin2aigpin_iv,
        a1.clock_pin2aigpins == a0.clock_pin2aigpins,
    ensures
        a1.pins_wf(nl),
{
}

/// Two gates make the output of a flip-flop.
proof fn lemma_dff_found(
    nl: Netlist,
    a0: AIG,
    a1: AIG,
    a2: AIG,
    p: usize,
    q: usize,
    x: usize,
    o: usize,
    order: Seq<usize>,
)
    requires
        ready(nl, a0, p, order),
        !nl.is_input(p),
        nl.cell(p) != 0,
        nl.kind(nl.cell(p)) == CellKind::Dff,
        q <= a0.num_aigpins,
        a0.drivers@[q as int] == DriverType::DFF(nl.cell(p)),
        only_gates(nl, a0, a2, 2),
        sound(nl, a2),
        a0.drivers@.is_prefix_of(a2.drivers@),
        a1.drivers@.is_prefix_of(a2.drivers@),
        o / 2 <= a2.num_aigpins,
        ({
            let s_iv = lit_or(a0.pin2aigpin_iv@, nl.cell_pin(nl.cell(p), "S"@), 1);
            let r_iv = lit_or(a0.pin2aigpin_iv@, nl.cell_pin(nl.cell(p), "R"@), 1);
            defined(s_iv) && defined(r_iv) && gate_is(a1.drivers@, true, (q * 2) as usize, s_iv, x) && gate_is(
                a2.drivers@,
                false,
                x,
                r_iv,
                o,
            )
        }),
    ensures
        found(nl, a0, a2, p, o, order),
{
    let c = nl.cell(p);
    let s_iv = lit_or(a0.pin2aigpin_iv@, nl.cell_pin(c, "S"@), 1);
    let r_iv = lit_or(a0.pin2aigpin_iv@, nl.cell_pin(c, "R"@), 1);
    lemma_gate_kept(a1.drivers@, a2.drivers@, true, (q * 2) as usize, s_iv, x);
    reveal(only_gates);
    reveal(sound);
    assert(dff_out(a2.drivers@, c, s_iv, r_iv, q, x, o)) by {
        reveal(gate_is);
        assert(a2.drivers@[q as int] == a0.drivers@[q as int]);
    }
    assert(pin_rule(nl, a2.drivers@, a2.pin2aigpin_iv@, p, o));
    lemma_found(nl, a0, a2, p, o, order);
}

/// A pin of which the tables do not know is left.
proof fn lemma_turn(nl: Netlist, a0: AIG, a1: AIG, p: usize, q: usize, o: usize)
    requires
        a1.same_but_clocks(a0),
        (a1.drivers@, o) == nl.turn(a0.drivers@, a0.pin2aigpin_iv@, p, q),
        ram_out(nl, p) is None,
        macro_out(nl, p) is None,
        !is_out_port(nl, p),
    ensures
        is_turn(nl, a0, a1, p, q, o),
{
    reveal(is_turn);
}

/// The pin `q` matters for flip-flops only.
proof fn lemma_any_pin(nl: Netlist, a0: AIG, p: usize, q: usize)
    ensures
        !nl.is_dff_out(p) ==> forall|a1: AIG, o: usize| #[trigger]
            is_turn(nl, a0, a1, p, 0, o) ==> is_turn(nl, a0, a1, p, q, o),
{
    reveal(is_turn);
}

impl AIG {
    /// The literal of an input pin.
    fn input_value(&mut self, nl: &Netlist, p: usize, Ghost(order): Ghost<Seq<usize>>) -> (o: usize)
        requires
            ready(*nl, *old(self), p, order),
            nl.is_input(p),
        ensures
            found(*nl, *old(self), *final(self), p, o, order),
            is_turn(*nl, *old(self), *final(self), p, 0, o),
    {
        let ghost a0 = *self;
        let ghost l0 = self.pin2aigpin_iv@;
        if !nl.driven(p) {
            let net = nl.pin2net[p];
            let zero = match nl.net_zero {
                Some(n) => n == net,
                None => false,
            };
            let o: usize = if zero {
                0
            } else {
                1
            };
            proof {
                lemma_found(*nl, a0, *self, p, o, order);
                lemma_turn(*nl, a0, *self, p, 0, o);
            }
            return o;
        }
        let o = self.pin2aigpin_iv[nl.net_roots[nl.pin2net[p]]];
        if nl.pin2cell[p] == 0 {
            set_add(&mut self.primary_outputs, o);
            proof {
                lemma_pins_same(*nl, a0, *self);
                lemma_srams_kept(*nl, a0.srams, a0.drivers@, a0.drivers@, l0, order, p, o);
                lemma_macros_kept(*nl, a0.macros, a0.drivers@, a0.drivers@, l0, order, p, o);
                lemma_outs_with(
                    *nl,
                    set_items(a0.primary_outputs),
                    set_items(self.primary_outputs),
                    l0,
                    order,
                    p,
                    o,
                );
                assert(found(*nl, a0, *self, p, o, order));
                reveal(is_turn);
            }
        } else {
            proof {
                lemma_found(*nl, a0, *self, p, o, order);
                lemma_turn(*nl, a0, *self, p, 0, o);
            }
        }
        o
    }

    /// The literal of an input port of the design. There is `None` when
    /// literals run out.
    fn port_value(&mut self, nl: &Netlist, p: usize, Ghost(order): Ghost<Seq<usize>>) -> (r: Option<usize>)
        requires
            ready(*nl, *old(self), p, order),
            !nl.is_input(p),
            nl.cell(p) == 0,
        ensures
            r matches Some(o) ==> found(*nl, *old(self), *final(self), p, o, order),
            r matches Some(o) ==> is_turn(*nl, *old(self), *final(self), p, 0, o),
            r is None ==> old(self).num_aigpins == MAX_AIGPINS,
    {
        let ghost a0 = *self;
        let pin = match self.add_aigpin(DriverType::InputPort(p)) {
            None => {
                return None;
            },
            Some(pin) => pin,
        };
        proof {
            lemma_one_more(*nl, a0, *self, DriverType::InputPort(p));
            lemma_found(*nl, a0, *self, p, (pin * 2) as usize, order);
            lemma_turn(*nl, a0, *self, p, 0, (pin * 2) as usize);
        }
        Some(pin * 2)
    }

    /// The literal of an output of a flip-flop that has the pin `q`.
    fn dff_value(&mut self, nl: &Netlist, p: usize, q: usize, Ghost(order): Ghost<Seq<usize>>) -> (r: Result<
        usize,
        BuildError,
    >)
        requires
            ready(*nl, *old(self), p, order),
            !nl.is_input(p),
            nl.cell(p) != 0,
            nl.kind(nl.cell(p)) == CellKind::Dff,
            q <= old(self).num_aigpins,
            old(self).drivers@[q as int] == DriverType::DFF(nl.cell(p)),
        ensures
            r matches Ok(o) ==> found(*nl, *old(self), *final(self), p, o, order),
            r matches Ok(o) ==> is_turn(*nl, *old(self), *final(self), p, q, o),
            r matches Err(e) ==> if e is TooLarge {
                old(self).num_aigpins + 2 > MAX_AIGPINS
            } else {
                pin_fault(*nl, e)
            },
    {
        let ghost a0 = *self;
        let c = nl.pin2cell[p];
        proof {
            lemma_deps_named(*nl, p);
            assert(is_output_of(*nl, p, c));
        }
        let mut s_iv: usize = 1;
        if let Some(d) = nl.find_pin(c, "S") {
            s_iv = self.pin2aigpin_iv[d];
            if s_iv / 2 == usize::MAX / 2 {
                assert(nl.deps(p).contains(d));
                assert(goes_into_gate(*nl, d, p));
                return Err(BuildError::GatedClock(d));
            }
        }
        let mut r_iv: usize = 1;
        if let Some(d) = nl.find_pin(c, "R") {
            r_iv = self.pin2aigpin_iv[d];
            if r_iv / 2 == usize::MAX / 2 {
                assert(nl.deps(p).contains(d));
                assert(goes_into_gate(*nl, d, p));
                return Err(BuildError::GatedClock(d));
            }
        }
        assert(s_iv == lit_or(a0.pin2aigpin_iv@, nl.cell_pin(c, "S"@), 1));
        assert(r_iv == lit_or(a0.pin2aigpin_iv@, nl.cell_pin(c, "R"@), 1));
        assert(s_iv / 2 <= self.num_aigpins && r_iv / 2 <= self.num_aigpins);
        proof {
            reveal(sound);
        }
        let x_iv = match self.gate(nl, true, q * 2, s_iv) {
            None => {
                return Err(BuildError::TooLarge);
            },
            Some(x) => x,
        };
        let ghost a1 = *self;
        proof {
            lemma_gates_join(*nl, a0, a0, a1, 0, 1);
        }
        let o = match self.gate(nl, false, x_iv, r_iv) {
            None => {
                return Err(BuildError::TooLarge);
            },
            Some(o) => o,
        };
        proof {
            lemma_gates_join(*nl, a0, a1, *self, 1, 1);
            lemma_dff_found(*nl, a0, a1, *self, p, q, x_iv, o, order);
            reveal(only_gates);
            lemma_turn(*nl, a0, *self, p, q, o);
        }
        Ok(o)
    }

    /// The literal of an output of an SRAM.
    fn ram_value(&mut self, nl: &Netlist, p: usize, Ghost(order): Ghost<Seq<usize>>) -> (r: Result<usize, BuildError>)
        requires
            ready(*nl, *old(self), p, order),
            !nl.is_input(p),
            nl.cell(p) != 0,
            nl.kind(nl.cell(p)) == CellKind::Ram,
        ensures
            r matches Ok(o) ==> found(*nl, *old(self), *final(self), p, o, order),
            r matches Ok(o) ==> is_turn(*nl, *old(self), *final(self), p, 0, o),
            r matches Err(e) ==> if e is TooLarge {
                old(self).num_aigpins + 2 > MAX_AIGPINS
            } else {
                pin_fault(*nl, e)
            },
    {
        let ghost a0 = *self;
        let ghost l0 = self.pin2aigpin_iv@;
        let c = nl.pin2cell[p];
        assert(is_output_of(*nl, p, c));
        let named = nl.is_named(p, "PORT_R_RD_DATA");
        let bit: usize = match nl.bit_of(p) {
            None => {
                return Err(BuildError::BadRamPin(p));
            },
            Some(b) => b,
        };
        if !named || bit >= 32 {
            return Err(BuildError::BadRamPin(p));
        }
        let pin = match self.add_aigpin(DriverType::SRAM(c)) {
            None => {
                return Err(BuildError::TooLarge);
            },
            Some(pin) => pin,
        };
        let ghost a1 = *self;
        let o: usize = pin * 2;
        let ghost l1 = l0.update(p as int, o);
        proof {
            lemma_one_more(*nl, a0, a1, DriverType::SRAM(c));
            assert(a1.srams == a0.srams);
        }
        let mut ram: RAMBlock = match self.srams.get(c) {
            Some(r) => *r,
            None => RAMBlock::new(),
        };
        let ghost ram0 = ram;
        proof {
            if a0.srams.has(c) {
                lemma_ram_bits_kept(*nl, a0.drivers@, a1.drivers@, l0, p, o, c, ram0);
            } else {
                assert forall|b: int| 0 <= b < 32 implies ram_bit_ok(
                    *nl,
                    a1.drivers@,
                    l1,
                    c,
                    b,
                    #[trigger] ram0.port_r_rd_data@[b],
                ) by {}
            }
        }
        ram.port_r_rd_data[bit] = pin;
        proof {
            assert(ram_drives(*nl, l1, c, bit as int, pin)) by {
                assert(ram_out(*nl, p) == Some((c, bit)));
                assert(l1[p as int] == pin * 2);
            }
            assert forall|b: int| 0 <= b < 32 implies ram_bit_ok(
                *nl,
                a1.drivers@,
                l1,
                c,
                b,
                #[trigger] ram.port_r_rd_data@[b],
            ) by {
                if b != bit {
                    assert(ram.port_r_rd_data@[b] == ram0.port_r_rd_data@[b]);
                }
            }
            assert(is_blank(ram));
        }
        let _ = self.srams.insert(c, ram);
        proof {
            lemma_pins_same(*nl, a1, *self);
            lemma_dffs_kept(*nl, a0.dffs, a0.drivers@, a1.drivers@);
            lemma_macros_kept(*nl, a0.macros, a0.drivers@, a1.drivers@, l0, order, p, o);
            let outs = set_items(a0.primary_outputs);
            lemma_outs_with(*nl, outs, outs, l0, order, p, o);
            assert forall|k: usize| #[trigger] self.srams.has(k) implies k < nl.num_cells()
                && nl.kind(k) == CellKind::Ram && ram_bits_ok(
                *nl,
                a1.drivers@,
                l1,
                k,
                self.srams.at(k),
            ) by {
                if k != c {
                    assert(a0.srams.has(k));
                    lemma_ram_bits_kept(*nl, a0.drivers@, a1.drivers@, l0, p, o, k, a0.srams.at(k));
                }
            }
            assert forall|k: usize| #[trigger] self.srams.has(k) implies is_blank(self.srams.at(k)) by {
                if k != c {
                    assert(a0.srams.has(k));
                }
            }
            assert forall|i: int| 0 <= i < order.push(p).len() implies (ram_out(
                *nl,
                #[trigger] order.push(p)[i],
            ) matches Some((k, b)) ==> self.srams.has(k) && self.srams.at(k).port_r_rd_data@[b as int] != 0) by {
                if i < order.len() {
                    assert(order.push(p)[i] == order[i]);
                    if let Some((k, b)) = ram_out(*nl, order[i]) {
                        assert(a0.srams.has(k) && a0.srams.at(k).port_r_rd_data@[b as int] != 0);
                        if k == c {
                            assert(ram0 == a0.srams.at(c));
                        }
                    }
                }
            }
            assert(found(*nl, a0, *self, p, o, order));
            reveal(is_turn);
        }
        Ok(o)
    }

    /// The literal of an output of a macro.
    fn macro_value(
        &mut self,
        nl: &Netlist,
        p: usize,
        kind: MacroKind,
        Ghost(order): Ghost<Seq<usize>>,
    ) -> (r: Result<usize, BuildError>)
        requires
            ready(*nl, *old(self), p, order),
            !nl.is_input(p),
            nl.cell(p) != 0,
            nl.kind(nl.cell(p)) == CellKind::Macro(kind),
        ensures
            r matches Ok(o) ==> found(*nl, *old(self), *final(self), p, o, order),
            r matches Ok(o) ==> is_turn(*nl, *old(self), *final(self), p, 0, o),
            r matches Err(e) ==> if e is TooLarge {
                old(self).num_aigpins + 2 > MAX_AIGPINS
            } else {
                pin_fault(*nl, e)
            },
    {
        let ghost a0 = *self;
        let ghost l0 = self.pin2aigpin_iv@;
        let c = nl.pin2cell[p];
        assert(is_output_of(*nl, p, c));
        let slot: usize = match kind.output_slot(nl.pinnames[p].name.as_str(), nl.bit_of(p)) {
            None => {
                return Err(BuildError::BadMacroPin(p));
            },
            Some(slot) => slot,
        };
        let pin = match self.add_aigpin(DriverType::Macro(c, slot)) {
            None => {
                return Err(BuildError::TooLarge);
            },
            Some(pin) => pin,
        };
        let ghost a1 = *self;
        let o: usize = pin * 2;
        let ghost l1 = l0.update(p as int, o);
        proof {
            lemma_one_more(*nl, a0, a1, DriverType::Macro(c, slot));
            assert(a1.macros == a0.macros);
        }
        let mut m: MacroInst = match self.macros.get(c) {
            Some(m) => m.clone(),
            None => MacroInst::new(kind),
        };
        let ghost m0 = m;
        proof {
            if a0.macros.has(c) {
                lemma_macro_slots_kept(*nl, a0.drivers@, a1.drivers@, l0, p, o, c, a0.macros.at(c));
                assert(m0.outputs@ == a0.macros.at(c).outputs@);
            } else {
                assert forall|s: int| 0 <= s < m0.outputs@.len() implies macro_slot_ok(
                    *nl,
                    a1.drivers@,
                    l1,
                    c,
                    s,
                    #[trigger] m0.outputs@[s],
                ) by {}
            }
            assert(macro_slots_ok(*nl, a1.drivers@, l1, c, m0));
        }
        m.outputs[slot] = pin;
        proof {
            assert(macro_drives(*nl, l1, c, slot as int, pin)) by {
                assert(macro_out(*nl, p) == Some((c, slot)));
                assert(l1[p as int] == pin * 2);
            }
            assert forall|s: int| 0 <= s < m.outputs@.len() implies macro_slot_ok(
                *nl,
                a1.drivers@,
                l1,
                c,
                s,
                #[trigger] m.outputs@[s],
            ) by {
                if s != slot {
                    assert(m.outputs@[s] == m0.outputs@[s]);
                }
            }
        }
        let ghost m1 = m;
        let _ = self.macros.insert(c, m);
        proof {
            lemma_pins_same(*nl, a1, *self);
            lemma_dffs_kept(*nl, a0.dffs, a0.drivers@, a1.drivers@);
            lemma_srams_kept(*nl, a0.srams, a0.drivers@, a1.drivers@, l0, order, p, o);
            let outs = set_items(a0.primary_outputs);
            lemma_outs_with(*nl, outs, outs, l0, order, p, o);
            assert forall|k: usize| #[trigger] self.macros.has(k) implies k < nl.num_cells() && has_output(*nl, k)
                && nl.kind(k) == CellKind::Macro(
                self.macros.at(k).kind,
            ) && self.macros.at(k).wf() && macro_slots_ok(*nl, a1.drivers@, l1, k, self.macros.at(k)) by {
                if k != c {
                    assert(a0.macros.has(k));
                    lemma_macro_slots_kept(*nl, a0.drivers@, a1.drivers@, l0, p, o, k, a0.macros.at(k));
                }
            }
            assert forall|i: int| 0 <= i < order.push(p).len() implies (macro_out(
                *nl,
                #[trigger] order.push(p)[i],
            ) matches Some((k, s)) ==> self.macros.has(k) && self.macros.at(k).outputs@[s as int] != 0) by {
                if i < order.len() {
                    assert(order.push(p)[i] == order[i]);
                    if let Some((k, s)) = macro_out(*nl, order[i]) {
                        assert(a0.macros.has(k) && a0.macros.at(k).outputs@[s as int] != 0);
                    }
                }
            }
            assert forall|i: int| 0 <= i < self.drivers@.len() implies (
            #[trigger] self.drivers@[i] matches DriverType::Macro(k, s) ==> self.macros.has(k) && s < self.macros.at(
                k,
            ).kind.spec_num_outputs() && self.macros.at(k).outputs@[s as int] != 0) by {
                if i < a0.drivers@.len() {
                    assert(self.drivers@[i] == a0.drivers@[i]);
                }
            }
            assert forall|i: int| 0 <= i < self.drivers@.len() implies (
            #[trigger] self.drivers@[i] matches DriverType::Macro(k, s) ==> is_behind(
                *nl,
                l1,
                order.push(p),
                k,
                s,
                i,
            )) by {
                if i < a0.drivers@.len() {
                    assert(self.drivers@[i] == a0.drivers@[i]);
                    if let DriverType::Macro(k, s) = a0.drivers@[i] {
                        lemma_behind_kept(*nl, l0, order, k, s, i, p, o);
                    }
                } else {
                    assert(nl.deps(p) == macro_deps(*nl, c, slot));
                    assert forall|d: usize| #[trigger] macro_deps(*nl, c, slot).contains(d) implies order.push(
                        p,
                    ).contains(d) && (defined(l1[d as int]) ==> l1[d as int] / 2 < i) by {
                        assert(nl.deps(p).contains(d));
                        assert(order.push(p)[order.index_of(d)] == d);
                        assert(order[order.index_of(d)] < nl.num_pins());
                        assert(!defined(l0[d as int]) || l0[d as int] / 2 <= a0.num_aigpins);
                    }
                }
            }
            assert(found(*nl, a0, *self, p, o, order));
            assert(is_turn(*nl, a0, *self, p, 0, o)) by {
                reveal(is_turn);
            }
        }
        Ok(o)
    }

    /// The literal of an output of a gate.
    fn gate_value(
        &mut self,
        nl: &Netlist,
        p: usize,
        kind: CellKind,
        Ghost(order): Ghost<Seq<usize>>,
    ) -> (r: Result<usize, BuildError>)
        requires
            ready(*nl, *old(self), p, order),
            !nl.is_input(p),
            nl.cell(p) != 0,
            nl.kind(nl.cell(p)) == kind,
            kind is And || kind is Inv || kind is Buf,
        ensures
            r matches Ok(o) ==> found(*nl, *old(self), *final(self), p, o, order),
            r matches Ok(o) ==> is_turn(*nl, *old(self), *final(self), p, 0, o),
            r matches Err(e) ==> if e is TooLarge {
                old(self).num_aigpins + 2 > MAX_AIGPINS
            } else {
                pin_fault(*nl, e)
            },
    {
        let ghost a0 = *self;
        let c = nl.pin2cell[p];
        proof {
            lemma_deps_named(*nl, p);
            assert(is_output_of(*nl, p, c));
        }
        let pin_a: usize = match nl.find_pin(c, "A") {
            None => {
                assert(has_output(*nl, c));
                return Err(BuildError::MissingPin(c));
            },
            Some(a) => a,
        };
        let a_iv = self.pin2aigpin_iv[pin_a];
        if let CellKind::And(inv_a, inv_b, inv_y) = kind {
            let pin_b: usize = match nl.find_pin(c, "B") {
                None => {
                    assert(has_output(*nl, c));
                    return Err(BuildError::MissingPin(c));
                },
                Some(b) => b,
            };
            let b_iv = self.pin2aigpin_iv[pin_b];
            assert(nl.deps(p).contains(pin_a) && nl.deps(p).contains(pin_b));
            if a_iv / 2 == usize::MAX / 2 {
                assert(goes_into_gate(*nl, pin_a, p));
                return Err(BuildError::GatedClock(pin_a));
            }
            if b_iv / 2 == usize::MAX / 2 {
                assert(goes_into_gate(*nl, pin_b, p));
                return Err(BuildError::GatedClock(pin_b));
            }
            let a_in: usize = if inv_a {
                invert(a_iv)
            } else {
                a_iv
            };
            let b_in: usize = if inv_b {
                invert(b_iv)
            } else {
                b_iv
            };
            assert(a_iv / 2 <= self.num_aigpins && b_iv / 2 <= self.num_aigpins);
            let y = match self.add_and_gate(a_in, b_in) {
                None => {
                    return Err(BuildError::TooLarge);
                },
                Some(y) => y,
            };
            let o: usize = if inv_y {
                invert(y)
            } else {
                y
            };
            proof {
                lemma_more_gates(a0, *self, *nl);
                assert(flip(o, inv_y) == y);
                lemma_found(*nl, a0, *self, p, o, order);
                lemma_turn(*nl, a0, *self, p, 0, o);
            }
            return Ok(o);
        }
        let o: usize = if kind == CellKind::Inv {
            invert(a_iv)
        } else {
            a_iv
        };
        proof {
            lemma_found(*nl, a0, *self, p, o, order);
            lemma_turn(*nl, a0, *self, p, 0, o);
        }
        Ok(o)
    }

    /// The literal of a pin whose dependencies have theirs. A flip-flop's
    /// output already has the pin `q`.
    pub(crate) fn value_of(
        &mut self,
        nl: &Netlist,
        p: usize,
        q: usize,
        Ghost(order): Ghost<Seq<usize>>,
    ) -> (r: Result<usize, BuildError>)
        requires
            ready(*nl, *old(self), p, order),
            !nl.is_input(p) && nl.cell(p) != 0 && nl.kind(nl.cell(p)) == CellKind::Dff ==> q <= old(self).num_aigpins
                && old(self).drivers@[q as int] == DriverType::DFF(nl.cell(p)),
        ensures
            r matches Ok(o) ==> found(*nl, *old(self), *final(self), p, o, order),
            r matches Ok(o) ==> is_turn(*nl, *old(self), *final(self), p, q, o),
            r matches Err(e) ==> if e is TooLarge {
                old(self).num_aigpins + 2 > MAX_AIGPINS
            } else {
                pin_fault(*nl, e)
            },
    {
        let ghost a0 = *self;
        proof {
            lemma_any_pin(*nl, a0, p, q);
        }
        if nl.pindirect[p] == Direction::I {
            return Ok(self.input_value(nl, p, Ghost(order)));
        }
        let c = nl.pin2cell[p];
        if c == 0 {
            return match self.port_value(nl, p, Ghost(order)) {
                Some(o) => Ok(o),
                None => Err(BuildError::TooLarge),
            };
        }
        assert(is_output_of(*nl, p, c));
        assert(has_output(*nl, c));
        let kind = nl.kind_of(c);
        match kind {
            CellKind::Dff => self.dff_value(nl, p, q, Ghost(order)),
            CellKind::Ram => self.ram_value(nl, p, Ghost(order)),
            CellKind::Macro(k) => self.macro_value(nl, p, k, Ghost(order)),
            CellKind::And(_, _, _) | CellKind::Inv | CellKind::Buf => self.gate_value(nl, p, kind, Ghost(order)),
            CellKind::ClockGate => {
                let cp = nl.find_pin(c, "CP");
                let en = nl.find_pin(c, "E");
                if cp.is_none() || en.is_none() {
                    return Err(BuildError::MissingPin(c));
                }
                proof {
                    lemma_found(*nl, a0, *self, p, usize::MAX, order);
                    lemma_turn(*nl, a0, *self, p, q, usize::MAX);
                }
                Ok(usize::MAX)
            },
            CellKind::Latch => Err(BuildError::Latch(c)),
            CellKind::BareDsp => Err(BuildError::UnmangledDsp(c)),
            CellKind::Unknown => Err(BuildError::UnknownCell(c)),
        }
    }
}

} // verus!
