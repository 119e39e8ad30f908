//! The order in which a graph gets its pins and its tables.

use super::cells::{is_clock_name, is_clocked, CellKind};
use super::clocks::with_clock;
use super::elements::is_clock_of;
use super::rules::{is_out_port, lit_or, macro_out, ram_out};
use crate::aig::{flip, spec_invert, with_and, DriverType, AIG};
use crate::collections::set_items;
use crate::netlist::Netlist;
use vstd::prelude::*;

verus! {

/// A graph in the making, as far as numbers and order are concerned: the
/// drivers of its pins, the literals of the netlist's pins, the cells of the
/// tables, the primary outputs, and the pins of the netlist that have been
/// entered.
#[verifier::ext_equal]
pub ghost struct Draft {
    pub drivers: Seq<DriverType>,
    pub lits: Seq<usize>,
    pub dffs: Seq<usize>,
    pub srams: Seq<usize>,
    pub macros: Seq<usize>,
    pub outs: Seq<usize>,
    pub entered: Set<usize>,
}

/// The draft of a graph.
pub open spec fn draft_of(aig: AIG, entered: Set<usize>) -> Draft {
    Draft {
        drivers: aig.drivers@,
        lits: aig.pin2aigpin_iv@,
        dffs: aig.dffs.keys(),
        srams: aig.srams.keys(),
        macros: aig.macros.keys(),
        outs: set_items(aig.primary_outputs),
        entered,
    }
}

/// The list with an item, which goes to the end unless it is there.
pub open spec fn listed(list: Seq<usize>, x: usize) -> Seq<usize> {
    if list.contains(x) {
        list
    } else {
        list.push(x)
    }
}

/// The drivers with those of a conjunction, or of "`a`, or not `b`", and its
/// literal.
pub open spec fn with_gate(drivers: Seq<DriverType>, or_not: bool, a: usize, b: usize) -> (Seq<DriverType>, usize) {
    let (d, o) = with_and(drivers, flip(a, or_not), b);
    (d, flip(o, or_not))
}

/// The drivers with a new one, and its literal.
pub open spec fn with_new(drivers: Seq<DriverType>, driver: DriverType) -> (Seq<DriverType>, usize) {
    (drivers.push(driver), (drivers.len() * 2) as usize)
}

/// The numbers from 0 on, below `n`.
pub open spec fn upto(n: nat) -> Seq<usize> {
    Seq::new(n, |i: int| i as usize)
}

impl Netlist {
    /// Is the pin an output of a flip-flop?
    pub open spec fn is_dff_out(self, p: usize) -> bool {
        !self.is_input(p) && self.cell(p) != 0 && self.kind(self.cell(p)) == CellKind::Dff
    }

    /// The draft when a pin is entered: a flip-flop gets its pin now.
    pub open spec fn enter(self, d: Draft, p: usize) -> Draft {
        let c = self.cell(p);
        let entered = d.entered.insert(p);
        if self.is_dff_out(p) {
            Draft { drivers: d.drivers.push(DriverType::DFF(c)), dffs: listed(d.dffs, c), entered, ..d }
        } else {
            Draft { entered, ..d }
        }
    }

    /// The drivers with those that a pin takes, and the literal of the pin. A
    /// flip-flop has the pin `q`.
    pub open spec fn turn(self, drivers: Seq<DriverType>, lits: Seq<usize>, p: usize, q: usize) -> (Seq<
        DriverType,
    >, usize) {
        let c = self.cell(p);
        if self.is_input(p) {
            if self.on_zero(p) {
                (drivers, 0)
            } else if self.on_one(p) {
                (drivers, 1)
            } else {
                (drivers, lits[self.root(p) as int])
            }
        } else if c == 0 {
            with_new(drivers, DriverType::InputPort(p))
        } else {
            let a = lit_or(lits, self.cell_pin(c, "A"@), 0);
            let b = lit_or(lits, self.cell_pin(c, "B"@), 0);
            match self.kind(c) {
                CellKind::Dff => {
                    let set = lit_or(lits, self.cell_pin(c, "S"@), 1);
                    let reset = lit_or(lits, self.cell_pin(c, "R"@), 1);
                    let (d, x) = with_gate(drivers, true, (q * 2) as usize, set);
                    with_gate(d, false, x, reset)
                },
                CellKind::Ram => with_new(drivers, DriverType::SRAM(c)),
                CellKind::Macro(_) => match macro_out(self, p) {
                    Some((_, slot)) => with_new(drivers, DriverType::Macro(c, slot)),
                    None => (drivers, usize::MAX),
                },
                CellKind::And(inv_a, inv_b, inv_y) => {
                    let (d, y) = with_and(drivers, flip(a, inv_a), flip(b, inv_b));
                    (d, flip(y, inv_y))
                },
                CellKind::Inv => (drivers, spec_invert(a)),
                CellKind::Buf => (drivers, a),
                _ => (drivers, usize::MAX),
            }
        }
    }

    /// The draft when a pin is left.
    pub open spec fn leave(self, d: Draft, p: usize, q: usize) -> Draft {
        let (drivers, o) = self.turn(d.drivers, d.lits, p, q);
        Draft {
            drivers,
            lits: d.lits.update(p as int, o),
            srams: match ram_out(self, p) {
                Some((c, _)) => listed(d.srams, c),
                None => d.srams,
            },
            macros: match macro_out(self, p) {
                Some((c, _)) => listed(d.macros, c),
                None => d.macros,
            },
            outs: if is_out_port(self, p) {
                listed(d.outs, o)
            } else {
                d.outs
            },
            ..d
        }
    }

    /// The draft behind a pin: it is entered, then the pins that it depends on
    /// are visited, then it is left.
    pub open spec fn visit(self, d: Draft, p: usize, fuel: nat) -> Draft
        decreases fuel, 0nat,
    {
        if d.entered.contains(p) || fuel == 0 {
            d
        } else {
            let inside = self.visit_all(self.enter(d, p), self.deps(p), (fuel - 1) as nat);
            self.leave(inside, p, d.drivers.len() as usize)
        }
    }

    /// The draft behind some pins, one after the other.
    pub open spec fn visit_all(self, d: Draft, pins: Seq<usize>, fuel: nat) -> Draft
        decreases fuel, pins.len() + 1,
    {
        if pins.len() == 0 {
            d
        } else {
            self.visit(self.visit_all(d, pins.drop_last(), fuel), pins.last(), fuel)
        }
    }

    /// The literals before any pin has one.
    pub open spec fn no_lits(self) -> Seq<usize> {
        Seq::new(self.num_pins(), |i: int| usize::MAX)
    }

    /// The drivers with the flags of those of some pins that are clocks.
    pub open spec fn flagged(self, drivers: Seq<DriverType>, pins: Seq<usize>) -> Seq<DriverType>
        decreases pins.len(),
    {
        if pins.len() == 0 {
            drivers
        } else {
            let d = self.flagged(drivers, pins.drop_last());
            if is_clock_name(self.name(pins.last())) {
                with_clock(self, d, self.no_lits(), pins.last(), false, true, self.num_pins()).0
            } else {
                d
            }
        }
    }

    /// The constant and the flags of the clocks of the cells below `k`, the
    /// design itself left out.
    pub open spec fn flags(self, k: nat) -> Seq<DriverType>
        decreases k,
    {
        if k <= 1 {
            seq![DriverType::Tie0]
        } else {
            let d = self.flags((k - 1) as nat);
            if is_clocked(self.kind((k - 1) as usize)) {
                self.flagged(d, self.pins((k - 1) as usize))
            } else {
                d
            }
        }
    }

    /// The draft before any pin is entered.
    pub open spec fn start(self, drivers: Seq<DriverType>) -> Draft {
        Draft {
            drivers,
            lits: self.no_lits(),
            dffs: Seq::empty(),
            srams: Seq::empty(),
            macros: Seq::empty(),
            outs: Seq::empty(),
            entered: Set::empty(),
        }
    }

    /// The draft in which all pins have their literals.
    pub open spec fn draft(self) -> Draft {
        self.visit_all(self.start(self.flags(self.num_cells())), upto(self.num_pins()), self.num_pins())
    }

    /// The drivers with those of the clocks among some pins of a cell, and the
    /// literal of the last clock with the given name.
    pub open spec fn scanned(
        self,
        drivers: Seq<DriverType>,
        lits: Seq<usize>,
        kind: CellKind,
        pins: Seq<usize>,
        name: Seq<char>,
    ) -> (Seq<DriverType>, usize)
        decreases pins.len(),
    {
        if pins.len() == 0 {
            (drivers, 0)
        } else {
            let p = pins.last();
            let rest = self.scanned(drivers, lits, kind, pins.drop_last(), name);
            if is_clock_of(kind, self.name(p)) {
                let (d, o) = with_clock(self, rest.0, lits, p, false, false, self.num_pins());
                (d, if self.name(p) == name { o } else { rest.1 })
            } else {
                rest
            }
        }
    }

    /// The drivers with those of the data and the enable of a flip-flop that
    /// has the given clock.
    pub open spec fn with_dff(self, drivers: Seq<DriverType>, lits: Seq<usize>, c: usize, clk: usize) -> Seq<
        DriverType,
    > {
        let data = lit_or(lits, self.cell_pin(c, "D"@), 0);
        let set = lit_or(lits, self.cell_pin(c, "S"@), 1);
        let reset = lit_or(lits, self.cell_pin(c, "R"@), 1);
        let (d1, x) = with_gate(drivers, true, data, set);
        let (d2, en) = with_gate(d1, true, clk, set);
        let (d3, _) = with_gate(d2, false, x, reset);
        with_gate(d3, true, en, reset).0
    }

    /// The drivers with those of the first write enables of an SRAM that has
    /// the given write clock.
    pub open spec fn with_enables(self, drivers: Seq<DriverType>, lits: Seq<usize>, c: usize, clk: usize,
        n: nat) -> Seq<
        DriverType,
    >
        decreases n,
    {
        if n == 0 {
            drivers
        } else {
            let d = self.with_enables(drivers, lits, c, clk, (n - 1) as nat);
            with_and(d, lit_or(lits, self.cell_bit(c, "PORT_W_WR_EN"@, (n - 1) as usize), 0), clk).0
        }
    }

    /// The drivers with those of the inputs of a cell. Macros that are not
    /// listed take none.
    pub open spec fn wired(self, drivers: Seq<DriverType>, lits: Seq<usize>, macros: Seq<usize>, c: usize) -> Seq<
        DriverType,
    > {
        let kind = self.kind(c);
        let pins = self.pins(c);
        match kind {
            CellKind::Dff => {
                let (d, clk) = self.scanned(drivers, lits, kind, pins, "CLK"@);
                self.with_dff(d, lits, c, clk)
            },
            CellKind::Ram => {
                let (d, clk) = self.scanned(drivers, lits, kind, pins, "PORT_W_CLK"@);
                self.with_enables(d, lits, c, clk, 32)
            },
            CellKind::Macro(_) => if macros.contains(c) {
                self.scanned(drivers, lits, kind, pins, "CLK"@).0
            } else {
                drivers
            },
            _ => drivers,
        }
    }

    /// The drivers with those of the inputs of the cells below `k`.
    pub open spec fn wired_all(self, d: Draft, k: nat) -> Seq<DriverType>
        decreases k,
    {
        if k == 0 {
            d.drivers
        } else {
            self.wired(self.wired_all(d, (k - 1) as nat), d.lits, d.macros, (k - 1) as usize)
        }
    }

    /// The SRAMs with those below `k` of which no output is read.
    pub open spec fn rams_listed(self, srams: Seq<usize>, k: nat) -> Seq<usize>
        decreases k,
    {
        if k == 0 {
            srams
        } else {
            let rest = self.rams_listed(srams, (k - 1) as nat);
            if self.kind((k - 1) as usize) == CellKind::Ram {
                listed(rest, (k - 1) as usize)
            } else {
                rest
            }
        }
    }

    /// Are the pins numbered, and the tables ordered, as the walk over the
    /// netlist meets them?
    ///
    /// Clock flags come first. Then the pins of the netlist are visited depth
    /// first, from the lowest on: flip-flops are listed and numbered where the
    /// walk enters an output of theirs, all else where it leaves a pin. Then
    /// come the gates at the inputs of the cells, and SRAMs that nothing reads.
    pub open spec fn is_drawn(self, aig: AIG) -> bool {
        let d = self.draft();
        &&& aig.pin2aigpin_iv@ == d.lits
        &&& aig.drivers@ == self.wired_all(d, self.num_cells())
        &&& aig.dffs.keys() == d.dffs
        &&& aig.srams.keys() == self.rams_listed(d.srams, self.num_cells())
        &&& aig.macros.keys() == d.macros
        &&& set_items(aig.primary_outputs) == d.outs
    }
}

/// Is the second graph what the first one becomes when a pin with the literal
/// `o` is left?
#[verifier::opaque]
pub open spec fn is_turn(nl: Netlist, a0: AIG, a1: AIG, p: usize, q: usize, o: usize) -> bool {
    &&& (a1.drivers@, o) == nl.turn(a0.drivers@, a0.pin2aigpin_iv@, p, q)
    &&& a1.dffs.keys() == a0.dffs.keys()
    &&& a1.srams.keys() == (match ram_out(nl, p) {
        Some((c, _)) => listed(a0.srams.keys(), c),
        None => a0.srams.keys(),
    })
    &&& a1.macros.keys() == (match macro_out(nl, p) {
        Some((c, _)) => listed(a0.macros.keys(), c),
        None => a0.macros.keys(),
    })
    &&& set_items(a1.primary_outputs) == (if is_out_port(nl, p) {
        listed(set_items(a0.primary_outputs), o)
    } else {
        set_items(a0.primary_outputs)
    })
}

/// Is the second graph what the first one becomes when a cell is connected?
pub open spec fn is_wired(nl: Netlist, a0: AIG, a1: AIG, c: usize) -> bool {
    &&& a1.drivers@ == nl.wired(a0.drivers@, a0.pin2aigpin_iv@, a0.macros.keys(), c)
    &&& a1.pin2aigpin_iv@ == a0.pin2aigpin_iv@
    &&& a1.primary_outputs == a0.primary_outputs
    &&& a1.dffs.keys() == a0.dffs.keys()
    &&& a1.macros.keys() == a0.macros.keys()
    &&& a1.srams.keys() == (if nl.kind(c) == CellKind::Ram {
        listed(a0.srams.keys(), c)
    } else {
        a0.srams.keys()
    })
}

} // verus!
