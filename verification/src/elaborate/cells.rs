//! The library cells that netlists are made of.

use crate::macros::MacroKind;
use crate::macros::laws::law_slots_in_range;
use crate::netlist::{Direction, Netlist};
use crate::text::same_str;
use vstd::prelude::*;

verus! {

/// Why a netlist has no and-inverter graph.
#[derive(Debug, Clone, Copy, PartialEq, Eq, Structural)]
pub enum BuildError {
    /// The cell is a DSP whose configuration is not part of its name.
    UnmangledDsp(usize),
    /// The pin is on a clock path, on which only inverters, buffers and clock
    /// gates with their proper input pins may be.
    ClockPath(usize),
    /// The pin is on a clock path that leads to no clock.
    ClockLoop(usize),
    /// The cell is on a clock path, and lacks an input pin.
    ClockCell(usize),
    /// The cell is a gate or a clock gate, and lacks an input pin.
    MissingPin(usize),
    /// The cell is a flip-flop without an output.
    NoOutput(usize),
    /// The pin carries a gated clock, but is used in logic.
    GatedClock(usize),
    /// There is a combinational loop around the pin.
    CombLoop(usize),
    /// The cell is a latch.
    Latch(usize),
    /// The pin is driven by a macro that has no such output.
    BadMacroPin(usize),
    /// The pin is no pin of an SRAM.
    BadRamPin(usize),
    /// The cell is of an unknown type.
    UnknownCell(usize),
    /// The graph is too large.
    TooLarge,
}

/// What a library cell is.
#[derive(Debug, Clone, Copy, PartialEq, Eq, Structural)]
pub enum CellKind {
    /// A D flip-flop, with or without set and reset.
    Dff,
    /// A latch, which is not supported.
    Latch,
    /// A synchronous SRAM.
    Ram,
    /// A word-level macro.
    Macro(MacroKind),
    /// A DSP whose configuration is lost.
    BareDsp,
    /// A clock gate.
    ClockGate,
    /// An and gate, whose inputs and output may be inverted.
    And(bool, bool, bool),
    Inv,
    Buf,
    Unknown,
}

/// What the library cell with the given name is.
pub open spec fn cell_kind(name: Seq<char>) -> CellKind {
    if name == "DFF"@ || name == "DFFSR"@ {
        CellKind::Dff
    } else if name == "LATCH"@ {
        CellKind::Latch
    } else if name == "$__RAMGEM_SYNC_"@ {
        CellKind::Ram
    } else if name == "DSP48E2"@ {
        CellKind::BareDsp
    } else if MacroKind::spec_from_celltype(name) is Some {
        CellKind::Macro(MacroKind::spec_from_celltype(name).unwrap())
    } else if name == "CKLNQD"@ {
        CellKind::ClockGate
    } else if name == "AND2_00_0"@ {
        CellKind::And(false, false, false)
    } else if name == "AND2_01_0"@ {
        CellKind::And(false, true, false)
    } else if name == "AND2_10_0"@ {
        CellKind::And(true, false, false)
    } else if name == "AND2_11_0"@ {
        CellKind::And(true, true, false)
    } else if name == "AND2_11_1"@ {
        CellKind::And(true, true, true)
    } else if name == "INV"@ {
        CellKind::Inv
    } else if name == "BUF"@ {
        CellKind::Buf
    } else {
        CellKind::Unknown
    }
}

/// What the library cell with the given name is.
pub fn classify(name: &str) -> (k: CellKind)
    ensures
        k == cell_kind(name@),
{
    if same_str(name, "DFF") || same_str(name, "DFFSR") {
        return CellKind::Dff;
    }
    if same_str(name, "LATCH") {
        return CellKind::Latch;
    }
    if same_str(name, "$__RAMGEM_SYNC_") {
        return CellKind::Ram;
    }
    if same_str(name, "DSP48E2") {
        return CellKind::BareDsp;
    }
    if let Some(kind) = MacroKind::from_celltype(name) {
        return CellKind::Macro(kind);
    }
    if same_str(name, "CKLNQD") {
        CellKind::ClockGate
    } else if same_str(name, "AND2_00_0") {
        CellKind::And(false, false, false)
    } else if same_str(name, "AND2_01_0") {
        CellKind::And(false, true, false)
    } else if same_str(name, "AND2_10_0") {
        CellKind::And(true, false, false)
    } else if same_str(name, "AND2_11_0") {
        CellKind::And(true, true, false)
    } else if same_str(name, "AND2_11_1") {
        CellKind::And(true, true, true)
    } else if same_str(name, "INV") {
        CellKind::Inv
    } else if same_str(name, "BUF") {
        CellKind::Buf
    } else {
        CellKind::Unknown
    }
}

/// Does the kind have a clock to trace?
pub open spec fn is_clocked(k: CellKind) -> bool {
    match k {
        CellKind::Dff | CellKind::Ram => true,
        CellKind::Macro(m) => !(m is Carry4),
        _ => false,
    }
}

/// Is this the name of a clock pin?
pub open spec fn is_clock_name(name: Seq<char>) -> bool {
    name == "CLK"@ || name == "PORT_R_CLK"@ || name == "PORT_W_CLK"@
}

/// Those of some pins that have one of two names.
pub open spec fn pins_named(nl: Netlist, pins: Seq<usize>, a: Seq<char>, b: Seq<char>) -> Seq<usize>
    decreases pins.len(),
{
    if pins.len() == 0 {
        Seq::empty()
    } else {
        let rest = pins_named(nl, pins.drop_last(), a, b);
        if nl.name(pins.last()) == a || nl.name(pins.last()) == b {
            rest.push(pins.last())
        } else {
            rest
        }
    }
}

/// Does the pin feed an input slot of a macro?
pub open spec fn feeds_slot(nl: Netlist, kind: MacroKind, p: usize, s: int) -> bool {
    !(!(kind is Carry4) && nl.name(p) == "CLK"@) && kind.spec_input_slot(nl.name(p), nl.bit(p)) == Some(s as usize)
}

/// The last of some pins that feeds an input slot of a macro.
pub open spec fn slot_pin(nl: Netlist, kind: MacroKind, pins: Seq<usize>, s: int) -> Option<usize>
    decreases pins.len(),
{
    if pins.len() == 0 {
        None
    } else if feeds_slot(nl, kind, pins.last(), s) {
        Some(pins.last())
    } else {
        slot_pin(nl, kind, pins.drop_last(), s)
    }
}

/// The pin that feeds a slot is a pin.
pub(super) proof fn lemma_slot_pin(nl: Netlist, kind: MacroKind, c: usize, pins: Seq<usize>, s: int)
    requires
        forall|i: int| 0 <= i < pins.len() ==> #[trigger] pins[i] < nl.num_pins(),
    ensures
        slot_pin(nl, kind, pins, s) matches Some(p) ==> p < nl.num_pins(),
    decreases pins.len(),
{
    if pins.len() > 0 {
        assert(pins.last() == pins[pins.len() - 1]);
        if !feeds_slot(nl, kind, pins.last(), s) {
            assert forall|i: int| 0 <= i < pins.drop_last().len() implies #[trigger] pins.drop_last()[i]
                < nl.num_pins() by {
                assert(pins.drop_last()[i] == pins[i]);
            }
            lemma_slot_pin(nl, kind, c, pins.drop_last(), s);
        }
    }
}

/// Finds the last pin of a cell that feeds an input slot.
pub(super) fn find_slot_pin(nl: &Netlist, c: usize, kind: MacroKind, slot: usize) -> (r: Option<usize>)
    requires
        nl.wf(),
        c < nl.num_cells(),
    ensures
        r == slot_pin(*nl, kind, nl.pins(c), slot as int),
        r matches Some(p) ==> p < nl.num_pins(),
{
    let mut r: Option<usize> = None;
    let n = nl.cell_pins[c].len();
    let clocked = kind.has_clock();
    let mut i: usize = 0;
    while i < n
        invariant
            nl.wf(),
            c < nl.num_cells(),
            clocked == !(kind is Carry4),
            n == nl.pins(c).len(),
            i <= n,
            r == slot_pin(*nl, kind, nl.pins(c).take(i as int), slot as int),
            r matches Some(p) ==> p < nl.num_pins(),
        decreases n - i,
    {
        let p = nl.cell_pins[c][i];
        assert(nl.cell_pins@[c as int]@[i as int] < nl.num_pins());
        assert(nl.pins(c).take(i + 1).drop_last() =~= nl.pins(c).take(i as int));
        assert(nl.pins(c).take(i + 1).last() == p);
        if !(clocked && nl.is_named(p, "CLK")) {
            if let Some(s) = kind.input_slot(nl.pinnames[p].name.as_str(), nl.bit_of(p)) {
                if s == slot {
                    r = Some(p);
                }
            }
        }
        i += 1;
    }
    assert(nl.pins(c).take(n as int) =~= nl.pins(c));
    r
}

/// The pins of a cell that feed the given input slots of a macro.
pub open spec fn slot_pins(nl: Netlist, kind: MacroKind, pins: Seq<usize>, slots: Seq<usize>) -> Seq<usize>
    decreases slots.len(),
{
    if slots.len() == 0 {
        Seq::empty()
    } else {
        let rest = slot_pins(nl, kind, pins, slots.drop_last());
        match slot_pin(nl, kind, pins, slots.last() as int) {
            Some(p) => rest.push(p),
            None => rest,
        }
    }
}

/// The pins of a cell that an output slot depends on combinationally, if it is
/// a macro.
pub open spec fn macro_deps(nl: Netlist, c: usize, slot: usize) -> Seq<usize> {
    match nl.kind(c) {
        CellKind::Macro(k) => slot_pins(nl, k, nl.pins(c), k.spec_comb_fanin(slot)),
        _ => Seq::empty(),
    }
}

/// The pin of a slot is among the pins of the slots.
pub(super) proof fn lemma_slot_pins(nl: Netlist, kind: MacroKind, pins: Seq<usize>, slots: Seq<usize>, s: usize,
    p: usize)
    requires
        slots.contains(s),
        slot_pin(nl, kind, pins, s as int) == Some(p),
    ensures
        slot_pins(nl, kind, pins, slots).contains(p),
    decreases slots.len(),
{
    let all = slot_pins(nl, kind, pins, slots);
    let rest = slot_pins(nl, kind, pins, slots.drop_last());
    if slots.last() == s {
        assert(all[rest.len() as int] == p);
    } else {
        let k = slots.index_of(s);
        assert(slots.drop_last()[k] == s);
        lemma_slot_pins(nl, kind, pins, slots.drop_last(), s, p);
        assert(all[rest.index_of(p)] == p);
    }
}

/// The pins that are there.
pub open spec fn present(a: Option<usize>, b: Option<usize>) -> Seq<usize> {
    match (a, b) {
        (Some(p), Some(q)) => seq![p, q],
        (Some(p), None) => seq![p],
        (None, Some(q)) => seq![q],
        (None, None) => Seq::empty(),
    }
}

impl Netlist {
    /// What a cell is.
    pub open spec fn kind(self, c: usize) -> CellKind {
        cell_kind(self.celltype(c))
    }

    /// The cell of a pin.
    pub open spec fn cell(self, p: usize) -> usize {
        self.pin2cell@[p as int]
    }

    /// Is the pin an input that is not tied to a constant?
    pub open spec fn is_driven(self, p: usize) -> bool {
        self.is_input(p) && !self.on_zero(p) && !self.on_one(p)
    }

    /// The pins whose values the value of a pin depends on: for an input, the
    /// pin that drives it; for an output, the inputs that it combines.
    pub open spec fn deps(self, p: usize) -> Seq<usize> {
        let c = self.cell(p);
        if self.is_input(p) {
            if self.is_driven(p) {
                seq![self.root(p)]
            } else {
                Seq::empty()
            }
        } else if c == 0 {
            Seq::empty()
        } else {
            match self.kind(c) {
                CellKind::Dff => pins_named(self, self.pins(c), "S"@, "R"@),
                CellKind::ClockGate => present(self.cell_pin(c, "CP"@), self.cell_pin(c, "E"@)),
                CellKind::And(_, _, _)
                | CellKind::Inv
                | CellKind::Buf
                | CellKind::Unknown => present(self.cell_pin(c, "A"@), self.cell_pin(c, "B"@)),
                CellKind::Macro(k) => match k.spec_output_slot(self.name(p), self.bit(p)) {
                    Some(slot) => macro_deps(self, c, slot),
                    None => Seq::empty(),
                },
                _ => Seq::empty(),
            }
        }
    }

    /// What a cell is.
    pub fn kind_of(&self, c: usize) -> (k: CellKind)
        requires
            c < self.num_cells(),
        ensures
            k == self.kind(c),
    {
        classify(self.celltypes[c].as_str())
    }

    /// Is the pin named so?
    pub fn is_named(&self, p: usize, name: &str) -> (b: bool)
        requires
            self.wf(),
            p < self.num_pins(),
        ensures
            b == (self.name(p) == name@),
    {
        same_str(self.pinnames[p].name.as_str(), name)
    }

    /// The bit of a bus pin.
    pub fn bit_of(&self, p: usize) -> (b: Option<usize>)
        requires
            self.wf(),
            p < self.num_pins(),
        ensures
            b == self.bit(p),
    {
        match self.pinnames[p].bit {
            Some(b) => Some(bit_index(b)),
            None => None,
        }
    }

    /// Is the pin an input that is not tied to a constant?
    pub fn driven(&self, p: usize) -> (b: bool)
        requires
            self.wf(),
            p < self.num_pins(),
        ensures
            b == self.is_driven(p),
    {
        let net = self.pin2net[p];
        let zero = match self.net_zero {
            Some(n) => n == net,
            None => false,
        };
        let one = match self.net_one {
            Some(n) => n == net,
            None => false,
        };
        self.pindirect[p] == Direction::I && !zero && !one
    }

    /// The pins whose values the value of a pin depends on.
    pub fn list_deps(&self, p: usize) -> (v: Vec<usize>)
        requires
            self.wf(),
            p < self.num_pins(),
        ensures
            v@ == self.deps(p),
            forall|i: int| 0 <= i < v@.len() ==> #[trigger] v@[i] < self.num_pins(),
    {
        let c = self.pin2cell[p];
        let mut v: Vec<usize> = Vec::new();
        if self.pindirect[p] == Direction::I {
            if self.driven(p) {
                v.push(self.net_roots[self.pin2net[p]]);
            }
        } else if c != 0 {
            match self.kind_of(c) {
                CellKind::Dff => {
                    let n = self.cell_pins[c].len();
                    let mut i: usize = 0;
                    while i < n
                        invariant
                            self.wf(),
                            c < self.num_cells(),
                            n == self.pins(c).len(),
                            i <= n,
                            v@ == pins_named(*self, self.pins(c).take(i as int), "S"@, "R"@),
                            forall|i: int| 0 <= i < v@.len() ==> #[trigger] v@[i] < self.num_pins(),
                        decreases n - i,
                    {
                        let q = self.cell_pins[c][i];
                        assert(self.cell_pins@[c as int]@[i as int] < self.num_pins());
                        assert(self.pins(c).take(i + 1).drop_last() =~= self.pins(c).take(i as int));
                        if self.is_named(q, "S") || self.is_named(q, "R") {
                            v.push(q);
                        }
                        i += 1;
                    }
                    assert(self.pins(c).take(n as int) =~= self.pins(c));
                },
                CellKind::ClockGate => {
                    if let Some(q) = self.find_pin(c, "CP") {
                        v.push(q);
                    }
                    if let Some(q) = self.find_pin(c, "E") {
                        v.push(q);
                    }
                },
                CellKind::And(_, _, _) | CellKind::Inv | CellKind::Buf | CellKind::Unknown => {
                    if let Some(q) = self.find_pin(c, "A") {
                        v.push(q);
                    }
                    if let Some(q) = self.find_pin(c, "B") {
                        v.push(q);
                    }
                },
                CellKind::Macro(k) => {
                    if let Some(slot) = k.output_slot(self.pinnames[p].name.as_str(), self.bit_of(p)) {
                        proof {
                            law_slots_in_range(k, self.name(p), self.bit(p));
                        }
                        let slots = k.comb_fanin_of_output(slot);
                        let n = slots.len();
                        let mut i: usize = 0;
                        assert(slots@.take(0) =~= Seq::<usize>::empty());
                        while i < n
                            invariant
                                self.wf(),
                                c < self.num_cells(),
                                n == slots@.len(),
                                i <= n,
                                v@ == slot_pins(*self, k, self.pins(c), slots@.take(i as int)),
                                forall|i: int| 0 <= i < v@.len() ==> #[trigger] v@[i] < self.num_pins(),
                            decreases n - i,
                        {
                            assert(slots@.take(i + 1).drop_last() =~= slots@.take(i as int));
                            assert(slots@.take(i + 1).last() == slots@[i as int]);
                            if let Some(q) = find_slot_pin(self, c, k, slots[i]) {
                                v.push(q);
                            }
                            i += 1;
                        }
                        assert(slots@.take(n as int) =~= slots@);
                    }
                },
                _ => {},
            }
        }
        assert(v@ =~= self.deps(p));
        v
    }
}

/// A bit number as an index.
#[verifier::truncate]
fn bit_index(b: isize) -> (r: usize)
    ensures
        r == b as usize,
{
    b as usize
}

} // verus!
