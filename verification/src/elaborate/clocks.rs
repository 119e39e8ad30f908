//! Clock tracing.

use super::cells::{BuildError, CellKind};
use crate::aig::{and_lit, defined, with_and, with_driver, DriverType, AIG, MAX_AIGPINS};
use crate::netlist::{Direction, Netlist};
use vstd::prelude::*;

verus! {

/// Where a pin of a clock path leads to.
#[derive(Debug, Clone, Copy, PartialEq, Eq, Structural)]
pub enum ClockStep {
    /// To a constant: the clock dangles.
    Tied,
    /// To a clock port, which is the pin itself.
    Port,
    /// To the given pin, possibly inverted.
    To(usize, bool),
    /// To the first of the given pins, gated by the second one.
    Gated(usize, usize),
    /// Nowhere, because the cell of the given output pin is none for a clock.
    Stuck(usize),
    /// Nowhere, because an input pin is missing.
    Missing,
}

/// Is the pin no input of a cell on a clock path?
pub open spec fn is_odd_input(nl: Netlist, p: usize) -> bool {
    nl.is_input(p) && nl.name(p) != "A"@ && nl.name(p) != "CP"@ && nl.name(p) != "E"@
}

/// Is there such an input among some pins?
pub open spec fn has_odd_input(nl: Netlist, pins: Seq<usize>) -> bool {
    exists|i: int| 0 <= i < pins.len() && is_odd_input(nl, #[trigger] pins[i])
}

/// The last input among some pins that has the given name.
pub open spec fn last_input(nl: Netlist, pins: Seq<usize>, name: Seq<char>) -> Option<usize>
    decreases pins.len(),
{
    if pins.len() == 0 {
        None
    } else if nl.is_input(pins.last()) && nl.name(pins.last()) == name {
        Some(pins.last())
    } else {
        last_input(nl, pins.drop_last(), name)
    }
}

/// Where a pin of a clock path leads to.
pub open spec fn clock_step(nl: Netlist, p: usize) -> ClockStep {
    let c = nl.cell(p);
    let k = nl.kind(c);
    if nl.is_input(p) {
        if nl.is_driven(p) {
            ClockStep::To(nl.root(p), false)
        } else {
            ClockStep::Tied
        }
    } else if c == 0 {
        ClockStep::Port
    } else if k != CellKind::Inv && k != CellKind::Buf && k != CellKind::ClockGate {
        ClockStep::Stuck(p)
    } else if has_odd_input(nl, nl.pins(c)) {
        ClockStep::Stuck(p)
    } else if k == CellKind::ClockGate {
        match (last_input(nl, nl.pins(c), "CP"@), last_input(nl, nl.pins(c), "E"@)) {
            (Some(cp), Some(en)) => ClockStep::Gated(cp, en),
            _ => ClockStep::Missing,
        }
    } else {
        match last_input(nl, nl.pins(c), "A"@) {
            Some(a) => ClockStep::To(a, k == CellKind::Inv),
            None => ClockStep::Missing,
        }
    }
}

/// What is wrong with the clock path from a pin, of which the first `fuel`
/// pins are looked at.
pub open spec fn clock_fault(nl: Netlist, p: usize, fuel: nat) -> Option<BuildError>
    decreases fuel,
{
    if fuel == 0 {
        Some(BuildError::ClockLoop(p))
    } else {
        match clock_step(nl, p) {
            ClockStep::Tied => None,
            ClockStep::Port => None,
            ClockStep::To(q, _) => clock_fault(nl, q, (fuel - 1) as nat),
            ClockStep::Gated(cp, _) => clock_fault(nl, cp, (fuel - 1) as nat),
            ClockStep::Stuck(q) => Some(BuildError::ClockPath(q)),
            ClockStep::Missing => Some(BuildError::ClockCell(nl.cell(p))),
        }
    }
}

/// What can be wrong with a clock path.
pub(crate) proof fn lemma_clock_fault(nl: Netlist, p: usize, fuel: nat)
    ensures
        clock_fault(nl, p, fuel) matches Some(e) ==> e is ClockLoop || e is ClockPath || e is ClockCell,
    decreases fuel,
{
    if fuel > 0 {
        match clock_step(nl, p) {
            ClockStep::To(q, _) => {
                lemma_clock_fault(nl, q, (fuel - 1) as nat);
            },
            ClockStep::Gated(cp, _) => {
                lemma_clock_fault(nl, cp, (fuel - 1) as nat);
            },
            _ => {},
        }
    }
}

/// The number of an edge.
pub open spec fn edge_number(negedge: bool) -> u8 {
    if negedge {
        1
    } else {
        0
    }
}

/// A clock path: the clock port at its end with the edge that counts there, if
/// it does not dangle, and the enables along it, those next to the port first.
pub ghost struct ClockPath {
    pub source: Option<(usize, bool)>,
    pub enables: Seq<usize>,
}

/// The clock path from a pin.
pub open spec fn clock_path(nl: Netlist, p: usize, negedge: bool, fuel: nat) -> ClockPath
    decreases fuel,
{
    let none = ClockPath { source: None, enables: Seq::empty() };
    if fuel == 0 {
        none
    } else {
        let f = (fuel - 1) as nat;
        match clock_step(nl, p) {
            ClockStep::Port => ClockPath { source: Some((p, negedge)), enables: Seq::empty() },
            ClockStep::To(q, inv) => clock_path(nl, q, negedge != inv, f),
            ClockStep::Gated(cp, en) => {
                let rest = clock_path(nl, cp, negedge, f);
                ClockPath { source: rest.source, enables: rest.enables.push(en) }
            },
            _ => none,
        }
    }
}

/// Is `o` the literal of a clock's flag, or zero if there is no clock?
pub open spec fn flag_lit(drivers: Seq<DriverType>, source: Option<(usize, bool)>, o: usize) -> bool {
    match source {
        None => o == 0,
        Some((port, negedge)) => o % 2 == 0 && o / 2 < drivers.len() && drivers[(o / 2) as int]
            == DriverType::InputClockFlag(port, edge_number(negedge)),
    }
}

/// Is every literal the conjunction of the one before it and the literal of the
/// next enable?
pub open spec fn conjoined(drivers: Seq<DriverType>, lits: Seq<usize>, enables: Seq<usize>, w: Seq<usize>) -> bool {
    &&& w.len() == enables.len() + 1
    &&& forall|i: int| 0 <= i < enables.len() ==> defined(lits[#[trigger] enables[i] as int])
    &&& forall|i: int|
        0 <= i < enables.len() ==> and_lit(drivers, w[i], lits[#[trigger] enables[i] as int], w[i + 1])
}

/// Is `o` the literal that tells whether the clock at a pin is active? It is
/// that of the flag of the clock port at the end of the path, together with
/// all enables along it; clock gates may be passed over, too.
pub open spec fn clock_lit(
    drivers: Seq<DriverType>,
    lits: Seq<usize>,
    ungated: bool,
    path: ClockPath,
    o: usize,
) -> bool {
    if ungated {
        flag_lit(drivers, path.source, o)
    } else {
        exists|w: Seq<usize>| #[trigger]
            conjoined(drivers, lits, path.enables, w) && flag_lit(drivers, path.source, w[0]) && o == w.last()
    }
}

/// The drivers with those that tell whether the clock at a pin is active, and
/// the literal that tells it. The flag of the clock port comes first, then the
/// conjunctions with the enables from the port on.
pub open spec fn with_clock(
    nl: Netlist,
    drivers: Seq<DriverType>,
    lits: Seq<usize>,
    p: usize,
    negedge: bool,
    ungated: bool,
    fuel: nat,
) -> (Seq<DriverType>, usize)
    decreases fuel,
{
    if fuel == 0 {
        (drivers, 0)
    } else {
        let f = (fuel - 1) as nat;
        match clock_step(nl, p) {
            ClockStep::Port => with_driver(drivers, DriverType::InputClockFlag(p, edge_number(negedge))),
            ClockStep::To(q, inv) => with_clock(nl, drivers, lits, q, negedge != inv, ungated, f),
            ClockStep::Gated(cp, en) => {
                let rest = with_clock(nl, drivers, lits, cp, negedge, ungated, f);
                if ungated {
                    rest
                } else {
                    with_and(rest.0, rest.1, lits[en as int])
                }
            },
            _ => (drivers, 0),
        }
    }
}

/// More pins do not change the literals of clocks.
pub(crate) proof fn lemma_clock_kept(
    d0: Seq<DriverType>,
    d1: Seq<DriverType>,
    lits: Seq<usize>,
    ungated: bool,
    path: ClockPath,
    o: usize,
)
    requires
        d0.is_prefix_of(d1),
        clock_lit(d0, lits, ungated, path, o),
    ensures
        clock_lit(d1, lits, ungated, path, o),
{
    if !ungated {
        let w = choose|w: Seq<usize>| #[trigger]
            conjoined(d0, lits, path.enables, w) && flag_lit(d0, path.source, w[0]) && o == w.last();
        assert(conjoined(d1, lits, path.enables, w));
    }
}

/// Where a pin of a clock path leads to.
pub fn find_clock_step(nl: &Netlist, p: usize) -> (r: ClockStep)
    requires
        nl.wf(),
        p < nl.num_pins(),
    ensures
        r == clock_step(*nl, p),
        r matches ClockStep::To(q, _) ==> q < nl.num_pins(),
        r matches ClockStep::Gated(cp, en) ==> cp < nl.num_pins() && en < nl.num_pins(),
{
    let c = nl.pin2cell[p];
    if nl.pindirect[p] == Direction::I {
        if nl.driven(p) {
            return ClockStep::To(nl.net_roots[nl.pin2net[p]], false);
        }
        return ClockStep::Tied;
    }
    if c == 0 {
        return ClockStep::Port;
    }
    let k = nl.kind_of(c);
    if k != CellKind::Inv && k != CellKind::Buf && k != CellKind::ClockGate {
        return ClockStep::Stuck(p);
    }
    let mut odd = false;
    let mut pin_a: Option<usize> = None;
    let mut pin_cp: Option<usize> = None;
    let mut pin_en: Option<usize> = None;
    let n = nl.cell_pins[c].len();
    let mut i: usize = 0;
    while i < n
        invariant
            nl.wf(),
            c < nl.num_cells(),
            n == nl.pins(c).len(),
            i <= n,
            odd == has_odd_input(*nl, nl.pins(c).take(i as int)),
            pin_a == last_input(*nl, nl.pins(c).take(i as int), "A"@),
            pin_cp == last_input(*nl, nl.pins(c).take(i as int), "CP"@),
            pin_en == last_input(*nl, nl.pins(c).take(i as int), "E"@),
            pin_a matches Some(q) ==> q < nl.num_pins(),
            pin_cp matches Some(q) ==> q < nl.num_pins(),
            pin_en matches Some(q) ==> q < nl.num_pins(),
        decreases n - i,
    {
        let q = nl.cell_pins[c][i];
        assert(nl.cell_pins@[c as int]@[i as int] < nl.num_pins());
        assert(nl.pins(c).take(i + 1).drop_last() =~= nl.pins(c).take(i as int));
        proof {
            let seen = nl.pins(c).take(i as int);
            let next = nl.pins(c).take(i + 1);
            assert(next[i as int] == q);
            if odd {
                let k = choose|k: int| 0 <= k < seen.len() && is_odd_input(*nl, #[trigger] seen[k]);
                assert(next[k] == seen[k]);
            }
            if has_odd_input(*nl, next) && !is_odd_input(*nl, q) {
                let k = choose|k: int| 0 <= k < next.len() && is_odd_input(*nl, #[trigger] next[k]);
                assert(seen[k] == next[k]);
            }
        }
        if nl.pindirect[q] == Direction::I {
            let a = nl.is_named(q, "A");
            let cp = nl.is_named(q, "CP");
            let e = nl.is_named(q, "E");
            if a {
                pin_a = Some(q);
            }
            if cp {
                pin_cp = Some(q);
            }
            if e {
                pin_en = Some(q);
            }
            if !a && !cp && !e {
                odd = true;
            }
        }
        i += 1;
    }
    assert(nl.pins(c).take(n as int) =~= nl.pins(c));
    if odd {
        return ClockStep::Stuck(p);
    }
    if k == CellKind::ClockGate {
        match (pin_cp, pin_en) {
            (Some(cp), Some(en)) => ClockStep::Gated(cp, en),
            _ => ClockStep::Missing,
        }
    } else {
        match pin_a {
            Some(a) => ClockStep::To(a, k == CellKind::Inv),
            None => ClockStep::Missing,
        }
    }
}

/// The literal of a clock without enables.
proof fn lemma_ungated(drivers: Seq<DriverType>, lits: Seq<usize>, source: Option<(usize, bool)>, o: usize)
    requires
        flag_lit(drivers, source, o),
    ensures
        clock_lit(drivers, lits, false, ClockPath { source, enables: Seq::empty() }, o),
{
    let w = seq![o];
    let path = ClockPath { source, enables: Seq::empty() };
    assert(conjoined(drivers, lits, path.enables, w));
    assert(w.last() == o);
}

/// The literal of a clock with one more enable.
proof fn lemma_gated(
    d0: Seq<DriverType>,
    d1: Seq<DriverType>,
    lits: Seq<usize>,
    path: ClockPath,
    ck: usize,
    en: usize,
    o: usize,
)
    requires
        d0.is_prefix_of(d1),
        clock_lit(d0, lits, false, path, ck),
        defined(lits[en as int]),
        and_lit(d1, ck, lits[en as int], o),
    ensures
        clock_lit(d1, lits, false, ClockPath { source: path.source, enables: path.enables.push(en) }, o),
{
    lemma_clock_kept(d0, d1, lits, false, path, ck);
    let w = choose|w: Seq<usize>| #[trigger]
        conjoined(d1, lits, path.enables, w) && flag_lit(d1, path.source, w[0]) && ck == w.last();
    let v = w.push(o);
    let ens = path.enables.push(en);
    assert forall|i: int| 0 <= i < ens.len() implies and_lit(d1, v[i], lits[#[trigger] ens[i] as int], v[i + 1]) by {
        if i < path.enables.len() {
            assert(and_lit(d1, w[i], lits[path.enables[i] as int], w[i + 1]));
        }
    }
    assert forall|i: int| 0 <= i < ens.len() implies defined(lits[#[trigger] ens[i] as int]) by {
        if i < path.enables.len() {
            assert(defined(lits[path.enables[i] as int]));
        }
    }
    let next = ClockPath { source: path.source, enables: ens };
    assert(conjoined(d1, lits, next.enables, v));
    assert(v[0] == w[0]);
    assert(v.last() == o);
    assert(flag_lit(d1, next.source, v[0]));
}

/// The literal of a clock comes with that of its flag.
proof fn lemma_flag_of_clock(
    drivers: Seq<DriverType>,
    lits: Seq<usize>,
    ungated: bool,
    path: ClockPath,
    o: usize,
) -> (f: usize)
    requires
        clock_lit(drivers, lits, ungated, path, o),
    ensures
        flag_lit(drivers, path.source, f),
{
    if ungated {
        o
    } else {
        let w = choose|w: Seq<usize>| #[trigger]
            conjoined(drivers, lits, path.enables, w) && flag_lit(drivers, path.source, w[0]) && o == w.last();
        w[0]
    }
}

/// The literal of a clock with one enable less.
proof fn lemma_ungate(
    drivers: Seq<DriverType>,
    lits: Seq<usize>,
    path: ClockPath,
    en: usize,
    o: usize,
) -> (ck: usize)
    requires
        clock_lit(drivers, lits, false, ClockPath { source: path.source, enables: path.enables.push(en) }, o),
    ensures
        clock_lit(drivers, lits, false, path, ck),
        and_lit(drivers, ck, lits[en as int], o),
{
    let all = ClockPath { source: path.source, enables: path.enables.push(en) };
    let v = choose|w: Seq<usize>| #[trigger]
        conjoined(drivers, lits, all.enables, w) && flag_lit(drivers, all.source, w[0]) && o == w.last();
    let w = v.drop_last();
    let n = path.enables.len() as int;
    assert(all.enables[n] == en);
    assert(and_lit(drivers, v[n], lits[all.enables[n] as int], v[n + 1]));
    assert forall|i: int| 0 <= i < path.enables.len() implies and_lit(
        drivers,
        w[i],
        lits[#[trigger] path.enables[i] as int],
        w[i + 1],
    ) && defined(lits[path.enables[i] as int]) by {
        assert(all.enables[i] == path.enables[i]);
        assert(and_lit(drivers, v[i], lits[all.enables[i] as int], v[i + 1]));
        assert(defined(lits[all.enables[i] as int]));
    }
    assert(conjoined(drivers, lits, path.enables, w));
    assert(w.last() == v[n]);
    w.last()
}

/// A clock has one literal only.
proof fn lemma_one_clock_lit(aig: AIG, nl: Netlist, path: ClockPath, a: usize, b: usize)
    requires
        aig.pins_wf(nl),
        clock_lit(aig.drivers@, aig.pin2aigpin_iv@, false, path, a),
        clock_lit(aig.drivers@, aig.pin2aigpin_iv@, false, path, b),
    ensures
        a == b,
    decreases path.enables.len(),
{
    let drivers = aig.drivers@;
    let lits = aig.pin2aigpin_iv@;
    let n = path.enables.len();
    if n == 0 {
        let v = choose|w: Seq<usize>| #[trigger]
            conjoined(drivers, lits, path.enables, w) && flag_lit(drivers, path.source, w[0]) && a == w.last();
        let w = choose|w: Seq<usize>| #[trigger]
            conjoined(drivers, lits, path.enables, w) && flag_lit(drivers, path.source, w[0]) && b == w.last();
        assert(v[0] == a && w[0] == b);
        if path.source is Some {
            let i = (a / 2) as int;
            let j = (b / 2) as int;
            assert(drivers[i] == drivers[j]);
            assert(i == j);
        }
    } else {
        let en = path.enables.last();
        let rest = ClockPath { source: path.source, enables: path.enables.drop_last() };
        assert(rest.enables.push(en) =~= path.enables);
        let x = lemma_ungate(drivers, lits, rest, en, a);
        let y = lemma_ungate(drivers, lits, rest, en, b);
        lemma_one_clock_lit(aig, nl, rest, x, y);
        let i = (a / 2) as int;
        let j = (b / 2) as int;
        if i < drivers.len() && j < drivers.len() && drivers[i] is AndGate && drivers[i] == drivers[j] {
            assert(i == j);
        }
    }
}

/// More and gates change nothing but the pins.
pub(crate) proof fn lemma_more_gates(a0: AIG, a1: AIG, nl: Netlist)
    requires
        a0.pins_wf(nl),
        a1.drivers_wf(),
        a1.cache_wf(),
        a1.same_but_pins(a0),
        a0.drivers@.is_prefix_of(a1.drivers@),
        forall|i: int| a0.num_aigpins < i <= a1.num_aigpins ==> #[trigger] a1.drivers@[i] is AndGate,
    ensures
        a1.pins_wf(nl),
        a1.same_but_clocks(a0),
        a1.adds_only_gates(a0),
{
    assert forall|i: int| 0 <= i < a1.drivers@.len() implies (
    #[trigger] a1.drivers@[i] matches DriverType::InputClockFlag(k, e) ==> a1.clock_pin2aigpins.has(k) && {
        let (a, b) = a1.clock_pin2aigpins.at(k);
        (e == 0 && a == i) || (e == 1 && b == i)
    }) by {
        if i < a0.drivers@.len() {
            assert(a1.drivers@[i] == a0.drivers@[i]);
        }
    }
    assert forall|p: int| 0 <= p < a1.pin2aigpin_iv@.len() implies !defined(#[trigger] a1.pin2aigpin_iv@[p])
        || a1.pin2aigpin_iv@[p] / 2 <= a1.num_aigpins by {
        assert(!defined(a0.pin2aigpin_iv@[p]) || a0.pin2aigpin_iv@[p] / 2 <= a0.num_aigpins);
    }
}

/// What adds only gates to what adds only gates does so, too.
pub(crate) proof fn lemma_gates_after_gates(a0: AIG, a1: AIG, a2: AIG)
    requires
        a1.adds_only_gates(a0),
        a2.adds_only_gates(a1),
    ensures
        a2.adds_only_gates(a0),
{
    assert forall|i: int| a0.drivers@.len() <= i < a2.drivers@.len() implies (#[trigger] a2.drivers@[i] is AndGate
        || a2.drivers@[i] is InputClockFlag) by {
        if i < a1.drivers@.len() {
            assert(a2.drivers@[i] == a1.drivers@[i]);
        }
    }
    assert(a0.drivers@.is_prefix_of(a2.drivers@)) by {
        assert forall|i: int| 0 <= i < a0.drivers@.len() implies a0.drivers@[i] == a2.drivers@[i] by {
            assert(a1.drivers@[i] == a2.drivers@[i]);
        }
    }
}

impl AIG {
    /// Every clock flag is found by its port and edge.
    pub open spec fn flags_wf(self) -> bool {
        &&& self.clock_pin2aigpins.wf()
        &&& forall|k: usize| #[trigger]
            self.clock_pin2aigpins.has(k) ==> {
                let (a, b) = self.clock_pin2aigpins.at(k);
                &&& a == usize::MAX || (a <= self.num_aigpins && self.drivers@[a as int]
                    == DriverType::InputClockFlag(k, 0))
                &&& b == usize::MAX || (b <= self.num_aigpins && self.drivers@[b as int]
                    == DriverType::InputClockFlag(k, 1))
            }
        &&& forall|i: int|
            0 <= i < self.drivers@.len() ==> (#[trigger] self.drivers@[i] matches DriverType::InputClockFlag(k, e)
                ==> self.clock_pin2aigpins.has(k) && {
                let (a, b) = self.clock_pin2aigpins.at(k);
                (e == 0 && a == i) || (e == 1 && b == i)
            })
    }

    /// Everything but the pins, the cache of gates and the clock flags is the same.
    pub open spec fn same_but_clocks(self, other: AIG) -> bool {
        &&& self.pin2aigpin_iv@ == other.pin2aigpin_iv@
        &&& self.primary_outputs == other.primary_outputs
        &&& self.dffs == other.dffs
        &&& self.srams == other.srams
        &&& self.macros == other.macros
        &&& self.stateful_macros == other.stateful_macros
        &&& self.aigpin2macro == other.aigpin2macro
        &&& self.fanouts_start == other.fanouts_start
        &&& self.fanouts == other.fanouts
    }

    /// Literals of netlist pins are those of pins, as far as they are defined.
    pub open spec fn lits_wf(self) -> bool {
        forall|p: int|
            0 <= p < self.pin2aigpin_iv@.len() ==> !defined(#[trigger] self.pin2aigpin_iv@[p])
                || self.pin2aigpin_iv@[p] / 2 <= self.num_aigpins
    }

    /// What all steps of construction keep.
    pub open spec fn pins_wf(self, nl: Netlist) -> bool {
        &&& self.drivers_wf()
        &&& self.cache_wf()
        &&& self.flags_wf()
        &&& self.lits_wf()
        &&& self.pin2aigpin_iv@.len() == nl.num_pins()
    }

    /// The new pins are and gates and clock flags.
    pub open spec fn adds_only_gates(self, old_aig: AIG) -> bool {
        &&& old_aig.drivers@.is_prefix_of(self.drivers@)
        &&& forall|i: int|
            old_aig.drivers@.len() <= i < self.drivers@.len() ==> (#[trigger] self.drivers@[i] is AndGate
                || self.drivers@[i] is InputClockFlag)
    }

    /// The flag of a clock port, which is added if there is none. There is
    /// `None` when literals run out.
    fn flag_of(&mut self, pinid: usize, is_negedge: bool, Ghost(nl): Ghost<Netlist>) -> (r: Option<usize>)
        requires
            old(self).pins_wf(nl),
        ensures
            final(self).pins_wf(nl),
            final(self).same_but_clocks(*old(self)),
            final(self).adds_only_gates(*old(self)),
            final(self).num_aigpins <= old(self).num_aigpins + 1,
            r is None ==> old(self).num_aigpins == MAX_AIGPINS,
            r matches Some(o) ==> o % 2 == 0 && o / 2 <= final(self).num_aigpins && final(self).drivers@[(o
                / 2) as int] == DriverType::InputClockFlag(pinid, edge_number(is_negedge)),
            (exists|o: usize| #[trigger] flag_lit(old(self).drivers@, Some((pinid, is_negedge)), o)) ==> r is Some
                && *final(self) == *old(self),
            r matches Some(o) ==> (final(self).drivers@, o) == with_driver(
                old(self).drivers@,
                DriverType::InputClockFlag(pinid, edge_number(is_negedge)),
            ),
    {
        let ghost a0 = *self;
        let (flag_r, flag_f): (usize, usize) = match self.clock_pin2aigpins.get(pinid) {
            Some(f) => *f,
            None => (usize::MAX, usize::MAX),
        };
        let flag: usize = if is_negedge {
            flag_f
        } else {
            flag_r
        };
        if flag != usize::MAX {
            assert(a0.clock_pin2aigpins.has(pinid));
            proof {
                let g = DriverType::InputClockFlag(pinid, edge_number(is_negedge));
                assert(self.drivers@[flag as int] == g);
                assert(self.drivers@.contains(g));
                assert(self.drivers@[self.drivers@.index_of(g)] == g);
            }
            return Some(flag * 2);
        }
        proof {
            if exists|o: usize| #[trigger] flag_lit(a0.drivers@, Some((pinid, is_negedge)), o) {
                let o = choose|o: usize| #[trigger] flag_lit(a0.drivers@, Some((pinid, is_negedge)), o);
                assert(a0.drivers@[(o / 2) as int] == DriverType::InputClockFlag(pinid, edge_number(is_negedge)));
                assert(false);
            }
        }
        if self.num_aigpins >= MAX_AIGPINS {
            return None;
        }
        let edge: u8 = if is_negedge {
            1
        } else {
            0
        };
        let pin: usize = match self.add_aigpin(DriverType::InputClockFlag(pinid, edge)) {
            Some(pin) => pin,
            None => {
                return None;
            },
        };
        let ghost a1 = *self;
        let entry: (usize, usize) = if is_negedge {
            (flag_r, pin)
        } else {
            (pin, flag_f)
        };
        let _ = self.clock_pin2aigpins.insert(pinid, entry);
        proof {
            assert forall|k: usize| #[trigger] self.clock_pin2aigpins.has(k) implies {
                let (a, b) = self.clock_pin2aigpins.at(k);
                &&& a == usize::MAX || (a <= self.num_aigpins && self.drivers@[a as int]
                    == DriverType::InputClockFlag(k, 0))
                &&& b == usize::MAX || (b <= self.num_aigpins && self.drivers@[b as int]
                    == DriverType::InputClockFlag(k, 1))
            } by {
                if k != pinid {
                    assert(a0.clock_pin2aigpins.has(k));
                    assert(self.clock_pin2aigpins.at(k) == a0.clock_pin2aigpins.at(k));
                }
            }
            assert forall|i: int| 0 <= i < self.drivers@.len() implies (
            #[trigger] self.drivers@[i] matches DriverType::InputClockFlag(k, e) ==> self.clock_pin2aigpins.has(k) && {
                let (a, b) = self.clock_pin2aigpins.at(k);
                (e == 0 && a == i) || (e == 1 && b == i)
            }) by {
                if i < a0.drivers@.len() {
                    assert(self.drivers@[i] == a0.drivers@[i]);
                }
            }
        }
        Some(pin * 2)
    }

    /// Given a clock pin, traces back to the clock root and returns its enable
    /// signal, as a literal. It is 0 if the pin dangles.
    ///
    /// Clock gates can be treated as buffers; otherwise the enables must have
    /// their literals already. No more than `fuel` pins are visited. Nothing
    /// changes where the graph has the literal already.
    pub(crate) fn trace_clock_pin(
        &mut self,
        nl: &Netlist,
        pinid: usize,
        is_negedge: bool,
        ignore_cklnqd: bool,
        fuel: usize,
    ) -> (r: Result<usize, BuildError>)
        requires
            nl.wf(),
            pinid < nl.num_pins(),
            old(self).pins_wf(*nl),
        ensures
            final(self).pins_wf(*nl),
            final(self).same_but_clocks(*old(self)),
            final(self).adds_only_gates(*old(self)),
            final(self).num_aigpins <= old(self).num_aigpins + fuel,
            r matches Ok(o) ==> clock_fault(*nl, pinid, fuel as nat) is None && o / 2 <= final(self).num_aigpins
                && clock_lit(
                final(self).drivers@,
                final(self).pin2aigpin_iv@,
                ignore_cklnqd,
                clock_path(*nl, pinid, is_negedge, fuel as nat),
                o,
            ),
            r matches Err(e) ==> match e {
                BuildError::TooLarge => old(self).num_aigpins + fuel > MAX_AIGPINS,
                BuildError::GatedClock(q) => !ignore_cklnqd && q < nl.num_pins() && !defined(
                    old(self).pin2aigpin_iv@[q as int],
                ) && clock_path(*nl, pinid, is_negedge, fuel as nat).enables.contains(q),
                _ => clock_fault(*nl, pinid, fuel as nat) == Some(e),
            },
            r is Ok && (exists|o: usize| #[trigger]
                clock_lit(
                    old(self).drivers@,
                    old(self).pin2aigpin_iv@,
                    ignore_cklnqd,
                    clock_path(*nl, pinid, is_negedge, fuel as nat),
                    o,
                )) ==> *final(self) == *old(self),
            r matches Ok(o) ==> (final(self).drivers@, o) == with_clock(
                *nl,
                old(self).drivers@,
                old(self).pin2aigpin_iv@,
                pinid,
                is_negedge,
                ignore_cklnqd,
                fuel as nat,
            ),
        decreases fuel,
    {
        if fuel == 0 {
            return Err(BuildError::ClockLoop(pinid));
        }
        match find_clock_step(nl, pinid) {
            ClockStep::Tied => {
                proof {
                    lemma_ungated(self.drivers@, self.pin2aigpin_iv@, None, 0);
                }
                Ok(0)
            },
            ClockStep::Port => {
                proof {
                    let path = clock_path(*nl, pinid, is_negedge, fuel as nat);
                    if exists|o: usize| #[trigger]
                        clock_lit(self.drivers@, self.pin2aigpin_iv@, ignore_cklnqd, path, o) {
                        let o = choose|o: usize| #[trigger]
                            clock_lit(self.drivers@, self.pin2aigpin_iv@, ignore_cklnqd, path, o);
                        let f = lemma_flag_of_clock(self.drivers@, self.pin2aigpin_iv@, ignore_cklnqd, path, o);
                        assert(flag_lit(self.drivers@, Some((pinid, is_negedge)), f));
                    }
                }
                match self.flag_of(pinid, is_negedge, Ghost(*nl)) {
                    Some(o) => {
                        proof {
                            lemma_ungated(self.drivers@, self.pin2aigpin_iv@, Some((pinid, is_negedge)), o);
                        }
                        Ok(o)
                    },
                    None => Err(BuildError::TooLarge),
                }
            },
            ClockStep::To(q, inv) => self.trace_clock_pin(nl, q, is_negedge != inv, ignore_cklnqd, fuel - 1),
            ClockStep::Gated(cp, en) => {
                let ghost rest = clock_path(*nl, cp, is_negedge, (fuel - 1) as nat);
                let ghost path = clock_path(*nl, pinid, is_negedge, fuel as nat);
                let ghost known = exists|o: usize| #[trigger]
                    clock_lit(self.drivers@, self.pin2aigpin_iv@, ignore_cklnqd, path, o);
                let ghost last: usize = choose|o: usize| #[trigger]
                    clock_lit(self.drivers@, self.pin2aigpin_iv@, ignore_cklnqd, path, o);
                let ghost mut before: usize = 0;
                proof {
                    if known && !ignore_cklnqd {
                        before = lemma_ungate(self.drivers@, self.pin2aigpin_iv@, rest, en, last);
                        assert(clock_lit(self.drivers@, self.pin2aigpin_iv@, ignore_cklnqd, rest, before));
                    }
                    if known && ignore_cklnqd {
                        assert(clock_lit(self.drivers@, self.pin2aigpin_iv@, ignore_cklnqd, rest, last));
                    }
                }
                let ck: usize = match self.trace_clock_pin(nl, cp, is_negedge, ignore_cklnqd, fuel - 1) {
                    Err(e) => {
                        proof {
                            if let BuildError::GatedClock(q) = e {
                                let rest = clock_path(*nl, cp, is_negedge, (fuel - 1) as nat).enables;
                                assert(rest.push(en)[rest.index_of(q)] == q);
                            }
                        }
                        return Err(e);
                    },
                    Ok(ck) => ck,
                };
                if ignore_cklnqd {
                    return Ok(ck);
                }
                let ghost a1 = *self;
                let en_iv = self.pin2aigpin_iv[en];
                if en_iv / 2 == usize::MAX / 2 {
                    proof {
                        let rest = clock_path(*nl, cp, is_negedge, (fuel - 1) as nat).enables;
                        assert(rest.push(en)[rest.len() as int] == en);
                    }
                    return Err(BuildError::GatedClock(en));
                }
                proof {
                    if known {
                        lemma_one_clock_lit(*self, *nl, rest, ck, before);
                        assert(and_lit(self.drivers@, ck, en_iv, last));
                    }
                }
                match self.add_and_gate(ck, en_iv) {
                    None => {
                        proof {
                            lemma_more_gates(a1, *self, *nl);
                            lemma_gates_after_gates(*old(self), a1, *self);
                        }
                        Err(BuildError::TooLarge)
                    },
                    Some(o) => {
                        proof {
                            lemma_more_gates(a1, *self, *nl);
                            lemma_gates_after_gates(*old(self), a1, *self);
                            lemma_gated(
                                a1.drivers@,
                                self.drivers@,
                                self.pin2aigpin_iv@,
                                clock_path(*nl, cp, is_negedge, (fuel - 1) as nat),
                                ck,
                                en,
                                o,
                            );
                        }
                        Ok(o)
                    },
                }
            },
            ClockStep::Stuck(q) => Err(BuildError::ClockPath(q)),
            ClockStep::Missing => Err(BuildError::ClockCell(nl.pin2cell[pinid])),
        }
    }
}

} // verus!
