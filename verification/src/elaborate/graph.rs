//! The graph of a netlist.

use super::cells::{lemma_slot_pins, macro_deps, slot_pin, is_clock_name, is_clocked, BuildError, CellKind};
use super::clocks::{clock_fault, lemma_clock_fault, lemma_gates_after_gates};
use super::connect::{connect_error, grown};
use super::draft::{draft_of, is_wired, upto, Draft};
use super::elements::{
    clock_fine, dff_ok, element_fault, gate_budget, is_clock_of, is_clock_pin, lemma_dff_kept, lemma_macro_kept,
    lemma_ram_kept, lits_known, macro_ok, ram_ok,
};
use super::fanout::{build_fanouts, fanouts_ok};
use super::index::{
    check_macro_inputs, endpoint_macros, index_macros, lemma_at_key, lemma_outputs_apart, macro_index_ok,
};
use super::kept::{lemma_dffs_kept, lemma_macros_extended, lemma_pin_kept};
use super::pins::{deps_first, lemma_undefined, order_ok, Builder};
use super::rules::{
    dff_out, dffs_ok, has_output, is_behind, is_blank, is_out_lit, is_out_port, is_output_of, lit_or, macro_out,
    macro_slots_ok, macros_ok, outs_ok, pin_fault, pin_ok, ram_bit_ok, ram_bits_ok, ram_out,
};
use super::values::tables_ok;
use crate::aig::{defined, DriverType, RAMBlock, AIG, MAX_AIGPINS};
use crate::collections::{gate_new, map_new, map_view, set_items, set_new, Table};
use crate::flatten::outputs::sram_data_ok;
use crate::netlist::Netlist;
use crate::pe::waves::{mac, macro_pins_ok, producer};
use vstd::prelude::*;

verus! {

/// Is there an order of the pins in which each comes behind all pins that it
/// depends on?
pub open spec fn is_loop_free(nl: Netlist) -> bool {
    exists|order: Seq<usize>| #[trigger] deps_first(nl, order) && order.no_duplicates() && covers(nl, order)
}

/// Are all pins in the order?
pub open spec fn covers(nl: Netlist, order: Seq<usize>) -> bool {
    forall|p: usize| p < nl.num_pins() ==> #[trigger] order.contains(p)
}

/// Are the flip-flops those of the netlist?
pub open spec fn all_dffs(nl: Netlist, aig: AIG) -> bool {
    &&& dffs_ok(nl, aig.dffs, aig.drivers@)
    &&& forall|c: usize|
        c < nl.num_cells() ==> (#[trigger] aig.dffs.has(c) <==> nl.kind(c) == CellKind::Dff)
    &&& forall|c: usize| #[trigger]
        aig.dffs.has(c) ==> dff_ok(nl, aig.drivers@, aig.pin2aigpin_iv@, c, aig.dffs.at(c))
}

/// Do the SRAMs have the pins of their read data?
pub open spec fn rams_read(nl: Netlist, aig: AIG) -> bool {
    &&& aig.srams.wf()
    &&& forall|c: usize| #[trigger]
        aig.srams.has(c) ==> c < nl.num_cells() && nl.kind(c) == CellKind::Ram && ram_bits_ok(
            nl,
            aig.drivers@,
            aig.pin2aigpin_iv@,
            c,
            aig.srams.at(c),
        )
    &&& forall|p: usize|
        p < nl.num_pins() ==> (#[trigger] ram_out(nl, p) matches Some((c, b)) ==> aig.srams.has(c) && aig.srams.at(
            c,
        ).port_r_rd_data@[b as int] != 0)
}

/// Are the SRAMs those of the netlist?
pub open spec fn all_rams(nl: Netlist, aig: AIG) -> bool {
    &&& rams_read(nl, aig)
    &&& forall|c: usize|
        c < nl.num_cells() ==> (#[trigger] aig.srams.has(c) <==> nl.kind(c) == CellKind::Ram)
    &&& forall|c: usize| #[trigger]
        aig.srams.has(c) ==> ram_ok(nl, aig.drivers@, aig.pin2aigpin_iv@, c, aig.srams.at(c))
}

/// Are the macros those of the netlist that have an output?
pub open spec fn all_macros(nl: Netlist, aig: AIG) -> bool {
    &&& aig.macros.wf()
    &&& forall|c: usize| #[trigger]
        aig.macros.has(c) ==> c < nl.num_cells() && has_output(nl, c) && macro_ok(
            nl,
            aig.drivers@,
            aig.pin2aigpin_iv@,
            c,
            aig.macros.at(c),
        ) && macro_slots_ok(nl, aig.drivers@, aig.pin2aigpin_iv@, c, aig.macros.at(c))
    &&& forall|p: usize|
        p < nl.num_pins() ==> (#[trigger] macro_out(nl, p) matches Some((c, s)) ==> aig.macros.has(c)
            && aig.macros.at(c).outputs@[s as int] != 0)
}

/// Are the primary outputs the literals of the output ports of the design?
pub open spec fn all_outputs(nl: Netlist, aig: AIG) -> bool {
    forall|v: usize| #[trigger]
        set_items(aig.primary_outputs).contains(v) <==> exists|p: usize|
            p < nl.num_pins() && #[trigger] is_out_port(nl, p) && aig.pin2aigpin_iv@[p as int] == v
}

/// Is this the graph of a netlist?
pub open spec fn is_graph_of(nl: Netlist, aig: AIG) -> bool {
    &&& aig.pins_wf(nl)
    &&& aig.walkable()
    &&& forall|c: usize| c < nl.num_cells() ==> #[trigger] nl.kind(c) != CellKind::BareDsp
    &&& forall|c: usize, p: usize| #[trigger]
        is_clock_pin(nl, c, p) ==> clock_fault(nl, p, nl.num_pins()) is None
    &&& forall|p: usize| p < nl.num_pins() ==> #[trigger] pin_ok(nl, aig.drivers@, aig.pin2aigpin_iv@, p)
    &&& is_loop_free(nl)
    &&& all_outputs(nl, aig)
    &&& all_dffs(nl, aig)
    &&& all_rams(nl, aig)
    &&& all_macros(nl, aig)
    &&& aig.stateful_macros@ == endpoint_macros(aig.macros.vals(), aig.macros.vals().len())
    &&& macro_index_ok(aig.macros.vals(), aig.macros.vals().len() as int, map_view(aig.aigpin2macro))
    &&& fanouts_ok(aig, aig.fanouts_start@, aig.fanouts@)
    &&& is_numbered(aig)
    &&& nl.is_drawn(aig)
}

/// Are the pins numbered in topological order: does every pin come behind its
/// fan-in?
pub open spec fn is_numbered(aig: AIG) -> bool {
    forall|u: usize, w: usize| u <= aig.num_aigpins && #[trigger] aig.fanin(u).contains(w) ==> w < u
}

/// What stands against a graph?
pub open spec fn build_fault(nl: Netlist, e: BuildError) -> bool {
    match e {
        BuildError::TooLarge => 3 * nl.num_pins() + 2 * gate_budget(nl, nl.num_cells()) > MAX_AIGPINS,
        BuildError::UnmangledDsp(c) => c < nl.num_cells() && nl.kind(c) == CellKind::BareDsp,
        _ => pin_fault(nl, e) || element_fault(nl, e),
    }
}

/// A graph without pins.
fn empty_graph(nl: &Netlist) -> (aig: AIG)
    requires
        nl.wf(),
    ensures
        aig.pins_wf(*nl),
        aig.num_aigpins == 0,
        tables_ok(*nl, aig, aig.pin2aigpin_iv@, Seq::empty()),
        forall|p: int| 0 <= p < nl.num_pins() ==> #[trigger] aig.pin2aigpin_iv@[p] == usize::MAX,
        draft_of(aig, Set::empty()) == nl.start(seq![DriverType::Tie0]),
{
    let n = nl.pin2cell.len();
    let aig = AIG {
        num_aigpins: 0,
        pin2aigpin_iv: vec![usize::MAX; n],
        clock_pin2aigpins: Table::new(),
        drivers: vec![DriverType::Tie0; 1],
        and_gate_cache: gate_new(),
        primary_outputs: set_new(),
        dffs: Table::new(),
        srams: Table::new(),
        macros: Table::new(),
        stateful_macros: Vec::new(),
        aigpin2macro: map_new(),
        fanouts_start: Vec::new(),
        fanouts: Vec::new(),
    };
    proof {
        assert(aig.drivers@[0] == DriverType::Tie0);
        assert forall|v: usize| #[trigger] set_items(aig.primary_outputs).contains(v) <==> is_out_lit(
            *nl,
            aig.pin2aigpin_iv@,
            Seq::empty(),
            v,
        ) by {}
        assert(aig.drivers_wf());
        assert(aig.cache_wf());
        assert(aig.flags_wf());
        assert(aig.drivers@ =~= seq![DriverType::Tie0]);
        assert(aig.pin2aigpin_iv@ =~= nl.no_lits());
    }
    aig
}

proof fn lemma_budget_grows(nl: Netlist, a: nat, b: nat)
    requires
        a <= b,
    ensures
        gate_budget(nl, a) <= gate_budget(nl, b),
    decreases b,
{
    if a < b {
        lemma_budget_grows(nl, a, (b - 1) as nat);
        assert(0 <= nl.cell_pins@[b - 1]@.len() * nl.num_pins()) by (nonlinear_arith);
    }
}

impl AIG {
    /// Adds flags for the clocks of a cell.
    fn trace_cell(&mut self, nl: &Netlist, c: usize) -> (r: Result<(), BuildError>)
        requires
            nl.wf(),
            1 <= c < nl.num_cells(),
            old(self).pins_wf(*nl),
            old(self).pin2aigpin_iv@ == nl.no_lits(),
        ensures
            r is Ok ==> grown(
                *nl,
                *old(self),
                *final(self),
                (nl.pins(c).len() * nl.num_pins() + 32) as int,
            ),
            r is Ok ==> final(self).same_but_clocks(*old(self)),
            r is Ok ==> final(self).drivers@ == (if is_clocked(nl.kind(c)) {
                nl.flagged(old(self).drivers@, nl.pins(c))
            } else {
                old(self).drivers@
            }),
            r is Ok ==> forall|p: usize| #[trigger]
                is_clock_pin(*nl, c, p) ==> clock_fault(*nl, p, nl.num_pins()) is None,
            r matches Err(e) ==> connect_error(*nl, *old(self), c, e),
    {
        let ghost a0 = *self;
        let ghost np = nl.num_pins() as int;
        let ghost pins = nl.pins(c);
        let clocked = match nl.kind_of(c) {
            CellKind::Dff | CellKind::Ram => true,
            CellKind::Macro(k) => k.has_clock(),
            _ => false,
        };
        assert(clocked == is_clocked(nl.kind(c)));
        let n = nl.cell_pins[c].len();
        let m = nl.pin2cell.len();
        assert(0 * np == 0) by (nonlinear_arith);
        assert(0 <= n * np) by (nonlinear_arith)
            requires
                0 <= n,
                0 <= np,
        ;
        if !clocked {
            return Ok(());
        }
        let mut i: usize = 0;
        while i < n
            invariant
                nl.wf(),
                1 <= c < nl.num_cells(),
                is_clocked(nl.kind(c)),
                a0 == *old(self),
                np == nl.num_pins(),
                m == np,
                pins == nl.pins(c),
                n == pins.len(),
                i <= n,
                grown(*nl, a0, *self, i * np),
                self.same_but_clocks(a0),
                a0.pin2aigpin_iv@ == nl.no_lits(),
                self.drivers@ == nl.flagged(a0.drivers@, pins.take(i as int)),
                forall|k: int|
                    0 <= k < i && is_clock_name(nl.name(#[trigger] pins[k])) ==> clock_fault(
                        *nl,
                        pins[k],
                        nl.num_pins(),
                    ) is None,
            decreases n - i,
        {
            let ghost a1 = *self;
            let p = nl.cell_pins[c][i];
            proof {
                assert(nl.cell_pins@[c as int]@[i as int] < nl.num_pins());
                assert(pins[i as int] == p);
                assert(pins.take(i + 1).drop_last() =~= pins.take(i as int));
                assert(pins.take(i + 1).last() == p);
                super::connect::lemma_step(i as int, np, n as int);
            }
            if nl.is_named(p, "CLK") || nl.is_named(p, "PORT_R_CLK") || nl.is_named(p, "PORT_W_CLK") {
                match self.trace_clock_pin(nl, p, false, true, m) {
                    Err(e) => {
                        proof {
                            assert(pins.contains(p));
                            assert(is_clock_pin(*nl, c, p));
                            lemma_clock_fault(*nl, p, m as nat);
                        }
                        return Err(e);
                    },
                    Ok(_) => {},
                }
                proof {
                    lemma_gates_after_gates(a0, a1, *self);
                }
            }
            i += 1;
        }
        proof {
            assert(pins.take(n as int) =~= pins);
            assert forall|p: usize| #[trigger] is_clock_pin(*nl, c, p) implies clock_fault(
                *nl,
                p,
                nl.num_pins(),
            ) is None by {
                let k = pins.index_of(p);
                assert(pins[k] == p);
            }
        }
        Ok(())
    }

    /// Adds flags for all clocks.
    fn trace_clocks(&mut self, nl: &Netlist) -> (r: Result<(), BuildError>)
        requires
            nl.wf(),
            old(self).pins_wf(*nl),
            old(self).num_aigpins == 0,
            old(self).pin2aigpin_iv@ == nl.no_lits(),
            old(self).drivers@ == seq![DriverType::Tie0],
        ensures
            r is Ok ==> grown(*nl, *old(self), *final(self), gate_budget(*nl, nl.num_cells()) as int),
            r is Ok ==> final(self).same_but_clocks(*old(self)),
            r is Ok ==> final(self).drivers@ == nl.flags(nl.num_cells()),
            r is Ok ==> forall|c: usize, p: usize|
                c >= 1 && #[trigger] is_clock_pin(*nl, c, p) ==> clock_fault(*nl, p, nl.num_pins()) is None,
            r matches Err(e) ==> build_fault(*nl, e),
    {
        let ghost a0 = *self;
        let n = nl.celltypes.len();
        let mut c: usize = 1;
        proof {
            lemma_budget_grows(*nl, 0, 1);
            if n == 0 {
                assert forall|c: usize, p: usize| c >= 1 && #[trigger] is_clock_pin(*nl, c, p) implies clock_fault(
                    *nl,
                    p,
                    nl.num_pins(),
                ) is None by {}
            }
        }
        while c < n
            invariant
                nl.wf(),
                n == nl.num_cells(),
                1 <= c,
                c <= n || c == 1,
                a0 == *old(self),
                a0.num_aigpins == 0,
                grown(*nl, a0, *self, if c <= n { gate_budget(*nl, c as nat) as int } else { 0 }),
                self.same_but_clocks(a0),
                a0.pin2aigpin_iv@ == nl.no_lits(),
                self.drivers@ == nl.flags(c as nat),
                forall|k: usize, p: usize|
                    1 <= k < c && #[trigger] is_clock_pin(*nl, k, p) ==> clock_fault(*nl, p, nl.num_pins()) is None,
            decreases n - c,
        {
            let ghost a1 = *self;
            proof {
                lemma_budget_grows(*nl, (c + 1) as nat, n as nat);
                assert(nl.pins(c) == nl.cell_pins@[c as int]@);
            }
            match self.trace_cell(nl, c) {
                Err(e) => {
                    return Err(e);
                },
                Ok(()) => {},
            }
            proof {
                lemma_gates_after_gates(a0, a1, *self);
            }
            c += 1;
        }
        Ok(())
    }
}

/// Nothing is known of a graph that has clock flags only.
proof fn lemma_flags_only(nl: Netlist, a0: AIG, a1: AIG)
    requires
        tables_ok(nl, a0, a0.pin2aigpin_iv@, Seq::empty()),
        a1.same_but_clocks(a0),
        a1.adds_only_gates(a0),
    ensures
        tables_ok(nl, a1, a1.pin2aigpin_iv@, Seq::empty()),
{
    let lits = a0.pin2aigpin_iv@;
    let none = Seq::<usize>::empty();
    lemma_dffs_kept(nl, a0.dffs, a0.drivers@, a1.drivers@);
    super::kept::lemma_srams_extended(nl, a0.srams, a0.drivers@, a1.drivers@, lits, none);
    lemma_macros_extended(nl, a0.macros, a0.drivers@, a1.drivers@, lits, none);
}

/// Has every pin got its literal, in the given order?
pub open spec fn all_pins(nl: Netlist, aig: AIG, order: Seq<usize>) -> bool {
    &&& nl.wf()
    &&& aig.pins_wf(nl)
    &&& order_ok(nl, aig.drivers@, aig.pin2aigpin_iv@, order)
    &&& covers(nl, order)
}

/// Gives all pins their literals.
fn build_pins(aig: AIG, nl: &Netlist) -> (r: Result<Builder, BuildError>)
    requires
        nl.wf(),
        aig.pins_wf(*nl),
        tables_ok(*nl, aig, aig.pin2aigpin_iv@, Seq::empty()),
        forall|p: int| 0 <= p < nl.num_pins() ==> #[trigger] aig.pin2aigpin_iv@[p] == usize::MAX,
    ensures
        r matches Ok(b) ==> all_pins(*nl, b.aig, b.order@) && tables_ok(
            *nl,
            b.aig,
            b.aig.pin2aigpin_iv@,
            b.order@,
        ) && b.aig.num_aigpins <= aig.num_aigpins + 3 * nl.num_pins(),
        r matches Ok(b) ==> b.drawn() == nl.visit_all(
            draft_of(aig, Set::empty()),
            upto(nl.num_pins()),
            nl.num_pins(),
        ),
        r matches Err(e) ==> if e is TooLarge {
            aig.num_aigpins + 3 * nl.num_pins() > MAX_AIGPINS
        } else {
            pin_fault(*nl, e)
        },
{
    let n = nl.pin2cell.len();
    let ghost base = aig.num_aigpins as nat;
    let ghost none = Seq::<usize>::empty();
    let mut b = Builder { aig, topo_vis: vec![false; n], topo_instack: vec![false; n], order: Ghost(none) };
    let ghost start = draft_of(aig, Set::empty());
    assert(b.inv(*nl, none, base));
    assert(b.drawn() == start) by {
        assert(super::pins::marked(b.topo_vis@) =~= Set::empty());
    }
    let mut p: usize = 0;
    while p < n
        invariant
            n == nl.num_pins(),
            p <= n,
            none == Seq::<usize>::empty(),
            base == aig.num_aigpins,
            b.inv(*nl, none, base),
            forall|q: usize| q < p ==> #[trigger] b.order@.contains(q),
            b.drawn() == nl.visit_all(start, upto(p as nat), n as nat),
        decreases n - p,
    {
        let ghost b0 = b;
        match b.dfs_netlistdb_build_aig(nl, p, Ghost(none), Ghost(base)) {
            Err(e) => {
                return Err(e);
            },
            Ok(()) => {},
        }
        proof {
            assert(upto((p + 1) as nat).drop_last() =~= upto(p as nat));
            assert(upto((p + 1) as nat).last() == p);
            assert forall|q: usize| q < p + 1 implies #[trigger] b.order@.contains(q) by {
                if q < p {
                    assert(b0.order@.contains(q));
                    assert(b.order@[b0.order@.index_of(q)] == q);
                }
            }
        }
        p += 1;
    }
    proof {
        super::pins::lemma_room(*nl, b, none, base);
    }
    Ok(b)
}

/// What holds when the inputs of the first `k` cells are connected.
pub open spec fn connected(nl: Netlist, aig: AIG, order: Seq<usize>, k: int) -> bool {
    &&& all_pins(nl, aig, order)
    &&& lits_known(nl, aig.pin2aigpin_iv@)
    &&& outs_ok(nl, set_items(aig.primary_outputs), aig.pin2aigpin_iv@, order)
    &&& dffs_ok(nl, aig.dffs, aig.drivers@)
    &&& rams_read(nl, aig)
    &&& macros_ok(nl, aig.macros, aig.drivers@, aig.pin2aigpin_iv@, order)
    &&& forall|c: usize| #[trigger] aig.srams.has(c) && c >= k ==> is_blank(aig.srams.at(c))
    &&& forall|c: usize| c < k ==> #[trigger] cell_connected(nl, aig, c)
}

/// Is the second graph what the first one becomes when the cells below `k` are
/// connected?
pub open spec fn wired_to(nl: Netlist, a0: AIG, a1: AIG, k: nat) -> bool {
    let d = draft_of(a0, Set::empty());
    &&& a1.drivers@ == nl.wired_all(d, k)
    &&& a1.pin2aigpin_iv@ == d.lits
    &&& a1.primary_outputs == a0.primary_outputs
    &&& a1.dffs.keys() == d.dffs
    &&& a1.macros.keys() == d.macros
    &&& a1.srams.keys() == nl.rams_listed(d.srams, k)
}

/// The drivers do not depend on which pins have been entered.
proof fn lemma_wired_same(nl: Netlist, d: Draft, e: Draft, k: nat)
    requires
        e == (Draft { entered: e.entered, ..d }),
    ensures
        nl.wired_all(d, k) == nl.wired_all(e, k),
    decreases k,
{
    if k > 0 {
        lemma_wired_same(nl, d, e, (k - 1) as nat);
    }
}

/// Are the inputs of a cell connected?
pub open spec fn cell_connected(nl: Netlist, aig: AIG, c: usize) -> bool {
    match nl.kind(c) {
        CellKind::Dff => aig.dffs.has(c) && dff_ok(nl, aig.drivers@, aig.pin2aigpin_iv@, c, aig.dffs.at(c)),
        CellKind::Ram => aig.srams.has(c) && ram_ok(nl, aig.drivers@, aig.pin2aigpin_iv@, c, aig.srams.at(c)),
        CellKind::Macro(_) => aig.macros.has(c) ==> macro_ok(
            nl,
            aig.drivers@,
            aig.pin2aigpin_iv@,
            c,
            aig.macros.at(c),
        ),
        _ => true,
    }
}

/// What stays when a graph grows by gates.
proof fn lemma_grown(nl: Netlist, a0: AIG, a1: AIG, order: Seq<usize>, n: int)
    requires
        all_pins(nl, a0, order),
        grown(nl, a0, a1, n),
    ensures
        all_pins(nl, a1, order),
{
    let lits = a0.pin2aigpin_iv@;
    assert forall|i: int| 0 <= i < order.len() implies pin_ok(nl, a1.drivers@, lits, #[trigger] order[i]) by {
        assert(pin_ok(nl, a0.drivers@, lits, order[i]));
        lemma_pin_kept(nl, a0.drivers@, a1.drivers@, lits, lits, order[i]);
    }
}

/// Bits of SRAMs keep their pins.
proof fn lemma_bits_grown(nl: Netlist, a0: AIG, a1: AIG, c: usize, r0: RAMBlock, r1: RAMBlock)
    requires
        a0.drivers@.is_prefix_of(a1.drivers@),
        ram_bits_ok(nl, a0.drivers@, a0.pin2aigpin_iv@, c, r0),
        r1.port_r_rd_data == r0.port_r_rd_data,
    ensures
        ram_bits_ok(nl, a1.drivers@, a0.pin2aigpin_iv@, c, r1),
{
    let lits = a0.pin2aigpin_iv@;
    assert forall|b: int| 0 <= b < 32 implies ram_bit_ok(
        nl,
        a1.drivers@,
        lits,
        c,
        b,
        #[trigger] r1.port_r_rd_data@[b],
    ) by {
        assert(ram_bit_ok(nl, a0.drivers@, lits, c, b, r0.port_r_rd_data@[b]));
    }
}

/// Cells stay connected.
proof fn lemma_cell_kept(nl: Netlist, a0: AIG, a1: AIG, c: usize)
    requires
        cell_connected(nl, a0, c),
        a0.drivers@.is_prefix_of(a1.drivers@),
        a1.pin2aigpin_iv@ == a0.pin2aigpin_iv@,
        a0.dffs.has(c) ==> a1.dffs.has(c) && a1.dffs.at(c) == a0.dffs.at(c),
        a0.srams.has(c) ==> a1.srams.has(c) && a1.srams.at(c) == a0.srams.at(c),
        a1.macros.has(c) <==> a0.macros.has(c),
        a0.macros.has(c) ==> a1.macros.at(c) == a0.macros.at(c),
    ensures
        cell_connected(nl, a1, c),
{
    let lits = a0.pin2aigpin_iv@;
    match nl.kind(c) {
        CellKind::Dff => {
            lemma_dff_kept(nl, a0.drivers@, a1.drivers@, lits, c, a0.dffs.at(c));
        },
        CellKind::Ram => {
            lemma_ram_kept(nl, a0.drivers@, a1.drivers@, lits, c, a0.srams.at(c));
        },
        CellKind::Macro(_) => {
            if a0.macros.has(c) {
                lemma_macro_kept(nl, a0.drivers@, a1.drivers@, lits, c, a0.macros.at(c));
            }
        },
        _ => {},
    }
}

/// One more cell is connected.
proof fn lemma_connected(nl: Netlist, a0: AIG, a1: AIG, order: Seq<usize>, c: usize, n: int)
    requires
        connected(nl, a0, order, c as int),
        c < nl.num_cells(),
        grown(nl, a0, a1, n),
        cell_connected(nl, a1, c),
        dffs_ok(nl, a1.dffs, a1.drivers@),
        forall|j: usize| #[trigger] a0.dffs.has(j) && j != c ==> a1.dffs.has(j) && a1.dffs.at(j) == a0.dffs.at(j),
        a1.srams.wf(),
        forall|j: usize| #[trigger] a1.srams.has(j) <==> a0.srams.has(j) || (j == c && nl.kind(c) == CellKind::Ram),
        forall|j: usize| #[trigger] a0.srams.has(j) && j != c ==> a1.srams.at(j) == a0.srams.at(j),
        a0.srams.has(c) ==> a1.srams.at(c).port_r_rd_data == a0.srams.at(c).port_r_rd_data,
        !a0.srams.has(c) && a1.srams.has(c) ==> forall|b: int|
            0 <= b < 32 ==> #[trigger] a1.srams.at(c).port_r_rd_data@[b] == 0,
        macros_ok(nl, a1.macros, a1.drivers@, a1.pin2aigpin_iv@, order),
        forall|j: usize| #[trigger] a1.macros.has(j) <==> a0.macros.has(j),
        forall|j: usize| #[trigger] a0.macros.has(j) && j != c ==> a1.macros.at(j) == a0.macros.at(j),
    ensures
        connected(nl, a1, order, c + 1),
{
    let lits = a0.pin2aigpin_iv@;
    lemma_grown(nl, a0, a1, order, n);
    assert forall|k: usize| k < c + 1 implies #[trigger] cell_connected(nl, a1, k) by {
        if k < c {
            assert(cell_connected(nl, a0, k));
            lemma_cell_kept(nl, a0, a1, k);
        }
    }
    assert forall|k: usize| #[trigger] a1.srams.has(k) implies k < nl.num_cells() && nl.kind(k) == CellKind::Ram
        && ram_bits_ok(nl, a1.drivers@, lits, k, a1.srams.at(k)) by {
        if a0.srams.has(k) {
            lemma_bits_grown(nl, a0, a1, k, a0.srams.at(k), a1.srams.at(k));
        } else {
            assert forall|b: int| 0 <= b < 32 implies ram_bit_ok(
                nl,
                a1.drivers@,
                lits,
                k,
                b,
                #[trigger] a1.srams.at(k).port_r_rd_data@[b],
            ) by {}
        }
    }
    assert forall|p: usize| p < nl.num_pins() implies (#[trigger] ram_out(nl, p) matches Some((k, b))
        ==> a1.srams.has(k)
        && a1.srams.at(k).port_r_rd_data@[b as int] != 0) by {
        if let Some((k, b)) = ram_out(nl, p) {
            assert(a0.srams.has(k) && a0.srams.at(k).port_r_rd_data@[b as int] != 0);
        }
    }
    assert forall|k: usize| #[trigger] a1.srams.has(k) && k >= c + 1 implies is_blank(a1.srams.at(k)) by {
        assert(a0.srams.has(k));
    }
}

/// A flip-flop has an entry if it has an output, and only then.
proof fn lemma_dff_entry(nl: Netlist, aig: AIG, order: Seq<usize>, c: usize)
    requires
        all_pins(nl, aig, order),
        dffs_ok(nl, aig.dffs, aig.drivers@),
        nl.kind(c) == CellKind::Dff,
        has_output(nl, c),
    ensures
        aig.dffs.has(c),
{
    let p = choose|p: usize| #[trigger] is_output_of(nl, p, c);
    let lits = aig.pin2aigpin_iv@;
    assert(order.contains(p));
    let i = order.index_of(p);
    assert(pin_ok(nl, aig.drivers@, lits, order[i]));
    let s = lit_or(lits, nl.cell_pin(c, "S"@), 1);
    let r = lit_or(lits, nl.cell_pin(c, "R"@), 1);
    let o = lits[p as int];
    let (q, x) = choose|q: usize, x: usize| #[trigger] dff_out(aig.drivers@, c, s, r, q, x, o);
    assert(aig.drivers@[q as int] == DriverType::DFF(c));
}

impl AIG {
    /// Connects the inputs of a cell.
    fn connect_cell(&mut self, nl: &Netlist, c: usize, Ghost(order): Ghost<Seq<usize>>) -> (r: Result<(), BuildError>)
        requires
            connected(*nl, *old(self), order, c as int),
            c < nl.num_cells(),
            nl.kind(c) != CellKind::BareDsp,
        ensures
            r is Ok ==> connected(*nl, *final(self), order, c + 1),
            r is Ok ==> is_wired(*nl, *old(self), *final(self), c),
            r is Ok ==> final(self).num_aigpins <= old(self).num_aigpins + nl.pins(c).len() * nl.num_pins() + 32,
            r matches Err(e) ==> connect_error(*nl, *old(self), c, e),
    {
        let ghost a0 = *self;
        let ghost n = (nl.pins(c).len() * nl.num_pins() + 32) as int;
        assert(0 <= nl.pins(c).len() * nl.num_pins()) by (nonlinear_arith);
        match nl.kind_of(c) {
            CellKind::Dff => {
                if self.dffs.get(c).is_none() {
                    proof {
                        if has_output(*nl, c) {
                            lemma_dff_entry(*nl, a0, order, c);
                        }
                    }
                    return Err(BuildError::NoOutput(c));
                }
                match self.connect_dff(nl, c) {
                    Err(e) => {
                        return Err(e);
                    },
                    Ok(()) => {},
                }
                proof {
                    let a1 = *self;
                    assert(dffs_ok(*nl, a1.dffs, a1.drivers@)) by {
                        lemma_dffs_kept(*nl, a0.dffs, a0.drivers@, a1.drivers@);
                        assert forall|j: usize| #[trigger] a1.dffs.has(j) implies j < nl.num_cells() && nl.kind(j)
                            == CellKind::Dff && has_output(*nl, j) && 1 <= a1.dffs.at(j).q < a1.drivers@.len()
                            && a1.drivers@[a1.dffs.at(j).q as int] == DriverType::DFF(j) by {
                            assert(a0.dffs.has(j));
                            assert(a1.dffs.at(j).q == a0.dffs.at(j).q);
                        }
                        assert forall|i: int| 0 <= i < a1.drivers@.len() implies (
                        #[trigger] a1.drivers@[i] matches DriverType::DFF(j) ==> a1.dffs.has(j) && i <= a1.dffs.at(
                            j,
                        ).q) by {
                            if let DriverType::DFF(j) = a1.drivers@[i] {
                                assert(a0.dffs.has(j) && i <= a0.dffs.at(j).q);
                                assert(a1.dffs.at(j).q == a0.dffs.at(j).q);
                            }
                        }
                    }
                    lemma_macros_extended(
                        *nl,
                        a0.macros,
                        a0.drivers@,
                        a1.drivers@,
                        a0.pin2aigpin_iv@,
                        order,
                    );
                    lemma_connected(*nl, a0, a1, order, c, n);
                }
            },
            CellKind::Ram => {
                match self.connect_ram(nl, c) {
                    Err(e) => {
                        return Err(e);
                    },
                    Ok(()) => {},
                }
                proof {
                    let a1 = *self;
                    lemma_dffs_kept(*nl, a0.dffs, a0.drivers@, a1.drivers@);
                    lemma_macros_extended(
                        *nl,
                        a0.macros,
                        a0.drivers@,
                        a1.drivers@,
                        a0.pin2aigpin_iv@,
                        order,
                    );
                    lemma_connected(*nl, a0, a1, order, c, n);
                }
            },
            CellKind::Macro(kind) => {
                if self.macros.get(c).is_some() {
                    match self.connect_macro(nl, c, kind) {
                        Err(e) => {
                            return Err(e);
                        },
                        Ok(()) => {},
                    }
                    proof {
                        lemma_macro_connected(*nl, a0, *self, order, c, n);
                    }
                } else {
                    proof {
                        lemma_connected(*nl, a0, a0, order, c, n);
                    }
                }
            },
            _ => {
                proof {
                    lemma_connected(*nl, a0, a0, order, c, n);
                }
            },
        }
        Ok(())
    }

    /// Connects the inputs of all cells.
    fn connect_cells(&mut self, nl: &Netlist, Ghost(order): Ghost<Seq<usize>>) -> (r: Result<(), BuildError>)
        requires
            connected(*nl, *old(self), order, 0),
            forall|c: usize| c < nl.num_cells() ==> #[trigger] nl.kind(c) != CellKind::BareDsp,
        ensures
            r is Ok ==> connected(*nl, *final(self), order, nl.num_cells() as int),
            r is Ok ==> wired_to(*nl, *old(self), *final(self), nl.num_cells()),
            r matches Err(e) ==> if e is TooLarge {
                old(self).num_aigpins + gate_budget(*nl, nl.num_cells()) > MAX_AIGPINS
            } else {
                element_fault(*nl, e)
            },
    {
        let ghost a0 = *self;
        let n = nl.celltypes.len();
        let mut c: usize = 0;
        while c < n
            invariant
                n == nl.num_cells(),
                c <= n,
                a0 == *old(self),
                connected(*nl, *self, order, c as int),
                wired_to(*nl, a0, *self, c as nat),
                self.num_aigpins <= a0.num_aigpins + gate_budget(*nl, c as nat),
                forall|c: usize| c < nl.num_cells() ==> #[trigger] nl.kind(c) != CellKind::BareDsp,
            decreases n - c,
        {
            proof {
                lemma_budget_grows(*nl, (c + 1) as nat, n as nat);
                assert(nl.pins(c) == nl.cell_pins@[c as int]@);
            }
            match self.connect_cell(nl, c, Ghost(order)) {
                Err(e) => {
                    return Err(e);
                },
                Ok(()) => {},
            }
            c += 1;
        }
        Ok(())
    }
}

/// A macro is connected.
proof fn lemma_macro_connected(nl: Netlist, a0: AIG, a1: AIG, order: Seq<usize>, c: usize, n: int)
    requires
        connected(nl, a0, order, c as int),
        c < nl.num_cells(),
        nl.kind(c) is Macro,
        grown(nl, a0, a1, n),
        a0.macros.has(c),
        a1.dffs == a0.dffs,
        a1.srams == a0.srams,
        a1.macros.wf(),
        a1.macros.at(c).outputs@ == a0.macros.at(c).outputs@,
        forall|j: usize| #[trigger] a1.macros.has(j) <==> a0.macros.has(j),
        forall|j: usize| j != c && a0.macros.has(j) ==> #[trigger] a1.macros.at(j) == a0.macros.at(j),
        macro_ok(nl, a1.drivers@, a1.pin2aigpin_iv@, c, a1.macros.at(c)),
    ensures
        connected(nl, a1, order, c + 1),
{
    let lits = a0.pin2aigpin_iv@;
    lemma_dffs_kept(nl, a0.dffs, a0.drivers@, a1.drivers@);
    lemma_macros_extended(nl, a0.macros, a0.drivers@, a1.drivers@, lits, order);
    assert(macros_ok(nl, a1.macros, a1.drivers@, lits, order)) by {
        assert forall|j: usize| #[trigger] a1.macros.has(j) implies j < nl.num_cells() && has_output(nl, j)
            && nl.kind(j)
            == CellKind::Macro(a1.macros.at(j).kind) && a1.macros.at(j).wf() && macro_slots_ok(
            nl,
            a1.drivers@,
            lits,
            j,
            a1.macros.at(j),
        ) by {
            assert(a0.macros.has(j));
            assert(macro_slots_ok(nl, a1.drivers@, lits, j, a0.macros.at(j)));
            if j == c {
                let m0 = a0.macros.at(c);
                let m1 = a1.macros.at(c);
                assert forall|s: int| 0 <= s < m1.outputs@.len() implies super::rules::macro_slot_ok(
                    nl,
                    a1.drivers@,
                    lits,
                    c,
                    s,
                    #[trigger] m1.outputs@[s],
                ) by {
                    assert(m0.outputs@[s] == m1.outputs@[s]);
                }
            }
        }
        assert forall|i: int| 0 <= i < order.len() implies (macro_out(
            nl,
            #[trigger] order[i],
        ) matches Some((j, s)) ==> a1.macros.has(j) && a1.macros.at(j).outputs@[s as int] != 0) by {
            if let Some((j, s)) = macro_out(nl, order[i]) {
                assert(a0.macros.has(j) && a0.macros.at(j).outputs@[s as int] != 0);
            }
        }
        assert forall|i: int| 0 <= i < a1.drivers@.len() implies (
        #[trigger] a1.drivers@[i] matches DriverType::Macro(j, s) ==> a1.macros.has(j) && s < a1.macros.at(
            j,
        ).kind.spec_num_outputs() && a1.macros.at(j).outputs@[s as int] != 0) by {
            if let DriverType::Macro(j, s) = a1.drivers@[i] {
                assert(a0.macros.has(j));
            }
        }
    }
    lemma_connected(nl, a0, a1, order, c, n);
}

/// Pins without a literal carry gated clocks, and no others do.
proof fn lemma_lits_known(nl: Netlist, aig: AIG, order: Seq<usize>)
    requires
        all_pins(nl, aig, order),
    ensures
        lits_known(nl, aig.pin2aigpin_iv@),
{
    let lits = aig.pin2aigpin_iv@;
    assert forall|p: usize| p < nl.num_pins() && !defined(#[trigger] lits[p as int]) implies super::rules::is_gated(
        nl,
        p,
    ) by {
        assert(order.contains(p));
        lemma_undefined(nl, aig.drivers@, lits, order, order.index_of(p));
    }
}

/// Tables that know what is found by pin know what is found by order.
proof fn lemma_unconnected(nl: Netlist, aig: AIG, order: Seq<usize>)
    requires
        all_pins(nl, aig, order),
        tables_ok(nl, aig, aig.pin2aigpin_iv@, order),
    ensures
        connected(nl, aig, order, 0),
{
    lemma_lits_known(nl, aig, order);
    assert forall|p: usize| p < nl.num_pins() implies (#[trigger] ram_out(nl, p) matches Some((c, b)) ==> aig.srams.has(
        c,
    ) && aig.srams.at(c).port_r_rd_data@[b as int] != 0) by {
        assert(order.contains(p));
        let i = order.index_of(p);
        assert(ram_out(nl, order[i]) == ram_out(nl, p));
    }
}

/// The pins of a connected graph are numbered in topological order.
proof fn lemma_numbered(nl: Netlist, aig: AIG, order: Seq<usize>)
    requires
        connected(nl, aig, order, nl.num_cells() as int),
        aig.walkable(),
    ensures
        is_numbered(aig),
{
    let lits = aig.pin2aigpin_iv@;
    assert forall|u: usize, w: usize| u <= aig.num_aigpins && #[trigger] aig.fanin(u).contains(w) implies w < u by {
        match aig.drivers@[u as int] {
            DriverType::AndGate(a, b) => {
                lemma_among(seq![(a / 2) as usize, (b / 2) as usize], w);
            },
            DriverType::Macro(c, s) => {
                let m = aig.macros.at(c);
                assert(aig.macros.has(c));
                assert(cell_connected(nl, aig, c));
                assert(macro_ok(nl, aig.drivers@, lits, c, m));
                assert(is_behind(nl, lits, order, c, s, u as int));
                let slots = m.kind.spec_comb_fanin(s);
                super::index::lemma_live_source(m.inputs@, slots, w);
                crate::macros::lemma_comb_slots_in_range(m.kind, s);
                let k = choose|k: int| 0 <= k < slots.len() && w == m.inputs@[#[trigger] slots[k] as int] / 2;
                let x = slots[k];
                assert(slots.contains(x));
                assert(m.inputs@[x as int] == lit_or(
                    lits,
                    slot_pin(nl, m.kind, nl.pins(c), x as int),
                    m.kind.spec_default_input(x),
                ));
                if let Some(d) = slot_pin(nl, m.kind, nl.pins(c), x as int) {
                    lemma_slot_pins(nl, m.kind, nl.pins(c), slots, x, d);
                    assert(macro_deps(nl, c, s).contains(d));
                }
            },
            _ => {},
        }
    }
}

/// What is not dropped for being zero was there.
proof fn lemma_among(s: Seq<usize>, w: usize)
    requires
        crate::aig::nonzero(s).contains(w),
    ensures
        s.contains(w),
    decreases s.len(),
{
    if s.len() > 0 {
        let rest = crate::aig::nonzero(s.drop_last());
        let all = crate::aig::nonzero(s);
        let k = all.index_of(w);
        if k < rest.len() {
            assert(rest[k] == w);
            lemma_among(s.drop_last(), w);
            assert(s[s.drop_last().index_of(w)] == w);
        } else {
            assert(s[s.len() - 1] == w);
        }
    }
}

/// The graph is that of the netlist.
proof fn lemma_graph(nl: Netlist, a0: AIG, a1: AIG, order: Seq<usize>)
    requires
        connected(nl, a0, order, nl.num_cells() as int),
        a0.walkable(),
        forall|c: usize| c < nl.num_cells() ==> #[trigger] nl.kind(c) != CellKind::BareDsp,
        forall|c: usize, p: usize|
            c >= 1 && #[trigger] is_clock_pin(nl, c, p) ==> clock_fault(nl, p, nl.num_pins()) is None,
        a1 == (AIG {
            stateful_macros: a1.stateful_macros,
            aigpin2macro: a1.aigpin2macro,
            fanouts_start: a1.fanouts_start,
            fanouts: a1.fanouts,
            ..a0
        }),
        a1.stateful_macros@ == endpoint_macros(a1.macros.vals(), a1.macros.vals().len()),
        macro_index_ok(a1.macros.vals(), a1.macros.vals().len() as int, map_view(a1.aigpin2macro)),
        fanouts_ok(a0, a1.fanouts_start@, a1.fanouts@),
        nl.is_drawn(a0),
    ensures
        is_graph_of(nl, a1),
{
    lemma_numbered(nl, a0, order);
    assert(is_numbered(a1)) by {
        assert forall|u: usize, w: usize|
            u <= a1.num_aigpins && #[trigger] a1.fanin(u).contains(w) implies w < u by {
            assert(a0.fanin(u).contains(w));
        }
    }
    let lits = a0.pin2aigpin_iv@;
    assert forall|u: usize| a1.fanin(u) == a0.fanin(u) by {}
    lemma_same_edges(a0, a1, a0.drivers@.len());
    assert forall|p: usize| p < nl.num_pins() implies #[trigger] pin_ok(nl, a1.drivers@, lits, p) by {
        assert(order.contains(p));
        assert(pin_ok(nl, a0.drivers@, lits, order[order.index_of(p)]));
    }
    assert(deps_first(nl, order) && covers(nl, order));
    assert(all_outputs(nl, a1)) by {
        assert forall|v: usize| #[trigger] set_items(a1.primary_outputs).contains(v) <==> exists|p: usize|
            p < nl.num_pins() && #[trigger] is_out_port(nl, p) && lits[p as int] == v by {
            if set_items(a1.primary_outputs).contains(v) {
                assert(is_out_lit(nl, lits, order, v));
                let i = choose|i: int|
                    0 <= i < order.len() && #[trigger] is_out_port(nl, order[i]) && lits[order[i] as int] == v;
                assert(order[i] < nl.num_pins() && is_out_port(nl, order[i]));
            }
            if exists|p: usize| p < nl.num_pins() && #[trigger] is_out_port(nl, p) && lits[p as int] == v {
                let p = choose|p: usize| p < nl.num_pins() && #[trigger] is_out_port(nl, p) && lits[p as int] == v;
                assert(order.contains(p));
                let i = order.index_of(p);
                assert(is_out_port(nl, order[i]) && lits[order[i] as int] == v);
                assert(is_out_lit(nl, lits, order, v));
            }
        }
    }
    assert forall|c: usize| c < nl.num_cells() implies (#[trigger] a1.dffs.has(c) <==> nl.kind(c) == CellKind::Dff) by {
        assert(cell_connected(nl, a0, c));
    }
    assert forall|c: usize| #[trigger] a1.dffs.has(c) implies dff_ok(nl, a1.drivers@, lits, c, a1.dffs.at(c)) by {
        assert(cell_connected(nl, a0, c));
    }
    assert forall|c: usize| c < nl.num_cells()
        implies (#[trigger] a1.srams.has(c) <==> nl.kind(c) == CellKind::Ram) by {
        assert(cell_connected(nl, a0, c));
    }
    assert forall|c: usize| #[trigger] a1.srams.has(c) implies ram_ok(nl, a1.drivers@, lits, c, a1.srams.at(c)) by {
        assert(cell_connected(nl, a0, c));
    }
    assert forall|c: usize| #[trigger] a1.macros.has(c) implies c < nl.num_cells() && macro_ok(
        nl,
        a1.drivers@,
        lits,
        c,
        a1.macros.at(c),
    ) && macro_slots_ok(nl, a1.drivers@, lits, c, a1.macros.at(c)) by {
        assert(cell_connected(nl, a0, c));
    }
    assert forall|p: usize| p < nl.num_pins() implies (#[trigger] macro_out(
        nl,
        p,
    ) matches Some((c, s)) ==> a1.macros.has(c) && a1.macros.at(c).outputs@[s as int] != 0) by {
        assert(order.contains(p));
        let i = order.index_of(p);
        assert(macro_out(nl, order[i]) == macro_out(nl, p));
    }
    assert forall|c: usize, p: usize| #[trigger] is_clock_pin(nl, c, p) implies clock_fault(
        nl,
        p,
        nl.num_pins(),
    ) is None by {
        if c == 0 {
            assert(cell_connected(nl, a0, c));
            lemma_ram_clock(nl, a0, c, p);
        }
    }
    assert(a1.walkable()) by {
        assert(a1.macros_wf());
        assert forall|u: usize, w: usize| u <= a1.num_aigpins && #[trigger] a1.fanin(u).contains(w) implies w
            <= a1.num_aigpins by {
            assert(a0.fanin(u).contains(w));
        }
    }
}

/// The clock paths of a connected SRAM are fine.
proof fn lemma_ram_clock(nl: Netlist, aig: AIG, c: usize, p: usize)
    requires
        ram_ok(nl, aig.drivers@, aig.pin2aigpin_iv@, c, aig.srams.at(c)),
        nl.pins(c).contains(p),
        is_clock_of(CellKind::Ram, nl.name(p)),
    ensures
        clock_fine(nl, aig.pin2aigpin_iv@, p),
{
    let r = aig.srams.at(c);
    let wclk = choose|wclk: usize| #[trigger]
        super::elements::ram_inputs(nl, aig.drivers@, aig.pin2aigpin_iv@, c, r, wclk);
    let pins = nl.pins(c);
    assert(pins[pins.index_of(p)] == p);
}

/// Edges depend on drivers and macros only.
proof fn lemma_same_edges(a0: AIG, a1: AIG, n: nat)
    requires
        forall|u: usize| a1.fanin(u) == a0.fanin(u),
    ensures
        super::fanout::edges_into(a1, n) == super::fanout::edges_into(a0, n),
    decreases n,
{
    if n > 0 {
        lemma_same_edges(a0, a1, (n - 1) as nat);
        let u = (n - 1) as usize;
        assert(super::fanout::edges_of(a1, u) =~= super::fanout::edges_of(a0, u));
    }
}

/// In a graph of a netlist, macros are found by what they drive, and SRAMs read
/// pins of the graph.
pub proof fn law_graph_indexed(nl: Netlist, aig: AIG)
    requires
        is_graph_of(nl, aig),
    ensures
        macro_pins_ok(aig),
        sram_data_ok(aig),
{
    let vals = aig.macros.vals();
    let lits = aig.pin2aigpin_iv@;
    aig.macros.lemma_wf();
    assert forall|p: usize, s: int|
        p < aig.macros.vals().len() && 0 <= s < mac(aig, p).outputs@.len() && #[trigger] mac(aig, p).outputs@[s] != 0
            implies ({
        let o = mac(aig, p).outputs@[s];
        &&& o <= aig.num_aigpins
        &&& aig.drivers@[o as int] == DriverType::Macro(aig.macros.keys()[p as int], s as usize)
        &&& producer(aig, o) == Some(p)
    }) by {
        lemma_at_key(aig.macros, p as int);
        let c = aig.macros.keys()[p as int];
        assert(super::rules::macro_slot_ok(nl, aig.drivers@, lits, c, s, aig.macros.at(c).outputs@[s]));
        assert(vals[p as int].outputs@[s] != 0);
    }
    assert forall|i: int, k: int| 0 <= i < aig.srams.vals().len() && 0 <= k < 32 implies (
    #[trigger] aig.srams.vals()[i].port_r_rd_data@[k] == usize::MAX || aig.srams.vals()[i].port_r_rd_data@[k]
        <= aig.num_aigpins) by {
        lemma_at_key(aig.srams, i);
        let c = aig.srams.keys()[i];
        assert(ram_bit_ok(nl, aig.drivers@, lits, c, k, aig.srams.at(c).port_r_rd_data@[k]));
    }
}

/// Two graphs of one netlist have the same pins, and their flip-flops, SRAMs,
/// macros and primary outputs come in the same order: what has been stored by
/// number for one of them holds for the other.
pub proof fn law_graphs_alike(nl: Netlist, a: AIG, b: AIG)
    requires
        is_graph_of(nl, a),
        is_graph_of(nl, b),
    ensures
        a.num_aigpins == b.num_aigpins,
        a.drivers@ == b.drivers@,
        a.pin2aigpin_iv@ == b.pin2aigpin_iv@,
        a.dffs.keys() == b.dffs.keys(),
        a.srams.keys() == b.srams.keys(),
        a.macros.keys() == b.macros.keys(),
        set_items(a.primary_outputs) == set_items(b.primary_outputs),
{
}

impl AIG {
    /// Builds the graph of a netlist.
    ///
    /// Clocks are traced first, so that their flags come first. Then all pins
    /// get their literals. Then the inputs of flip-flops, SRAMs and macros are
    /// connected; a macro whose outputs are all unused is left out. Pins are
    /// numbered, and tables filled, in the order in which this meets them.
    pub fn from_netlistdb(nl: &Netlist) -> (r: Result<AIG, BuildError>)
        requires
            nl.wf(),
        ensures
            r matches Ok(aig) ==> is_graph_of(*nl, aig),
            r matches Err(e) ==> build_fault(*nl, e),
    {
        let n = nl.celltypes.len();
        let mut c: usize = 0;
        while c < n
            invariant
                nl.wf(),
                n == nl.num_cells(),
                c <= n,
                forall|k: usize| k < c ==> #[trigger] nl.kind(k) != CellKind::BareDsp,
            decreases n - c,
        {
            if nl.kind_of(c) == CellKind::BareDsp {
                return Err(BuildError::UnmangledDsp(c));
            }
            c += 1;
        }
        let mut aig = empty_graph(nl);
        let ghost a0 = aig;
        match aig.trace_clocks(nl) {
            Err(e) => {
                return Err(e);
            },
            Ok(()) => {},
        }
        let ghost a1 = aig;
        proof {
            lemma_flags_only(*nl, a0, a1);
        }
        let b = match build_pins(aig, nl) {
            Err(e) => {
                proof {
                    lemma_pin_error(*nl, e);
                }
                return Err(e);
            },
            Ok(b) => b,
        };
        let ghost order = b.order@;
        let mut aig = b.aig;
        let ghost a3 = aig;
        proof {
            lemma_unconnected(*nl, aig, order);
        }
        match aig.connect_cells(nl, Ghost(order)) {
            Err(e) => {
                return Err(e);
            },
            Ok(()) => {},
        }
        let ghost a2 = aig;
        proof {
            assert(b.drawn() == nl.draft());
            lemma_wired_same(*nl, nl.draft(), draft_of(a3, Set::empty()), nl.num_cells());
            assert forall|c: usize| #[trigger] a2.macros.has(c) implies macro_ok(
                *nl,
                a2.drivers@,
                a2.pin2aigpin_iv@,
                c,
                a2.macros.at(c),
            ) by {
                assert(cell_connected(*nl, a2, c));
            }
        }
        match check_macro_inputs(&aig, nl, Ghost(order)) {
            Err(e) => {
                return Err(e);
            },
            Ok(()) => {},
        }
        proof {
            lemma_outputs_apart(*nl, aig.macros, aig.drivers@, aig.pin2aigpin_iv@, order);
        }
        let (stateful, index) = index_macros(&aig);
        let (start, items) = build_fanouts(&aig);
        aig.stateful_macros = stateful;
        aig.aigpin2macro = index;
        aig.fanouts_start = start;
        aig.fanouts = items;
        proof {
            lemma_graph(*nl, a2, aig, order);
        }
        Ok(aig)
    }
}

/// What is wrong with pins stands against a graph.
proof fn lemma_pin_error(nl: Netlist, e: BuildError)
    requires
        nl.wf(),
    ensures
        pin_fault(nl, e) ==> build_fault(nl, e),
{
    if pin_fault(nl, e) {
        if let BuildError::UnmangledDsp(c) = e {
            let p = choose|p: usize| #[trigger] is_output_of(nl, p, c);
            assert(nl.pin2cell@[p as int] < nl.num_cells());
        }
    }
}

} // verus!
