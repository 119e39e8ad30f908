//! Literals of all pins.

use super::cells::{BuildError, CellKind};
use super::draft::{draft_of, is_turn, listed, Draft};
use super::kept::{lemma_deps_named, lemma_pin_kept};
use super::rules::{
    carries_clock, dff_out, dffs_ok, has_output, is_dep_walk, is_gated, is_output_of, lit_or, on_loop, pin_fault,
    pin_ok,
};
use super::values::{found, ready, tables_ok};
use crate::aig::{defined, DriverType, AIG, DFF, MAX_AIGPINS};
use crate::netlist::{Direction, Netlist};
use vstd::prelude::*;

verus! {

/// A graph in the making: which pins have been visited, which of them wait for
/// others, and the pins that have their literals, in the order in which they
/// got them.
pub struct Builder {
    pub aig: AIG,
    pub topo_vis: Vec<bool>,
    pub topo_instack: Vec<bool>,
    pub order: Ghost<Seq<usize>>,
}

/// Do all pins that a pin depends on come before it?
pub open spec fn deps_first(nl: Netlist, order: Seq<usize>) -> bool {
    forall|i: int, d: usize|
        0 <= i < order.len() && #[trigger] nl.deps(order[i]).contains(d) ==> order.take(i).contains(d)
}

/// Do the pins of the order have their literals?
pub open spec fn order_ok(nl: Netlist, drivers: Seq<DriverType>, lits: Seq<usize>, order: Seq<usize>) -> bool {
    &&& order.no_duplicates()
    &&& forall|i: int| 0 <= i < order.len() ==> #[trigger] order[i] < nl.num_pins()
    &&& deps_first(nl, order)
    &&& forall|i: int| 0 <= i < order.len() ==> pin_ok(nl, drivers, lits, #[trigger] order[i])
}

/// The pins that are marked.
pub open spec fn marked(vis: Seq<bool>) -> Set<usize> {
    Set::new(|p: usize| p < vis.len() && vis[p as int])
}

impl Builder {
    /// What has been drawn.
    pub open spec fn drawn(self) -> Draft {
        draft_of(self.aig, marked(self.topo_vis@))
    }

    /// What holds while the pins on a path wait for others.
    pub open spec fn inv(self, nl: Netlist, path: Seq<usize>, base: nat) -> bool {
        let order = self.order@;
        &&& nl.wf()
        &&& self.aig.pins_wf(nl)
        &&& self.topo_vis@.len() == nl.num_pins()
        &&& self.topo_instack@.len() == nl.num_pins()
        &&& order_ok(nl, self.aig.drivers@, self.aig.pin2aigpin_iv@, order)
        &&& tables_ok(nl, self.aig, self.aig.pin2aigpin_iv@, order)
        &&& path.no_duplicates()
        &&& forall|i: int| 0 <= i < path.len() ==> #[trigger] path[i] < nl.num_pins() && !order.contains(path[i])
        &&& is_dep_walk(nl, path)
        &&& forall|p: usize|
            p < nl.num_pins() ==> (#[trigger] self.topo_vis@[p as int] <==> order.contains(p) || path.contains(p))
        &&& forall|p: usize| p < nl.num_pins() ==> (#[trigger] self.topo_instack@[p as int] <==> path.contains(p))
        &&& forall|p: usize|
            p < nl.num_pins() && !order.contains(p) ==> #[trigger] self.aig.pin2aigpin_iv@[p as int] == usize::MAX
        &&& self.aig.num_aigpins <= base + 3 * order.len() + path.len()
    }
}

/// Pins without a literal carry a gated clock.
pub(super) proof fn lemma_undefined(nl: Netlist, drivers: Seq<DriverType>, lits: Seq<usize>, order: Seq<usize>, i: int)
    requires
        order_ok(nl, drivers, lits, order),
        drivers.len() <= MAX_AIGPINS + 1,
        0 <= i < order.len(),
        !defined(lits[order[i] as int]),
    ensures
        is_gated(nl, order[i]),
    decreases i,
{
    let p = order[i];
    let c = nl.cell(p);
    assert(pin_ok(nl, drivers, lits, p));
    lemma_deps_named(nl, p);
    if nl.is_input(p) {
        let d = nl.root(p);
        assert(nl.deps(p).contains(d));
        assert(order.take(i).contains(d));
        let j = order.take(i).index_of(d);
        assert(order[j] == d);
        lemma_undefined(nl, drivers, lits, order, j);
        let f = choose|f: nat| #[trigger] carries_clock(nl, d, f);
        assert(carries_clock(nl, p, f + 1));
    } else if c != 0 {
        match nl.kind(c) {
            CellKind::ClockGate => {
                assert(carries_clock(nl, p, 1));
            },
            CellKind::Inv | CellKind::Buf => {
                let d = nl.cell_pin(c, "A"@).unwrap();
                assert(nl.deps(p).contains(d));
                assert(order.take(i).contains(d));
                let j = order.take(i).index_of(d);
                assert(order[j] == d);
                assert(!defined(lits[d as int]));
                lemma_undefined(nl, drivers, lits, order, j);
                let f = choose|f: nat| #[trigger] carries_clock(nl, d, f);
                assert(carries_clock(nl, p, f + 1));
            },
            CellKind::Dff => {
                let s = lit_or(lits, nl.cell_pin(c, "S"@), 1);
                let r = lit_or(lits, nl.cell_pin(c, "R"@), 1);
                let o = lits[p as int];
                let (q, x) = choose|q: usize, x: usize| #[trigger] dff_out(drivers, c, s, r, q, x, o);
                assert(dff_out(drivers, c, s, r, q, x, o));
                assert(false);
            },
            CellKind::And(_, _, _) => {
                assert(false);
            },
            _ => {
                assert(false);
            },
        }
    } else {
        assert(false);
    }
}

/// A path that comes back to one of its pins is a loop.
proof fn lemma_loop(nl: Netlist, path: Seq<usize>, p: usize)
    requires
        is_dep_walk(nl, path),
        path.contains(p),
        nl.deps(path.last()).contains(p),
    ensures
        on_loop(nl, p),
{
    let k = path.index_of(p);
    let w = path.subrange(k, path.len() as int).push(p);
    assert forall|i: int| 0 <= i < w.len() - 1 implies #[trigger] nl.deps(w[i]).contains(w[i + 1]) by {
        assert(w[i] == path[k + i]);
        if i < w.len() - 2 {
            assert(nl.deps(path[k + i]).contains(path[k + i + 1]));
            assert(w[i + 1] == path[k + i + 1]);
        }
    }
    assert(is_dep_walk(nl, w));
    assert(w[0] == p && w.last() == p);
}

/// A pin that got its literal is at the end of the order.
proof fn lemma_settled(
    nl: Netlist,
    d0: Seq<DriverType>,
    d1: Seq<DriverType>,
    l0: Seq<usize>,
    order: Seq<usize>,
    p: usize,
    o: usize,
)
    requires
        order_ok(nl, d0, l0, order),
        d0.is_prefix_of(d1),
        p < nl.num_pins(),
        l0.len() == nl.num_pins(),
        !order.contains(p),
        super::rules::pin_rule(nl, d1, l0, p, o),
        forall|d: usize| #[trigger] nl.deps(p).contains(d) ==> order.contains(d),
    ensures
        order_ok(nl, d1, l0.update(p as int, o), order.push(p)),
{
    let l1 = l0.update(p as int, o);
    let ord1 = order.push(p);
    let n = order.len() as int;
    assert forall|i: int, d: usize| 0 <= i < ord1.len() && #[trigger] nl.deps(ord1[i]).contains(d) implies ord1.take(
        i,
    ).contains(d) by {
        if i < n {
            assert(ord1[i] == order[i]);
            assert(ord1.take(i) =~= order.take(i));
        } else {
            assert(ord1.take(i) =~= order);
        }
    }
    assert forall|i: int| 0 <= i < ord1.len() implies pin_ok(nl, d1, l1, #[trigger] ord1[i]) by {
        if i < n {
            let x = order[i];
            assert(ord1[i] == x);
            assert(order.contains(x));
            assert(pin_ok(nl, d0, l0, x));
            assert forall|d: usize| #[trigger] nl.deps(x).contains(d) implies l1[d as int] == l0[d as int] by {
                assert(nl.deps(order[i]).contains(d));
                assert(order.take(i).contains(d));
                let j = order.take(i).index_of(d);
                assert(order[j] == d);
                assert(order.contains(d));
            }
            lemma_pin_kept(nl, d0, d1, l0, l1, x);
        } else {
            assert(ord1[i] == p);
            assert forall|d: usize| #[trigger] nl.deps(p).contains(d) implies l1[d as int] == l0[d as int] by {
                assert(order.contains(d));
            }
            lemma_rule_kept(nl, d1, l0, l1, p, o);
        }
    }
    assert forall|i: int| 0 <= i < ord1.len() implies #[trigger] ord1[i] < nl.num_pins() by {
        if i < n {
            assert(ord1[i] == order[i]);
        }
    }
    assert(ord1.no_duplicates()) by {
        assert forall|i: int, j: int| 0 <= i < ord1.len() && 0 <= j < ord1.len() && i != j
            implies ord1[i] != ord1[j] by {
            if i < n {
                assert(order.contains(order[i]));
            }
            if j < n {
                assert(order.contains(order[j]));
            }
        }
    }
}

/// A rule depends on the literals of the dependencies only.
proof fn lemma_rule_kept(
    nl: Netlist,
    drivers: Seq<DriverType>,
    l0: Seq<usize>,
    l1: Seq<usize>,
    p: usize,
    o: usize,
)
    requires
        super::rules::pin_rule(nl, drivers, l0, p, o),
        forall|d: usize| #[trigger] nl.deps(p).contains(d) ==> l1[d as int] == l0[d as int],
        0 <= p < l1.len(),
        l1[p as int] == o,
    ensures
        pin_ok(nl, drivers, l1, p),
{
    lemma_deps_named(nl, p);
    let c = nl.cell(p);
    if nl.is_input(p) {
        if nl.is_driven(p) {
            assert(l1[nl.root(p) as int] == l0[nl.root(p) as int]);
        }
    } else if c != 0 {
        match nl.kind(c) {
            CellKind::Dff => {
                assert(lit_or(l1, nl.cell_pin(c, "S"@), 1) == lit_or(l0, nl.cell_pin(c, "S"@), 1));
                assert(lit_or(l1, nl.cell_pin(c, "R"@), 1) == lit_or(l0, nl.cell_pin(c, "R"@), 1));
                assert(pin_ok(nl, drivers, l1, p));
            },
            CellKind::And(_, _, _) => {
                assert(pin_ok(nl, drivers, l1, p));
            },
            CellKind::Inv | CellKind::Buf => {
                assert(pin_ok(nl, drivers, l1, p));
            },
            _ => {
                assert(pin_ok(nl, drivers, l1, p));
            },
        }
    }
}

impl Builder {
    /// Adds the pin of a flip-flop for an output.
    fn enter_dff(&mut self, nl: &Netlist, p: usize, Ghost(path): Ghost<Seq<usize>>, Ghost(base): Ghost<nat>) -> (r:
        Option<usize>)
        requires
            old(self).inv(*nl, path, base),
            is_output_of(*nl, p, nl.cell(p)),
            nl.kind(nl.cell(p)) == CellKind::Dff,
            old(self).aig.num_aigpins + 1 <= base + 3 * old(self).order@.len() + path.len(),
        ensures
            r is None ==> old(self).aig.num_aigpins == MAX_AIGPINS,
            r is Some ==> final(self).inv(*nl, path, base),
            r matches Some(q) ==> q <= final(self).aig.num_aigpins,
            r matches Some(q) ==> final(self).aig.drivers@[q as int] == DriverType::DFF(nl.cell(p)),
            final(self).order@ == old(self).order@,
            old(self).aig.drivers@.is_prefix_of(final(self).aig.drivers@),
            r matches Some(q) ==> q == old(self).aig.drivers@.len(),
            r is Some ==> final(self).drawn() == (Draft {
                drivers: old(self).aig.drivers@.push(DriverType::DFF(nl.cell(p))),
                dffs: listed(old(self).aig.dffs.keys(), nl.cell(p)),
                ..old(self).drawn()
            }),
    {
        let ghost a0 = self.aig;
        let ghost order = self.order@;
        let ghost l0 = self.aig.pin2aigpin_iv@;
        let c = nl.pin2cell[p];
        let q = match self.aig.add_aigpin(DriverType::DFF(c)) {
            None => {
                return None;
            },
            Some(q) => q,
        };
        let ghost a1 = self.aig;
        let dff: DFF = match self.aig.dffs.get(c) {
            Some(d) => DFF { d_iv: d.d_iv, en_iv: d.en_iv, q },
            None => DFF { d_iv: 0, en_iv: 0, q },
        };
        let _ = self.aig.dffs.insert(c, dff);
        proof {
            super::values::lemma_one_more(*nl, a0, a1, DriverType::DFF(c));
            super::values::lemma_pins_same(*nl, a1, self.aig);
            assert(dffs_ok(*nl, self.aig.dffs, self.aig.drivers@)) by {
                assert forall|k: usize| #[trigger] self.aig.dffs.has(k) implies k < nl.num_cells() && has_output(*nl,
                    k) && nl.kind(k) == CellKind::Dff && 1
                    <= self.aig.dffs.at(k).q < self.aig.drivers@.len()
                    && self.aig.drivers@[self.aig.dffs.at(k).q as int] == DriverType::DFF(k) by {
                    if k != c {
                        assert(a0.dffs.has(k));
                    }
                }
                assert forall|i: int| 0 <= i < self.aig.drivers@.len() implies (
                #[trigger] self.aig.drivers@[i] matches DriverType::DFF(k) ==> self.aig.dffs.has(k) && i
                    <= self.aig.dffs.at(k).q) by {
                    if i < a0.drivers@.len() {
                        assert(self.aig.drivers@[i] == a0.drivers@[i]);
                    }
                }
            }
            super::kept::lemma_srams_extended(*nl, a0.srams, a0.drivers@, a1.drivers@, l0, order);
            super::kept::lemma_macros_extended(*nl, a0.macros, a0.drivers@, a1.drivers@, l0, order);
            assert forall|i: int| 0 <= i < order.len() implies pin_ok(*nl, a1.drivers@, l0, #[trigger] order[i]) by {
                lemma_pin_kept(*nl, a0.drivers@, a1.drivers@, l0, l0, order[i]);
            }
        }
        Some(q)
    }

    /// Gives a pin its literal, after all pins that it depends on.
    ///
    /// For sequential logic like DFFs and RAMs, the literals of outputs are
    /// found here, with possible patches for asynchronous set and reset; their
    /// inputs come later.
    pub(crate) fn dfs_netlistdb_build_aig(
        &mut self,
        nl: &Netlist,
        pinid: usize,
        Ghost(path): Ghost<Seq<usize>>,
        Ghost(base): Ghost<nat>,
    ) -> (r: Result<(), BuildError>)
        requires
            old(self).inv(*nl, path, base),
            pinid < nl.num_pins(),
            path.len() > 0 ==> nl.deps(path.last()).contains(pinid),
        ensures
            r is Ok ==> final(self).inv(*nl, path, base) && final(self).order@.contains(pinid),
            r is Ok ==> old(self).order@.is_prefix_of(final(self).order@),
            r is Ok ==> old(self).aig.drivers@.is_prefix_of(final(self).aig.drivers@),
            r is Ok ==> final(self).drawn() == nl.visit(old(self).drawn(), pinid, (nl.num_pins() - path.len()) as nat),
            r matches Err(e) ==> if e is TooLarge {
                base + 3 * nl.num_pins() > MAX_AIGPINS
            } else {
                pin_fault(*nl, e)
            },
        decreases nl.num_pins() - path.len(),
    {
        if self.topo_instack[pinid] {
            proof {
                lemma_loop(*nl, path, pinid);
            }
            return Err(BuildError::CombLoop(pinid));
        }
        if self.topo_vis[pinid] {
            return Ok(());
        }
        let ghost s0 = *self;
        let ghost path1 = path.push(pinid);
        self.topo_vis[pinid] = true;
        self.topo_instack[pinid] = true;
        proof {
            lemma_entered(*nl, s0, *self, path, base, pinid);
        }
        let ghost s1 = *self;
        let mut q: usize = 0;
        if nl.pindirect[pinid] == Direction::O {
            let c = nl.pin2cell[pinid];
            if c != 0 && nl.kind_of(c) == CellKind::Dff {
                match self.enter_dff(nl, pinid, Ghost(path1), Ghost(base)) {
                    None => {
                        proof {
                            lemma_room(*nl, s1, path1, base);
                        }
                        return Err(BuildError::TooLarge);
                    },
                    Some(pin) => {
                        q = pin;
                    },
                }
            }
        }
        let ghost s2 = *self;
        let ghost is_dff = nl.is_dff_out(pinid);
        let ghost fuel = (nl.num_pins() - path.len()) as nat;
        let ghost inside = nl.enter(s0.drawn(), pinid);
        proof {
            lemma_marked(s0.topo_vis@, pinid);
            assert(s2.drawn() == inside);
        }
        let deps = nl.list_deps(pinid);
        let n = deps.len();
        let mut i: usize = 0;
        while i < n
            invariant
                n == deps@.len(),
                i <= n,
                deps@ == nl.deps(pinid),
                forall|i: int| 0 <= i < deps@.len() ==> #[trigger] deps@[i] < nl.num_pins(),
                path1 == path.push(pinid),
                path1.len() <= nl.num_pins(),
                self.inv(*nl, path1, base),
                s0.order@.is_prefix_of(self.order@),
                s0.aig.drivers@.is_prefix_of(self.aig.drivers@),
                forall|j: int| 0 <= j < i ==> self.order@.contains(#[trigger] deps@[j]),
                is_dff ==> q <= self.aig.num_aigpins && self.aig.drivers@[q as int] == DriverType::DFF(
                    nl.cell(pinid),
                ) && q == s0.aig.drivers@.len(),
                fuel == nl.num_pins() - path.len(),
                self.drawn() == nl.visit_all(inside, deps@.take(i as int), (fuel - 1) as nat),
            decreases n - i,
        {
            let ghost s3 = *self;
            assert(path1.last() == pinid);
            assert(nl.deps(pinid).contains(deps@[i as int]));
            match self.dfs_netlistdb_build_aig(nl, deps[i], Ghost(path1), Ghost(base)) {
                Err(e) => {
                    return Err(e);
                },
                Ok(()) => {},
            }
            proof {
                assert(deps@.take(i + 1).drop_last() =~= deps@.take(i as int));
                assert(deps@.take(i + 1).last() == deps@[i as int]);
                assert forall|j: int| 0 <= j < i + 1 implies self.order@.contains(#[trigger] deps@[j]) by {
                    if j < i {
                        let k = s3.order@.index_of(deps@[j]);
                        assert(s3.order@.contains(deps@[j]));
                        assert(self.order@[k] == deps@[j]);
                    }
                }
            }
            i += 1;
        }
        let ghost s4 = *self;
        proof {
            lemma_ready(*nl, s4, path1, base, pinid, path);
            lemma_room(*nl, s4, path1, base);
        }
        let ghost order = self.order@;
        let o = match self.aig.value_of(nl, pinid, q, Ghost(order)) {
            Err(e) => {
                return Err(e);
            },
            Ok(o) => o,
        };
        let ghost a5 = self.aig;
        self.aig.pin2aigpin_iv[pinid] = o;
        self.topo_instack[pinid] = false;
        proof {
            self.order@ = order.push(pinid);
            assert forall|d: usize| #[trigger] nl.deps(pinid).contains(d) implies order.contains(d) by {
                let j = nl.deps(pinid).index_of(d);
                assert(deps@[j] == d);
            }
            lemma_left(*nl, s4, a5, *self, path, base, pinid, o);
            assert(deps@.take(n as int) =~= deps@);
            lemma_drawn(*nl, s0, s4, a5, *self, pinid, q, o, fuel);
        }
        Ok(())
    }
}

/// One more pin is marked.
proof fn lemma_marked(vis: Seq<bool>, p: usize)
    requires
        p < vis.len(),
    ensures
        marked(vis.update(p as int, true)) == marked(vis).insert(p),
{
    assert(marked(vis.update(p as int, true)) =~= marked(vis).insert(p));
}

/// A pin has been visited.
proof fn lemma_drawn(nl: Netlist, s0: Builder, s1: Builder, a: AIG, s2: Builder, p: usize, q: usize, o: usize,
    fuel: nat)
    requires
        fuel > 0,
        !s0.drawn().entered.contains(p),
        s1.drawn() == nl.visit_all(nl.enter(s0.drawn(), p), nl.deps(p), (fuel - 1) as nat),
        is_turn(nl, s1.aig, a, p, q, o),
        a.pin2aigpin_iv@ == s1.aig.pin2aigpin_iv@,
        nl.is_dff_out(p) ==> q == s0.aig.drivers@.len(),
        s2.aig == (AIG { pin2aigpin_iv: s2.aig.pin2aigpin_iv, ..a }),
        s2.aig.pin2aigpin_iv@ == a.pin2aigpin_iv@.update(p as int, o),
        s2.topo_vis@ == s1.topo_vis@,
    ensures
        s2.drawn() == nl.visit(s0.drawn(), p, fuel),
{
    reveal(is_turn);
    let d = nl.leave(s1.drawn(), p, s0.aig.drivers@.len() as usize);
    assert(s2.drawn() == d);
}

/// A pin has been entered.
proof fn lemma_entered(nl: Netlist, s0: Builder, s1: Builder, path: Seq<usize>, base: nat, p: usize)
    requires
        s0.inv(nl, path, base),
        p < nl.num_pins(),
        !s0.topo_vis@[p as int],
        path.len() > 0 ==> nl.deps(path.last()).contains(p),
        s1.aig == s0.aig,
        s1.order == s0.order,
        s1.topo_vis@ == s0.topo_vis@.update(p as int, true),
        s1.topo_instack@ == s0.topo_instack@.update(p as int, true),
    ensures
        s1.inv(nl, path.push(p), base),
        s1.aig.num_aigpins + 1 <= base + 3 * s1.order@.len() + path.push(p).len(),
        path.len() + 1 <= nl.num_pins(),
{
    let path1 = path.push(p);
    let order = s0.order@;
    assert(!order.contains(p) && !path.contains(p));
    assert forall|x: usize| path1.contains(x) <==> path.contains(x) || x == p by {
        if path.contains(x) {
            assert(path1[path.index_of(x)] == x);
        }
        if x == p {
            assert(path1[path.len() as int] == p);
        }
        if path1.contains(x) && x != p {
            assert(path[path1.index_of(x)] == x);
        }
    }
    assert(path1.no_duplicates()) by {
        assert forall|i: int, j: int|
            0 <= i < path1.len() && 0 <= j < path1.len() && i != j implies path1[i] != path1[j] by {
            if i < path.len() {
                assert(path.contains(path[i]));
            }
            if j < path.len() {
                assert(path.contains(path[j]));
            }
        }
    }
    assert forall|i: int| 0 <= i < path1.len() implies #[trigger] path1[i] < nl.num_pins() && !order.contains(
        path1[i],
    ) by {
        if i < path.len() {
            assert(path1[i] == path[i]);
        }
    }
    assert(is_dep_walk(nl, path1)) by {
        assert forall|i: int| 0 <= i < path1.len() - 1 implies #[trigger] nl.deps(path1[i]).contains(path1[i + 1]) by {
            assert(path1[i] == path[i]);
            if i < path.len() - 1 {
                assert(nl.deps(path[i]).contains(path[i + 1]));
                assert(path1[i + 1] == path[i + 1]);
            } else {
                assert(path1[i] == path.last());
            }
        }
    }
    crate::aig::lemma_distinct_len(path1, nl.num_pins() as int);
}

/// There are no more pins in the order and on the path than there are.
pub(super) proof fn lemma_room(nl: Netlist, s: Builder, path: Seq<usize>, base: nat)
    requires
        s.inv(nl, path, base),
    ensures
        s.order@.len() + path.len() <= nl.num_pins(),
        path.len() >= 1 ==> s.aig.num_aigpins + 2 <= base + 3 * nl.num_pins(),
{
    let all = s.order@ + path;
    assert forall|i: int| 0 <= i < all.len() implies #[trigger] all[i] < nl.num_pins() by {
        if i < s.order@.len() {
            assert(all[i] == s.order@[i]);
        } else {
            assert(all[i] == path[i - s.order@.len()]);
        }
    }
    assert(all.no_duplicates()) by {
        let n = s.order@.len();
        assert forall|i: int, j: int| 0 <= i < all.len() && 0 <= j < all.len() && i < j implies all[i] != all[j] by {
            if i < n && j >= n {
                assert(s.order@.contains(s.order@[i]));
                assert(!s.order@.contains(path[j - n]));
            }
        }
    }
    crate::aig::lemma_distinct_len(all, nl.num_pins() as int);
}

/// A pin can get its literal once its dependencies have theirs.
proof fn lemma_ready(nl: Netlist, s: Builder, path1: Seq<usize>, base: nat, p: usize, path: Seq<usize>)
    requires
        s.inv(nl, path1, base),
        path1 == path.push(p),
        forall|j: int| 0 <= j < nl.deps(p).len() ==> s.order@.contains(#[trigger] nl.deps(p)[j]),
    ensures
        ready(nl, s.aig, p, s.order@),
{
    let order = s.order@;
    let lits = s.aig.pin2aigpin_iv@;
    assert(path1[path.len() as int] == p);
    assert(p < nl.num_pins() && !order.contains(p));
    assert forall|i: int| 0 <= i < order.len() implies #[trigger] order[i] < nl.num_pins() && order[i] != p by {
        assert(order.contains(order[i]));
    }
    assert forall|d: usize| #[trigger] nl.deps(p).contains(d) && !defined(lits[d as int]) implies is_gated(nl, d) by {
        let j = nl.deps(p).index_of(d);
        assert(order.contains(nl.deps(p)[j]));
        let i = order.index_of(d);
        lemma_undefined(nl, s.aig.drivers@, lits, order, i);
    }
}

/// A pin has got its literal and is left.
proof fn lemma_left(
    nl: Netlist,
    s0: Builder,
    a: AIG,
    s1: Builder,
    path: Seq<usize>,
    base: nat,
    p: usize,
    o: usize,
)
    requires
        s0.inv(nl, path.push(p), base),
        found(nl, s0.aig, a, p, o, s0.order@),
        forall|d: usize| #[trigger] nl.deps(p).contains(d) ==> s0.order@.contains(d),
        s1.aig == (AIG { pin2aigpin_iv: s1.aig.pin2aigpin_iv, ..a }),
        s1.aig.pin2aigpin_iv@ == a.pin2aigpin_iv@.update(p as int, o),
        s1.topo_vis@ == s0.topo_vis@,
        s1.topo_instack@ == s0.topo_instack@.update(p as int, false),
        s1.order@ == s0.order@.push(p),
    ensures
        s1.inv(nl, path, base),
        s1.order@.contains(p),
        s0.order@.is_prefix_of(s1.order@),
        s0.aig.drivers@.is_prefix_of(s1.aig.drivers@),
{
    let path1 = path.push(p);
    let order = s0.order@;
    let ord1 = s1.order@;
    assert(path1[path.len() as int] == p);
    assert(p < nl.num_pins() && !order.contains(p));
    lemma_settled(nl, s0.aig.drivers@, a.drivers@, s0.aig.pin2aigpin_iv@, order, p, o);
    assert(ord1[order.len() as int] == p);
    assert forall|x: usize| #[trigger] ord1.contains(x) <==> order.contains(x) || x == p by {
        if order.contains(x) {
            assert(ord1[order.index_of(x)] == x);
        }
        if ord1.contains(x) && x != p {
            assert(order[ord1.index_of(x)] == x);
        }
    }
    assert forall|x: usize| #[trigger] path1.contains(x) <==> path.contains(x) || x == p by {
        if path.contains(x) {
            assert(path1[path.index_of(x)] == x);
        }
        if path1.contains(x) && x != p {
            assert(path[path1.index_of(x)] == x);
        }
    }
    assert(!path.contains(p)) by {
        if path.contains(p) {
            let k = path.index_of(p);
            assert(path1[k] == path1[path.len() as int]);
        }
    }
    assert(path.no_duplicates()) by {
        assert forall|i: int, j: int| 0 <= i < path.len() && 0 <= j < path.len() && i != j
            implies path[i] != path[j] by {
            assert(path1[i] != path1[j]);
        }
    }
    assert forall|i: int| 0 <= i < path.len() implies #[trigger] path[i] < nl.num_pins() && !ord1.contains(path[i]) by {
        assert(path1[i] == path[i]);
        assert(path.contains(path[i]));
    }
    assert(is_dep_walk(nl, path)) by {
        assert forall|i: int| 0 <= i < path.len() - 1 implies #[trigger] nl.deps(path[i]).contains(path[i + 1]) by {
            assert(nl.deps(path1[i]).contains(path1[i + 1]));
        }
    }
    assert(s1.aig.lits_wf()) by {
        assert forall|x: int| 0 <= x < s1.aig.pin2aigpin_iv@.len() implies !defined(
            #[trigger] s1.aig.pin2aigpin_iv@[x],
        ) || s1.aig.pin2aigpin_iv@[x] / 2 <= s1.aig.num_aigpins by {
            if x != p {
                assert(!defined(a.pin2aigpin_iv@[x]) || a.pin2aigpin_iv@[x] / 2 <= a.num_aigpins);
            }
        }
    }
    assert forall|x: usize| x < nl.num_pins() implies (#[trigger] s1.topo_instack@[x as int] <==> path.contains(x)) by {
        assert(path1.contains(x) <==> path.contains(x) || x == p);
    }
    assert forall|x: usize| x < nl.num_pins() implies (#[trigger] s1.topo_vis@[x as int] <==> ord1.contains(x)
        || path.contains(x)) by {
        assert(path1.contains(x) <==> path.contains(x) || x == p);
    }
    assert forall|x: usize| x < nl.num_pins() && !ord1.contains(x) implies #[trigger] s1.aig.pin2aigpin_iv@[x as int]
        == usize::MAX by {
        assert(s0.aig.pin2aigpin_iv@[x as int] == usize::MAX);
    }
}

} // verus!
