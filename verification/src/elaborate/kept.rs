//! What stays as it is while a graph grows.

use super::cells::{macro_deps, pins_named, present, CellKind};
use super::rules::{
    dff_out, dffs_ok, has_output, is_behind, is_out_lit, is_out_port, lit_or, macro_drives, macro_out, macro_slot_ok,
    macro_slots_ok, macros_ok, outs_ok, pin_ok, ram_bit_ok, ram_bits_ok, ram_drives, ram_out, srams_ok,
};
use crate::aig::{defined, DriverType, RAMBlock, DFF, MAX_AIGPINS};
use crate::collections::Table;
use crate::macros::MacroInst;
use crate::netlist::Netlist;
use vstd::prelude::*;

verus! {

/// The last pin of a name is among the pins of that name.
pub(crate) proof fn lemma_last_among(nl: Netlist, pins: Seq<usize>, a: Seq<char>, b: Seq<char>)
    ensures
        nl.last_named(pins, a) matches Some(p) ==> pins_named(nl, pins, a, b).contains(p),
        nl.last_named(pins, b) matches Some(p) ==> pins_named(nl, pins, a, b).contains(p),
    decreases pins.len(),
{
    if pins.len() > 0 {
        let before = pins.drop_last();
        lemma_last_among(nl, before, a, b);
        let rest = pins_named(nl, before, a, b);
        let all = pins_named(nl, pins, a, b);
        assert forall|p: usize| rest.contains(p) implies all.contains(p) by {
            assert(all[rest.index_of(p)] == p);
        }
        if nl.name(pins.last()) == a || nl.name(pins.last()) == b {
            assert(all[rest.len() as int] == pins.last());
        }
    }
}

/// The input pins of a cell are among the pins that its outputs depend on.
pub(crate) proof fn lemma_deps_named(nl: Netlist, p: usize)
    ensures
        ({
            let c = nl.cell(p);
            !nl.is_input(p) && c != 0 ==> match nl.kind(c) {
                CellKind::Dff => {
                    &&& nl.cell_pin(c, "S"@) matches Some(d) ==> nl.deps(p).contains(d)
                    &&& nl.cell_pin(c, "R"@) matches Some(d) ==> nl.deps(p).contains(d)
                },
                CellKind::ClockGate => {
                    &&& nl.cell_pin(c, "CP"@) matches Some(d) ==> nl.deps(p).contains(d)
                    &&& nl.cell_pin(c, "E"@) matches Some(d) ==> nl.deps(p).contains(d)
                },
                CellKind::And(_, _, _) | CellKind::Inv | CellKind::Buf | CellKind::Unknown => {
                    &&& nl.cell_pin(c, "A"@) matches Some(d) ==> nl.deps(p).contains(d)
                    &&& nl.cell_pin(c, "B"@) matches Some(d) ==> nl.deps(p).contains(d)
                },
                _ => true,
            }
        }),
        nl.is_driven(p) ==> nl.deps(p).contains(nl.root(p)),
{
    let c = nl.cell(p);
    lemma_last_among(nl, nl.pins(c), "S"@, "R"@);
    lemma_present(nl.cell_pin(c, "CP"@), nl.cell_pin(c, "E"@));
    lemma_present(nl.cell_pin(c, "A"@), nl.cell_pin(c, "B"@));
    if nl.is_driven(p) {
        assert(nl.deps(p)[0] == nl.root(p));
    }
}

proof fn lemma_present(a: Option<usize>, b: Option<usize>)
    ensures
        a matches Some(p) ==> present(a, b).contains(p),
        b matches Some(p) ==> present(a, b).contains(p),
{
    if let Some(p) = a {
        assert(present(a, b)[0] == p);
    }
    if let Some(p) = b {
        assert(present(a, b)[present(a, b).len() - 1] == p);
    }
}

/// A pin keeps its literal.
pub(crate) proof fn lemma_pin_kept(
    nl: Netlist,
    d0: Seq<DriverType>,
    d1: Seq<DriverType>,
    l0: Seq<usize>,
    l1: Seq<usize>,
    p: usize,
)
    requires
        d0.is_prefix_of(d1),
        forall|d: usize| #[trigger] nl.deps(p).contains(d) ==> l1[d as int] == l0[d as int],
        l1[p as int] == l0[p as int],
        pin_ok(nl, d0, l0, p),
    ensures
        pin_ok(nl, d1, l1, p),
{
    lemma_deps_named(nl, p);
    let c = nl.cell(p);
    let o = l0[p as int];
    assert forall|i: int| 0 <= i < d0.len() implies #[trigger] d0[i] == d1[i] by {}
    if nl.is_input(p) {
        if nl.is_driven(p) {
            assert(l1[nl.root(p) as int] == l0[nl.root(p) as int]);
        }
        assert(pin_ok(nl, d1, l1, p));
    } else if c != 0 {
        if let Some(a) = nl.cell_pin(c, "A"@) {
            assert(nl.deps(p).contains(a) ==> l1[a as int] == l0[a as int]);
        }
        if let Some(b) = nl.cell_pin(c, "B"@) {
            assert(nl.deps(p).contains(b) ==> l1[b as int] == l0[b as int]);
        }
    }
    if !nl.is_input(p) && c != 0 && nl.kind(c) == CellKind::Dff {
        let s = lit_or(l0, nl.cell_pin(c, "S"@), 1);
        let r = lit_or(l0, nl.cell_pin(c, "R"@), 1);
        let (q, x) = choose|q: usize, x: usize| #[trigger] dff_out(d0, c, s, r, q, x, o);
        assert(lit_or(l1, nl.cell_pin(c, "S"@), 1) == s);
        assert(lit_or(l1, nl.cell_pin(c, "R"@), 1) == r);
        assert(dff_out(d1, c, s, r, q, x, o));
        assert(pin_ok(nl, d1, l1, p));
    } else if !nl.is_input(p) && c != 0 {
        match nl.kind(c) {
            CellKind::Ram => {
                assert(pin_ok(nl, d1, l1, p));
            },
            CellKind::Macro(_) => {
                assert(pin_ok(nl, d1, l1, p));
            },
            CellKind::And(_, _, _) => {
                assert(pin_ok(nl, d1, l1, p));
            },
            _ => {
                assert(pin_ok(nl, d1, l1, p));
            },
        }
    }
}

pub(crate) proof fn lemma_dffs_kept(nl: Netlist, dffs: Table<DFF>, d0: Seq<DriverType>, d1: Seq<DriverType>)
    requires
        dffs_ok(nl, dffs, d0),
        d0.is_prefix_of(d1),
        forall|i: int| d0.len() <= i < d1.len() ==> !(#[trigger] d1[i] is DFF),
    ensures
        dffs_ok(nl, dffs, d1),
{
    assert forall|i: int| 0 <= i < d1.len() implies (#[trigger] d1[i] matches DriverType::DFF(c) ==> dffs.has(c) && i
        <= dffs.at(c).q) by {
        if i < d0.len() {
            assert(d0[i] == d1[i]);
        }
    }
    assert forall|c: usize| #[trigger] dffs.has(c) implies c < nl.num_cells() && has_output(nl, c)
        && nl.kind(c) == CellKind::Dff && 1 <= dffs.at(c).q < d1.len()
        && d1[dffs.at(c).q as int] == DriverType::DFF(c) by {
        assert(d0[dffs.at(c).q as int] == d1[dffs.at(c).q as int]);
    }
}

pub(crate) proof fn lemma_ram_bits_kept(
    nl: Netlist,
    d0: Seq<DriverType>,
    d1: Seq<DriverType>,
    l0: Seq<usize>,
    p: usize,
    o: usize,
    c: usize,
    r: RAMBlock,
)
    requires
        ram_bits_ok(nl, d0, l0, c, r),
        d0.is_prefix_of(d1),
        d0.len() <= MAX_AIGPINS + 1,
        l0.len() == nl.num_pins(),
        p < l0.len(),
        l0[p as int] == usize::MAX,
    ensures
        ram_bits_ok(nl, d1, l0.update(p as int, o), c, r),
{
    let l1 = l0.update(p as int, o);
    assert forall|b: int| 0 <= b < 32 implies ram_bit_ok(nl, d1, l1, c, b, #[trigger] r.port_r_rd_data@[b]) by {
        let v = r.port_r_rd_data@[b];
        assert(ram_bit_ok(nl, d0, l0, c, b, v));
        if v != 0 {
            let x = choose|x: usize|
                x < nl.num_pins() && #[trigger] ram_out(nl, x) == Some((c, b as usize)) && l0[x as int] == v * 2;
            assert(d0[v as int] == d1[v as int]);
            assert(x != p);
            assert(l1[x as int] == v * 2);
            assert(ram_drives(nl, l1, c, b, v));
        }
    }
}

pub(crate) proof fn lemma_srams_kept(
    nl: Netlist,
    srams: Table<RAMBlock>,
    d0: Seq<DriverType>,
    d1: Seq<DriverType>,
    l0: Seq<usize>,
    order: Seq<usize>,
    p: usize,
    o: usize,
)
    requires
        srams_ok(nl, srams, d0, l0, order),
        d0.is_prefix_of(d1),
        d0.len() <= MAX_AIGPINS + 1,
        l0.len() == nl.num_pins(),
        p < l0.len(),
        l0[p as int] == usize::MAX,
        ram_out(nl, p) is None,
    ensures
        srams_ok(nl, srams, d1, l0.update(p as int, o), order.push(p)),
{
    let l1 = l0.update(p as int, o);
    assert forall|c: usize| #[trigger] srams.has(c) implies c < nl.num_cells() && nl.kind(c) == CellKind::Ram
        && ram_bits_ok(
        nl,
        d1,
        l1,
        c,
        srams.at(c),
    ) by {
        lemma_ram_bits_kept(nl, d0, d1, l0, p, o, c, srams.at(c));
    }
    assert forall|i: int| 0 <= i < order.push(p).len() implies (ram_out(
        nl,
        #[trigger] order.push(p)[i],
    ) matches Some((c, b)) ==> srams.has(c) && srams.at(c).port_r_rd_data@[b as int] != 0) by {
        if i < order.len() {
            assert(order.push(p)[i] == order[i]);
        }
    }
}

pub(crate) proof fn lemma_macro_slots_kept(
    nl: Netlist,
    d0: Seq<DriverType>,
    d1: Seq<DriverType>,
    l0: Seq<usize>,
    p: usize,
    o: usize,
    c: usize,
    m: MacroInst,
)
    requires
        macro_slots_ok(nl, d0, l0, c, m),
        d0.is_prefix_of(d1),
        d0.len() <= MAX_AIGPINS + 1,
        l0.len() == nl.num_pins(),
        p < l0.len(),
        l0[p as int] == usize::MAX,
    ensures
        macro_slots_ok(nl, d1, l0.update(p as int, o), c, m),
{
    let l1 = l0.update(p as int, o);
    assert forall|s: int| 0 <= s < m.outputs@.len() implies macro_slot_ok(nl, d1, l1, c, s,
        #[trigger] m.outputs@[s]) by {
        let v = m.outputs@[s];
        assert(macro_slot_ok(nl, d0, l0, c, s, v));
        if v != 0 {
            let x = choose|x: usize|
                x < nl.num_pins() && #[trigger] macro_out(nl, x) == Some((c, s as usize)) && l0[x as int] == v * 2;
            assert(d0[v as int] == d1[v as int]);
            assert(x != p);
            assert(l1[x as int] == v * 2);
            assert(macro_drives(nl, l1, c, s, v));
        }
    }
}

pub(crate) proof fn lemma_macros_kept(
    nl: Netlist,
    macros: Table<MacroInst>,
    d0: Seq<DriverType>,
    d1: Seq<DriverType>,
    l0: Seq<usize>,
    order: Seq<usize>,
    p: usize,
    o: usize,
)
    requires
        macros_ok(nl, macros, d0, l0, order),
        d0.is_prefix_of(d1),
        d0.len() <= MAX_AIGPINS + 1,
        forall|i: int| d0.len() <= i < d1.len() ==> !(#[trigger] d1[i] is Macro),
        l0.len() == nl.num_pins(),
        p < l0.len(),
        l0[p as int] == usize::MAX,
        macro_out(nl, p) is None,
        !order.contains(p),
        forall|i: int| 0 <= i < order.len() ==> #[trigger] order[i] < l0.len(),
    ensures
        macros_ok(nl, macros, d1, l0.update(p as int, o), order.push(p)),
{
    let l1 = l0.update(p as int, o);
    assert forall|c: usize| #[trigger] macros.has(c) implies c < nl.num_cells() && has_output(nl, c)
        && nl.kind(c) == CellKind::Macro(macros.at(c).kind)
        && macros.at(c).wf() && macro_slots_ok(nl, d1, l1, c, macros.at(c)) by {
        lemma_macro_slots_kept(nl, d0, d1, l0, p, o, c, macros.at(c));
    }
    assert forall|i: int| 0 <= i < order.push(p).len() implies (macro_out(
        nl,
        #[trigger] order.push(p)[i],
    ) matches Some((c, s)) ==> macros.has(c) && macros.at(c).outputs@[s as int] != 0) by {
        if i < order.len() {
            assert(order.push(p)[i] == order[i]);
        }
    }
    assert forall|i: int| 0 <= i < d1.len() implies (#[trigger] d1[i] matches DriverType::Macro(c, s) ==> macros.has(c)
        && s < macros.at(c).kind.spec_num_outputs() && macros.at(c).outputs@[s as int] != 0) by {
        if i < d0.len() {
            assert(d0[i] == d1[i]);
        }
    }
    assert forall|i: int| 0 <= i < d1.len() implies (#[trigger] d1[i] matches DriverType::Macro(c, s) ==> is_behind(
        nl,
        l1,
        order.push(p),
        c,
        s,
        i,
    )) by {
        if i < d0.len() {
            assert(d0[i] == d1[i]);
            if let DriverType::Macro(c, s) = d0[i] {
                lemma_behind_kept(nl, l0, order, c, s, i, p, o);
            }
        }
    }
}

/// What is done stays done.
pub(crate) proof fn lemma_behind_kept(
    nl: Netlist,
    l0: Seq<usize>,
    order: Seq<usize>,
    c: usize,
    s: usize,
    i: int,
    p: usize,
    o: usize,
)
    requires
        is_behind(nl, l0, order, c, s, i),
        !order.contains(p),
        p < l0.len(),
        forall|i: int| 0 <= i < order.len() ==> #[trigger] order[i] < l0.len(),
    ensures
        is_behind(nl, l0.update(p as int, o), order.push(p), c, s, i),
{
    let l1 = l0.update(p as int, o);
    assert forall|d: usize| #[trigger] macro_deps(nl, c, s).contains(d) implies order.push(p).contains(d) && (defined(
        l1[d as int],
    ) ==> l1[d as int] / 2 < i) by {
        assert(order.contains(d));
        assert(order[order.index_of(d)] < l0.len());
        assert(order.push(p)[order.index_of(d)] == d);
    }
}

/// The primary outputs with one more pin.
pub(crate) proof fn lemma_outs_with(
    nl: Netlist,
    outs0: Seq<usize>,
    outs1: Seq<usize>,
    l0: Seq<usize>,
    order: Seq<usize>,
    p: usize,
    o: usize,
)
    requires
        outs_ok(nl, outs0, l0, order),
        forall|i: int| 0 <= i < order.len() ==> #[trigger] order[i] < l0.len() && order[i] != p,
        p < l0.len(),
        forall|v: usize| #[trigger]
            outs1.contains(v) <==> outs0.contains(v) || (is_out_port(nl, p) && v == o),
    ensures
        outs_ok(nl, outs1, l0.update(p as int, o), order.push(p)),
{
    let l1 = l0.update(p as int, o);
    let ord1 = order.push(p);
    assert forall|v: usize| #[trigger] outs1.contains(v) <==> is_out_lit(nl, l1, ord1, v) by {
        if outs0.contains(v) {
            let i = choose|i: int|
                0 <= i < order.len() && #[trigger] is_out_port(nl, order[i]) && l0[order[i] as int] == v;
            assert(ord1[i] == order[i]);
            assert(is_out_port(nl, ord1[i]) && l1[ord1[i] as int] == v);
        }
        if is_out_port(nl, p) && v == o {
            assert(ord1[order.len() as int] == p);
            assert(is_out_port(nl, ord1[order.len() as int]));
        }
        if is_out_lit(nl, l1, ord1, v) {
            let i = choose|i: int|
                0 <= i < ord1.len() && #[trigger] is_out_port(nl, ord1[i]) && l1[ord1[i] as int] == v;
            if i < order.len() {
                assert(ord1[i] == order[i]);
                assert(is_out_port(nl, order[i]) && l0[order[i] as int] == v);
            }
        }
    }
}

/// New pins of other kinds change nothing of SRAMs.
pub(crate) proof fn lemma_srams_extended(
    nl: Netlist,
    srams: Table<RAMBlock>,
    d0: Seq<DriverType>,
    d1: Seq<DriverType>,
    lits: Seq<usize>,
    order: Seq<usize>,
)
    requires
        srams_ok(nl, srams, d0, lits, order),
        d0.is_prefix_of(d1),
    ensures
        srams_ok(nl, srams, d1, lits, order),
{
    assert forall|c: usize| #[trigger] srams.has(c) implies c < nl.num_cells() && nl.kind(c) == CellKind::Ram
        && ram_bits_ok(
        nl,
        d1,
        lits,
        c,
        srams.at(c),
    ) by {
        let r = srams.at(c);
        assert forall|b: int| 0 <= b < 32 implies ram_bit_ok(nl, d1, lits, c, b, #[trigger] r.port_r_rd_data@[b]) by {
            assert(ram_bit_ok(nl, d0, lits, c, b, r.port_r_rd_data@[b]));
        }
    }
}

/// New pins of other kinds change nothing of macros.
pub(crate) proof fn lemma_macros_extended(
    nl: Netlist,
    macros: Table<MacroInst>,
    d0: Seq<DriverType>,
    d1: Seq<DriverType>,
    lits: Seq<usize>,
    order: Seq<usize>,
)
    requires
        macros_ok(nl, macros, d0, lits, order),
        d0.is_prefix_of(d1),
        forall|i: int| d0.len() <= i < d1.len() ==> !(#[trigger] d1[i] is Macro),
    ensures
        macros_ok(nl, macros, d1, lits, order),
{
    assert forall|c: usize| #[trigger] macros.has(c) implies c < nl.num_cells() && has_output(nl, c)
        && nl.kind(c) == CellKind::Macro(macros.at(c).kind)
        && macros.at(c).wf() && macro_slots_ok(nl, d1, lits, c, macros.at(c)) by {
        let m = macros.at(c);
        assert forall|s: int| 0 <= s < m.outputs@.len() implies macro_slot_ok(
            nl,
            d1,
            lits,
            c,
            s,
            #[trigger] m.outputs@[s],
        ) by {
            assert(macro_slot_ok(nl, d0, lits, c, s, m.outputs@[s]));
        }
    }
    assert forall|i: int| 0 <= i < d1.len() implies (#[trigger] d1[i] matches DriverType::Macro(c, s) ==> macros.has(c)
        && s < macros.at(c).kind.spec_num_outputs() && macros.at(c).outputs@[s as int] != 0) by {
        if i < d0.len() {
            assert(d0[i] == d1[i]);
        }
    }
    assert forall|i: int| 0 <= i < d1.len() implies (#[trigger] d1[i] matches DriverType::Macro(c, s) ==> is_behind(
        nl,
        lits,
        order,
        c,
        s,
        i,
    )) by {
        if i < d0.len() {
            assert(d0[i] == d1[i]);
        }
    }
}

} // verus!
