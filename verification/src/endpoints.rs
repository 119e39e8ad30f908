//! What holds of the endpoint groups of a graph.

use crate::aig::{nonzero, ram_pins, EndpointGroup, AIG, MAX_AIGPINS};
use crate::collections::set_items;
use crate::elaborate::graph::is_graph_of;
use crate::elaborate::index::endpoint_macros;
use crate::macros::{lemma_live, lemma_live_pins, live_pins, MacroInst};
use crate::netlist::Netlist;
use crate::staging::StagedAIG;
use vstd::prelude::*;

verus! {

/// Does the endpoint group use the literal: an output or a pin for later major stages
/// itself, a flip-flop its data and enable, an SRAM all that is at its ports, a DSP all its
/// inputs and its clock enable?
pub open spec fn uses_literal(g: EndpointGroup, lit: usize) -> bool {
    match g {
        EndpointGroup::PrimaryOutput(idx) => lit == idx,
        EndpointGroup::DFF(dff) => lit == dff.d_iv || lit == dff.en_iv,
        EndpointGroup::RAMBlock(ram) => lit == ram.port_r_en_iv || ram.port_r_addr_iv@.contains(lit)
            || ram.port_w_addr_iv@.contains(lit) || ram.port_w_wr_en_iv@.contains(lit)
            || ram.port_w_wr_data_iv@.contains(lit),
        EndpointGroup::Macro(m) => lit == m.clk_en_iv || m.inputs@.contains(lit),
        EndpointGroup::StagedIOPin(idx) => lit / 2 == idx,
    }
}

pub(crate) proof fn lemma_nonzero_has(s: Seq<usize>, v: usize)
    ensures
        nonzero(s).contains(v) <==> v != 0 && s.contains(v),
    decreases s.len(),
{
    if s.len() > 0 {
        let before = s.drop_last();
        let rest = nonzero(before);
        lemma_nonzero_has(before, v);
        if s.contains(v) {
            let i = s.index_of(v);
            if i < before.len() {
                assert(before[i] == v);
            }
        }
        if before.contains(v) {
            assert(s[before.index_of(v)] == v);
        }
        assert(s[s.len() - 1] == s.last());
        let all = nonzero(s);
        if rest.contains(v) {
            assert(all[rest.index_of(v)] == v);
        }
        if s.last() != 0 {
            assert(all[rest.len() as int] == s.last());
            if all.contains(v) && v != s.last() {
                assert(rest[all.index_of(v)] == v);
            }
        }
    }
}

/// An endpoint group reads the pins of all literals that it uses, but for constants.
pub proof fn law_endpoints_read_what_they_use(g: EndpointGroup, lit: usize)
    requires
        g.wf(),
        g matches EndpointGroup::Macro(m) ==> m.kind is Dsp48e2,
        uses_literal(g, lit),
        lit >= 2,
    ensures
        g.input_pins().contains((lit / 2) as usize),
{
    let pin = (lit / 2) as usize;
    match g {
        EndpointGroup::PrimaryOutput(idx) => {
            let s = seq![(idx / 2) as usize];
            lemma_nonzero_has(s, pin);
            assert(s[0] == pin);
            assert(g.input_pins() == nonzero(s));
        },
        EndpointGroup::StagedIOPin(idx) => {
            let s = seq![idx];
            lemma_nonzero_has(s, pin);
            assert(s[0] == pin);
        },
        EndpointGroup::DFF(dff) => {
            let s = seq![(dff.en_iv / 2) as usize, (dff.d_iv / 2) as usize];
            lemma_nonzero_has(s, pin);
            assert(s[0] == dff.en_iv / 2 && s[1] == dff.d_iv / 2);
        },
        EndpointGroup::RAMBlock(ram) => {
            let s = ram_pins(*ram);
            lemma_nonzero_has(s, pin);
            if lit == ram.port_r_en_iv {
                assert(s[0] == pin);
            } else if ram.port_r_addr_iv@.contains(lit) {
                let k = 1 + 2 * ram.port_r_addr_iv@.index_of(lit);
                assert((k - 1) % 2 == 0 && (k - 1) / 2 == ram.port_r_addr_iv@.index_of(lit));
                assert(s[k] == pin);
            } else if ram.port_w_addr_iv@.contains(lit) {
                let k = 2 + 2 * ram.port_w_addr_iv@.index_of(lit);
                assert((k - 1) % 2 == 1 && (k - 1) / 2 == ram.port_w_addr_iv@.index_of(lit));
                assert(s[k] == pin);
            } else if ram.port_w_wr_en_iv@.contains(lit) {
                let k = 27 + 2 * ram.port_w_wr_en_iv@.index_of(lit);
                assert((k - 27) % 2 == 0 && (k - 27) / 2 == ram.port_w_wr_en_iv@.index_of(lit));
                assert(s[k] == pin);
            } else {
                let k = 28 + 2 * ram.port_w_wr_data_iv@.index_of(lit);
                assert((k - 27) % 2 == 1 && (k - 27) / 2 == ram.port_w_wr_data_iv@.index_of(lit));
                assert(s[k] == pin);
            }
        },
        EndpointGroup::Macro(m) => {
            let pins = g.input_pins();
            let slots = m.kind.spec_state_fanin();
            let live = live_pins(m.inputs@, slots);
            if lit == m.clk_en_iv {
                assert(pins[0] == pin);
            } else {
                let s = m.inputs@.index_of(lit);
                assert(slots[s] == s);
                lemma_live(m.inputs@, slots, s as usize);
                assert(pins[pins.len() - live.len() + live.index_of(pin)] == pin);
            }
        },
    }
}

/// An endpoint group reads no other pins than those of literals that it uses.
pub proof fn law_endpoints_read_nothing_else(g: EndpointGroup, pin: usize)
    requires
        g.wf(),
        pin <= MAX_AIGPINS,
        g.input_pins().contains(pin),
    ensures
        pin != 0,
        exists|lit: usize| lit / 2 == pin && #[trigger] uses_literal(g, lit),
{
    match g {
        EndpointGroup::PrimaryOutput(idx) => {
            let s = seq![(idx / 2) as usize];
            lemma_nonzero_has(s, pin);
            assert(uses_literal(g, idx));
        },
        EndpointGroup::StagedIOPin(idx) => {
            let s = seq![idx];
            lemma_nonzero_has(s, pin);
            assert(uses_literal(g, (2 * pin) as usize));
        },
        EndpointGroup::DFF(dff) => {
            let s = seq![(dff.en_iv / 2) as usize, (dff.d_iv / 2) as usize];
            lemma_nonzero_has(s, pin);
            assert(uses_literal(g, dff.en_iv));
            assert(uses_literal(g, dff.d_iv));
        },
        EndpointGroup::RAMBlock(ram) => {
            let s = ram_pins(*ram);
            lemma_nonzero_has(s, pin);
            let k = s.index_of(pin);
            let lit = if k == 0 {
                ram.port_r_en_iv
            } else if k < 27 {
                if (k - 1) % 2 == 0 {
                    ram.port_r_addr_iv@[(k - 1) / 2]
                } else {
                    ram.port_w_addr_iv@[(k - 1) / 2]
                }
            } else if (k - 27) % 2 == 0 {
                ram.port_w_wr_en_iv@[(k - 27) / 2]
            } else {
                ram.port_w_wr_data_iv@[(k - 27) / 2]
            };
            assert(uses_literal(g, lit));
        },
        EndpointGroup::Macro(m) => {
            let pins = g.input_pins();
            let slots = m.kind.spec_state_fanin();
            let live = live_pins(m.inputs@, slots);
            lemma_live_pins(m.inputs@, slots);
            let k = pins.index_of(pin);
            if k < pins.len() - live.len() {
                assert(uses_literal(g, m.clk_en_iv));
            } else {
                assert(live[k - (pins.len() - live.len())] == pin);
                assert(live.contains(pin));
                let i = choose|i: int| 0 <= i < slots.len() && m.inputs@[#[trigger] slots[i] as int] / 2 == pin;
                assert(m.inputs@.contains(m.inputs@[slots[i] as int]));
                assert(uses_literal(g, m.inputs@[slots[i] as int]));
            }
        },
    }
}

/// Every output, flip-flop, SRAM and stateful macro is an endpoint group, in this order:
/// the number of an endpoint group tells what it is, and each kind comes in its own order.
pub proof fn law_endpoints_come_in_order(aig: AIG, i: int)
    requires
        0 <= i,
    ensures
        ({
            let a = set_items(aig.primary_outputs).len() as int;
            let b = aig.dffs.vals().len() as int;
            let c = aig.srams.vals().len() as int;
            let d = aig.stateful_macros@.len() as int;
            &&& aig.endpoint_count() == a + b + c + d
            &&& i < a ==> aig.endpoint(i) == EndpointGroup::PrimaryOutput(set_items(aig.primary_outputs)[i])
            &&& i < b ==> aig.endpoint(a + i) == EndpointGroup::DFF(&aig.dffs.vals()[i])
            &&& i < c ==> aig.endpoint(a + b + i) == EndpointGroup::RAMBlock(&aig.srams.vals()[i])
            &&& i < d ==> aig.endpoint(a + b + c + i) == EndpointGroup::Macro(
                &aig.macros.vals()[aig.stateful_macros@[i] as int],
            )
        }),
{
}

proof fn lemma_endpoint_macros(macros: Seq<MacroInst>, n: nat, j: usize)
    requires
        n <= macros.len(),
        n <= usize::MAX,
    ensures
        ({
            let all = endpoint_macros(macros, n);
            &&& forall|x: int| 0 <= x < all.len() ==> #[trigger] all[x] < n
            &&& forall|x: int, y: int| 0 <= x < y < all.len() ==> #[trigger] all[x] < #[trigger] all[y]
            &&& all.contains(j) <==> j < n && macros[j as int].kind is Dsp48e2
        }),
    decreases n,
{
    if n > 0 {
        lemma_endpoint_macros(macros, (n - 1) as nat, j);
        let rest = endpoint_macros(macros, (n - 1) as nat);
        let all = endpoint_macros(macros, n);
        assert forall|x: int| 0 <= x < all.len() implies #[trigger] all[x] < n by {
            if x < rest.len() {
                assert(all[x] == rest[x]);
            }
        }
        assert forall|x: int, y: int| 0 <= x < y < all.len() implies #[trigger] all[x] < #[trigger] all[y] by {
            assert(all[x] == rest[x]);
            if y < rest.len() {
                assert(all[y] == rest[y]);
            }
        }
        if all.contains(j) {
            let x = all.index_of(j);
            if x < rest.len() {
                assert(rest[x] == j);
            }
        }
        if rest.contains(j) {
            assert(all[rest.index_of(j)] == j);
        }
        if macros[n - 1].kind is Dsp48e2 {
            assert(all[rest.len() as int] == n - 1);
        }
    }
}

/// The macros of a graph that need an endpoint group are its DSPs, in ascending order.
pub proof fn law_stateful_macros_are_dsps(nl: Netlist, aig: AIG, j: usize)
    requires
        is_graph_of(nl, aig),
        aig.macros.vals().len() <= usize::MAX,
    ensures
        aig.stateful_macros@.contains(j) <==> j < aig.macros.vals().len() && aig.macros.vals()[j as int].kind
            is Dsp48e2,
        forall|x: int, y: int|
            0 <= x < y < aig.stateful_macros@.len() ==> #[trigger] aig.stateful_macros@[x]
                < #[trigger] aig.stateful_macros@[y],
{
    lemma_endpoint_macros(aig.macros.vals(), aig.macros.vals().len(), j);
}

/// The endpoint groups of a major stage are the pins that it hands on, followed by its
/// endpoint groups of the graph.
pub proof fn law_stages_hand_on_first(aig: AIG, staged: StagedAIG, i: int)
    requires
        0 <= i,
    ensures
        ({
            let n = staged.primary_output_pins@.len() as int;
            &&& staged.group_count() == n + staged.endpoints@.len()
            &&& i < n ==> staged.group(&aig, i) == EndpointGroup::StagedIOPin(staged.primary_output_pins@[i])
            &&& i < staged.endpoints@.len() ==> staged.group(&aig, n + i) == aig.endpoint(staged.endpoints@[i] as int)
        }),
{
}

} // verus!
