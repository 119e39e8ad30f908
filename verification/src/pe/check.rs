//! Checking that a graph can be partitioned.

use super::budget::groups_closed;
use super::partition::schedulable;
use super::waves::{mac, macro_inputs_ok, macro_pins_ok};
use crate::aig::{pin_set, ranks, AIG};
use crate::collections::set_len;
use crate::elaborate::graph::{is_graph_of, law_graph_indexed};
use crate::elaborate::index::endpoint_macros;
use crate::macros::MacroInst;
use crate::netlist::Netlist;
use vstd::prelude::*;

verus! {

/// What every graph of a netlist is.
pub open spec fn is_built(aig: AIG) -> bool {
    &&& aig.walkable()
    &&& aig.drivers_wf()
    &&& macro_pins_ok(aig)
    &&& aig.dffs.wf()
    &&& aig.srams.wf()
    &&& forall|i: int|
        0 <= i < aig.stateful_macros@.len() ==> #[trigger] aig.stateful_macros@[i] < aig.macros.vals().len()
}

proof fn lemma_endpoint_macros(macros: Seq<MacroInst>, n: nat)
    requires
        n <= macros.len(),
        n <= usize::MAX,
    ensures
        forall|i: int| 0 <= i < endpoint_macros(macros, n).len() ==> #[trigger] endpoint_macros(macros, n)[i] < n,
    decreases n,
{
    if n > 0 {
        lemma_endpoint_macros(macros, (n - 1) as nat);
        let rest = endpoint_macros(macros, (n - 1) as nat);
        let all = endpoint_macros(macros, n);
        assert forall|i: int| 0 <= i < all.len() implies #[trigger] all[i] < n by {
            if i < rest.len() {
                assert(all[i] == rest[i]);
            }
        }
    }
}

/// The graph of a netlist can be checked.
pub proof fn law_graph_is_built(nl: Netlist, aig: AIG)
    requires
        is_graph_of(nl, aig),
        aig.macros.vals().len() <= usize::MAX,
    ensures
        is_built(aig),
{
    law_graph_indexed(nl, aig);
    lemma_endpoint_macros(aig.macros.vals(), aig.macros.vals().len());
}

/// Does the graph have no combinational cycle?
fn check_acyclic(aig: &AIG) -> (b: bool)
    requires
        aig.walkable(),
        aig.drivers_wf(),
    ensures
        b <==> aig.acyclic(Set::empty()),
{
    let order = aig.topo_traverse_generic(None, None);
    let ghost stop = Set::<usize>::empty();
    assert(pin_set(None) =~= stop);
    let n = aig.num_aigpins;
    let mut seen: Vec<bool> = vec![false; n + 1];
    let mut i: usize = 0;
    while i < order.len()
        invariant
            aig.walkable(),
            aig.drivers_wf(),
            n == aig.num_aigpins,
            stop == Set::<usize>::empty(),
            aig.acyclic(stop) ==> aig.is_topological(stop, order@),
            forall|v: usize| #[trigger] order@.contains(v) ==> v <= n,
            seen@.len() == n + 1,
            i <= order@.len(),
            forall|v: usize| v <= n ==> (#[trigger] seen@[v as int] <==> order@.take(i as int).contains(v)),
            forall|j: int, w: usize|
                0 <= j < i && #[trigger] aig.fanin(order@[j]).contains(w) ==> order@.take(j).contains(w),
        decreases order@.len() - i,
    {
        let u = order[i];
        assert(order@.contains(u));
        let pins = aig.fanin_pins(u);
        let mut k: usize = 0;
        while k < pins.len()
            invariant
                aig.walkable(),
                n == aig.num_aigpins,
                stop == Set::<usize>::empty(),
                aig.acyclic(stop) ==> aig.is_topological(stop, order@),
                i < order@.len(),
                u == order@[i as int],
                u <= n,
                pins@ == aig.fanin(u),
                seen@.len() == n + 1,
                forall|v: usize| v <= n ==> (#[trigger] seen@[v as int] <==> order@.take(i as int).contains(v)),
                k <= pins@.len(),
                forall|j: int| 0 <= j < k ==> order@.take(i as int).contains(#[trigger] pins@[j]),
            decreases pins@.len() - k,
        {
            let w = pins[k];
            assert(aig.fanin(u).contains(w));
            assert(w <= n);
            if !seen[w] {
                assert(!order@.take(i as int).contains(w));
                assert(aig.fanin(order@[i as int]).contains(w));
                return false;
            }
            k += 1;
        }
        let ghost seen0 = seen@;
        seen[u] = true;
        proof {
            let t0 = order@.take(i as int);
            let t1 = order@.take(i + 1);
            assert forall|v: usize| v <= n implies (#[trigger] seen@[v as int] <==> t1.contains(v)) by {
                if v == u {
                    assert(t1[i as int] == u);
                } else {
                    if t0.contains(v) {
                        assert(t1[t0.index_of(v)] == v);
                    }
                    if t1.contains(v) {
                        assert(t0[t1.index_of(v)] == v);
                    }
                    assert(seen@[v as int] == seen0[v as int]);
                }
            }
            assert forall|j: int, w: usize|
                0 <= j < i + 1 && #[trigger] aig.fanin(order@[j]).contains(w) implies order@.take(j).contains(w) by {
                if j == i {
                    let k = pins@.index_of(w);
                    assert(pins@[k] == w);
                }
            }
        }
        i += 1;
    }
    proof {
        let rank = |v: usize|
            if order@.contains(v) {
                (order@.index_of(v) + 1) as nat
            } else {
                0
            };
        assert(ranks(*aig, stop, rank)) by {
            assert forall|u: usize, w: usize|
                u <= aig.num_aigpins && !stop.contains(u) && #[trigger] aig.fanin(u).contains(w) implies rank(w)
                < rank(u) by {
                if u == 0 {
                    assert(aig.drivers@[0] == crate::aig::DriverType::Tie0);
                    assert(false);
                }
                assert(aig.is_endpoint(None, u));
                aig.lemma_reaches_self(pin_set(None), u);
                assert(order@.contains(u));
                let i = order@.index_of(u);
                assert(order@[i] == u);
                assert(order@.take(i).contains(w));
                let j = order@.take(i).index_of(w);
                assert(order@[j] == w);
                assert(order@.contains(w));
                assert(order@.index_of(w) == j);
            }
        }
    }
    true
}

/// Are the inputs of macros and their clock enables pins of the graph?
fn check_macro_pins(aig: &AIG) -> (b: bool)
    requires
        aig.walkable(),
    ensures
        b <==> macro_inputs_ok(*aig),
{
    let n = aig.macros.len();
    let mut p: usize = 0;
    while p < n
        invariant
            aig.walkable(),
            n == aig.macros.vals().len(),
            p <= n,
            forall|q: usize, s: int|
                q < p && 0 <= s < mac(*aig, q).inputs@.len() ==> #[trigger] mac(*aig, q).inputs@[s] / 2
                    <= aig.num_aigpins,
            forall|q: usize| q < p ==> #[trigger] mac(*aig, q).clk_en_iv / 2 <= aig.num_aigpins,
        decreases n - p,
    {
        let m = aig.macros.value(p);
        if m.clk_en_iv / 2 > aig.num_aigpins {
            assert(mac(*aig, p).clk_en_iv / 2 > aig.num_aigpins);
            return false;
        }
        let mut s: usize = 0;
        while s < m.inputs.len()
            invariant
                *m == mac(*aig, p),
                p < aig.macros.vals().len(),
                s <= m.inputs@.len(),
                forall|t: int| 0 <= t < s ==> #[trigger] m.inputs@[t] / 2 <= aig.num_aigpins,
            decreases m.inputs@.len() - s,
        {
            if m.inputs[s] / 2 > aig.num_aigpins {
                assert(mac(*aig, p).inputs@[s as int] / 2 > aig.num_aigpins);
                return false;
            }
            s += 1;
        }
        p += 1;
    }
    true
}

/// Do the endpoint groups read pins of the graph?
fn check_groups(aig: &AIG) -> (b: bool)
    requires
        aig.endpoints_wf(),
        aig.macros_wf(),
    ensures
        b <==> groups_closed(*aig),
{
    let n = aig.num_endpoint_groups();
    let mut i: usize = 0;
    while i < n
        invariant
            aig.endpoints_wf(),
            aig.macros_wf(),
            n == aig.endpoint_count(),
            i <= n,
            forall|j: int, k: int|
                0 <= j < i && 0 <= k < aig.endpoint(j).input_pins().len() ==> #[trigger] aig.endpoint(j).input_pins()[k]
                    <= aig.num_aigpins,
        decreases n - i,
    {
        let g = aig.get_endpoint_group(i);
        assert(g.wf());
        let pins = g.for_each_input();
        let mut k: usize = 0;
        while k < pins.len()
            invariant
                i < aig.endpoint_count(),
                pins@ == aig.endpoint(i as int).input_pins(),
                k <= pins@.len(),
                forall|j: int| 0 <= j < k ==> #[trigger] pins@[j] <= aig.num_aigpins,
            decreases pins@.len() - k,
        {
            if pins[k] > aig.num_aigpins {
                assert(aig.endpoint(i as int).input_pins()[k as int] > aig.num_aigpins);
                return false;
            }
            k += 1;
        }
        i += 1;
    }
    true
}

/// Can the endpoint groups be counted?
fn check_count(aig: &AIG) -> (b: bool)
    requires
        is_built(*aig),
    ensures
        b <==> aig.endpoints_wf(),
{
    let a = set_len(&aig.primary_outputs);
    let b = aig.dffs.len();
    let c = aig.srams.len();
    let d = aig.stateful_macros.len();
    if b > usize::MAX - a {
        return false;
    }
    if c > usize::MAX - (a + b) {
        return false;
    }
    d <= usize::MAX - (a + b + c)
}

/// Decides whether the graph can be partitioned: it has no combinational cycle,
/// and its macros and endpoint groups read pins of the graph.
pub fn is_schedulable(aig: &AIG) -> (b: bool)
    requires
        is_built(*aig),
    ensures
        b <==> schedulable(*aig),
{
    check_count(aig) && check_groups(aig) && check_macro_pins(aig) && check_acyclic(aig)
}

} // verus!
