//! Which macros commit their state in a partition.

use super::budget::{are_groups, endpoints_readable, first_used, state_macro, state_macros_of};
use super::partition::{partition_ok, partition_with, Partition};
use super::waves::{mac, macro_pins_ok, producer};
use crate::aig::{EndpointGroup, AIG};
use crate::collections::set_items;
use crate::elaborate::graph::is_graph_of;
use crate::elaborate::index::lemma_at_key;
use crate::elaborate::rules::{is_output_of, macro_out, pin_ok};
use crate::netlist::Netlist;
use crate::staging::StagedAIG;
use vstd::prelude::*;

verus! {

/// The number of macros among the first `k` of some endpoint groups.
pub open spec fn macros_among(aig: AIG, staged: StagedAIG, endpoints: Seq<usize>, k: int) -> nat
    decreases k,
{
    if k <= 0 {
        0
    } else {
        macros_among(aig, staged, endpoints, k - 1) + (if staged.group(&aig, endpoints[k - 1] as int) is Macro {
            1nat
        } else {
            0nat
        })
    }
}

/// Does every macro of the graph have an output that is used?
pub open spec fn macros_drive(aig: AIG) -> bool {
    forall|m: usize| m < aig.macros.vals().len() ==> #[trigger] has_used(aig, m)
}

/// Does the macro have an output that is used?
pub open spec fn has_used(aig: AIG, m: usize) -> bool {
    exists|s: int| 0 <= s < mac(aig, m).outputs@.len() && #[trigger] mac(aig, m).outputs@[s] != 0
}

/// In the graph of a netlist, every macro has an output that is used.
pub proof fn law_graph_macros_drive(nl: Netlist, aig: AIG)
    requires
        is_graph_of(nl, aig),
    ensures
        macros_drive(aig),
{
    assert forall|m: usize| m < aig.macros.vals().len() implies #[trigger] has_used(aig, m) by {
        aig.macros.lemma_wf();
        let c = aig.macros.keys()[m as int];
        lemma_at_key(aig.macros, m as int);
        assert(aig.macros.has(c));
        let p = choose|p: usize| #[trigger] is_output_of(nl, p, c);
        assert(pin_ok(nl, aig.drivers@, aig.pin2aigpin_iv@, p));
        assert(macro_out(nl, p) is Some);
        let s = macro_out(nl, p).unwrap().1;
        assert(mac(aig, m).outputs@[s as int] != 0);
    }
}

/// The position of a macro endpoint group's macro among the macros of the graph:
/// the macros that need an endpoint group come behind all other endpoints.
pub open spec fn macro_position(aig: AIG, staged: StagedAIG, e: int) -> usize {
    let i = staged.endpoints@[e - staged.primary_output_pins@.len()];
    aig.stateful_macros@[i - set_items(aig.primary_outputs).len() - aig.dffs.vals().len() - aig.srams.vals().len()]
}

proof fn lemma_first_used(outputs: Seq<usize>)
    ensures
        first_used(outputs) matches Some(pin) ==> pin != 0 && outputs.contains(pin),
        first_used(outputs) is None ==> forall|s: int| 0 <= s < outputs.len() ==> outputs[s] == 0,
    decreases outputs.len(),
{
    if outputs.len() > 0 {
        if outputs[0] == 0 {
            let rest = outputs.drop_first();
            lemma_first_used(rest);
            if let Some(pin) = first_used(rest) {
                assert(outputs[rest.index_of(pin) + 1] == pin);
            } else {
                assert forall|s: int| 0 <= s < outputs.len() implies outputs[s] == 0 by {
                    if s > 0 {
                        assert(rest[s - 1] == outputs[s]);
                    }
                }
            }
        } else {
            assert(outputs[0] == outputs[0]);
        }
    }
}

/// The macro of an endpoint group is found by its first used output.
proof fn lemma_state_macro(aig: AIG, staged: StagedAIG, e: int)
    requires
        macro_pins_ok(aig),
        macros_drive(aig),
        endpoints_readable(aig),
        staged.wf(aig),
        0 <= e < staged.group_count(),
    ensures
        staged.group(&aig, e) matches EndpointGroup::Macro(m) ==> {
            let j = macro_position(aig, staged, e);
            &&& state_macro(aig, staged.group(&aig, e)) == Some(j)
            &&& j < aig.macros.vals().len()
            &&& aig.macros.vals()[j as int] == *m
        },
        !(staged.group(&aig, e) is Macro) ==> state_macro(aig, staged.group(&aig, e)) is None,
{
    let g = staged.group(&aig, e);
    if let EndpointGroup::Macro(m) = g {
        let j = macro_position(aig, staged, e);
        let i = staged.endpoints@[e - staged.primary_output_pins@.len()];
        assert(i < aig.endpoint_count());
        let t = i - set_items(aig.primary_outputs).len() - aig.dffs.vals().len() - aig.srams.vals().len();
        assert(aig.stateful_macros@[t] < aig.macros.vals().len());
        assert(*m == mac(aig, j));
        assert(has_used(aig, j));
        lemma_first_used(m.outputs@);
        let pin = first_used(m.outputs@).unwrap();
        let s = m.outputs@.index_of(pin);
        assert(mac(aig, j).outputs@[s] != 0);
        assert(producer(aig, pin) == Some(j));
    }
}

proof fn lemma_state_macros(aig: AIG, staged: StagedAIG, endpoints: Seq<usize>, n: int, k: int)
    requires
        macro_pins_ok(aig),
        macros_drive(aig),
        endpoints_readable(aig),
        staged.wf(aig),
        are_groups(staged, endpoints),
        0 <= n <= endpoints.len(),
    ensures
        state_macros_of(aig, staged, endpoints.take(n)).len() == macros_among(aig, staged, endpoints, n),
        0 <= k < n && staged.group(&aig, endpoints[k] as int) is Macro ==> macros_among(aig, staged, endpoints, k)
            < macros_among(aig, staged, endpoints, n) && state_macros_of(aig, staged, endpoints.take(n))[macros_among(
            aig,
            staged,
            endpoints,
            k,
        ) as int] == macro_position(aig, staged, endpoints[k] as int),
    decreases n,
{
    if n > 0 {
        lemma_state_macros(aig, staged, endpoints, n - 1, k);
        let before = endpoints.take(n - 1);
        assert(endpoints.take(n).drop_last() =~= before);
        assert(endpoints.take(n).last() == endpoints[n - 1]);
        assert(endpoints[n - 1] < staged.group_count());
        lemma_state_macro(aig, staged, endpoints[n - 1] as int);
    } else {
        assert(endpoints.take(n) =~= Seq::<usize>::empty());
    }
}

/// A partition commits the states of exactly those macros that are among its endpoint
/// groups, in the order of these: there are as many, and where endpoint group `k` is a
/// macro, the entry with the number of macros before it is that macro's position in the
/// graph.
pub proof fn law_macro_states_are_committed(
    aig: AIG,
    staged: StagedAIG,
    endpoints: Seq<usize>,
    p: Partition,
    k: int,
)
    requires
        macro_pins_ok(aig),
        macros_drive(aig),
        endpoints_readable(aig),
        staged.wf(aig),
        are_groups(staged, endpoints),
        partition_ok(aig, staged, endpoints, p),
        0 <= k < endpoints.len(),
    ensures
        p.state_macros@.len() == macros_among(aig, staged, endpoints, endpoints.len() as int),
        staged.group(&aig, endpoints[k] as int) matches EndpointGroup::Macro(m) ==> {
            let at = macros_among(aig, staged, endpoints, k) as int;
            &&& at < p.state_macros@.len()
            &&& p.state_macros@[at] == macro_position(aig, staged, endpoints[k] as int)
            &&& p.state_macros@[at] < aig.macros.vals().len()
            &&& aig.macros.vals()[p.state_macros@[at] as int] == *m
        },
{
    let waves = choose|waves: Seq<Vec<usize>>| #[trigger] partition_with(aig, staged, endpoints, waves, p);
    assert(partition_with(aig, staged, endpoints, waves, p));
    let n = endpoints.len() as int;
    assert(endpoints.take(n) =~= endpoints);
    lemma_state_macros(aig, staged, endpoints, n, k);
    assert(endpoints[k] < staged.group_count());
    lemma_state_macro(aig, staged, endpoints[k] as int);
}

} // verus!
