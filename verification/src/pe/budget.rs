//! What a partition has to realize, and the write-outs it needs for that.

use super::rounds::are_pins;
use super::stage::BOOMERANG_MAX_WRITEOUTS;
use super::waves::producer;
use crate::aig::{nonzero, EndpointGroup, AIG};
use crate::collections::{
    gate_get, gate_insert, gate_new, gate_view, map_get, set_add, set_contains, set_items, set_new,
};
use crate::macros::first_occurrences;
use crate::staging::StagedAIG;
use indexmap::{IndexMap, IndexSet};
use vstd::prelude::*;

verus! {

/// The first used output of a macro.
pub open spec fn first_used(outputs: Seq<usize>) -> Option<usize>
    decreases outputs.len(),
{
    if outputs.len() == 0 {
        None
    } else if outputs[0] != 0 {
        Some(outputs[0])
    } else {
        first_used(outputs.drop_first())
    }
}

/// The pin that an endpoint group stores, with the condition under which it
/// does: the enabling literal, and whether the pin is inverted. A flip-flop of
/// constant zero stores nothing.
pub open spec fn activation(g: EndpointGroup) -> Option<(usize, usize)> {
    match g {
        EndpointGroup::DFF(dff) => if dff.d_iv == 0 {
            None
        } else {
            Some(((dff.d_iv / 2) as usize, (dff.en_iv * 2 + dff.d_iv % 2) as usize))
        },
        EndpointGroup::PrimaryOutput(pin) => Some(((pin / 2) as usize, (2 + pin % 2) as usize)),
        EndpointGroup::StagedIOPin(pin) => Some((pin, 2)),
        _ => None,
    }
}

/// The position of the macro whose state an endpoint group commits.
pub open spec fn state_macro(aig: AIG, g: EndpointGroup) -> Option<usize> {
    match g {
        EndpointGroup::Macro(m) => match first_used(m.outputs@) {
            Some(pin) => producer(aig, pin),
            None => None,
        },
        _ => None,
    }
}

/// The activations of some endpoint groups, in order.
pub open spec fn activations(aig: AIG, staged: StagedAIG, endpoints: Seq<usize>) -> Seq<(usize, usize)>
    decreases endpoints.len(),
{
    if endpoints.len() == 0 {
        Seq::empty()
    } else {
        let rest = activations(aig, staged, endpoints.drop_last());
        match activation(staged.group(&aig, endpoints.last() as int)) {
            Some(a) => rest.push(a),
            None => rest,
        }
    }
}

/// The pins that some endpoint groups read, in order.
pub open spec fn endpoint_pins(aig: AIG, staged: StagedAIG, endpoints: Seq<usize>) -> Seq<usize>
    decreases endpoints.len(),
{
    if endpoints.len() == 0 {
        Seq::empty()
    } else {
        endpoint_pins(aig, staged, endpoints.drop_last()) + staged.group(&aig, endpoints.last() as int).input_pins()
    }
}

/// The macros whose state some endpoint groups commit, in order.
pub open spec fn state_macros_of(aig: AIG, staged: StagedAIG, endpoints: Seq<usize>) -> Seq<usize>
    decreases endpoints.len(),
{
    if endpoints.len() == 0 {
        Seq::empty()
    } else {
        let rest = state_macros_of(aig, staged, endpoints.drop_last());
        match state_macro(aig, staged.group(&aig, endpoints.last() as int)) {
            Some(m) => rest.push(m),
            None => rest,
        }
    }
}

/// Is there an activation of the pin?
pub open spec fn has_activation(acts: Seq<(usize, usize)>, pin: usize) -> bool {
    exists|k: usize| #[trigger] acts.contains((pin, k))
}

/// The number of different activations of pins beyond the first of each pin.
pub open spec fn count_dups(acts: Seq<(usize, usize)>) -> nat
    decreases acts.len(),
{
    if acts.len() == 0 {
        0
    } else {
        let rest = acts.drop_last();
        count_dups(rest) + (if !rest.contains(acts.last()) && has_activation(rest, acts.last().0) {
            1nat
        } else {
            0nat
        })
    }
}

/// The number of SRAMs, and of words that macros gather and commit.
pub open spec fn count_words(aig: AIG, staged: StagedAIG, endpoints: Seq<usize>) -> (nat, nat, nat)
    decreases endpoints.len(),
{
    if endpoints.len() == 0 {
        (0, 0, 0)
    } else {
        let (s, i, c) = count_words(aig, staged, endpoints.drop_last());
        match staged.group(&aig, endpoints.last() as int) {
            EndpointGroup::RAMBlock(_) => (s + 1, i, c),
            EndpointGroup::Macro(m) => (
                s,
                i + m.kind.spec_input_words() as nat,
                c + m.kind.spec_state_words() as nat,
            ),
            _ => (s, i, c),
        }
    }
}

/// The write-outs that a partition has to reserve: one per SRAM, those for
/// macro state, and those for outputs with several activations.
pub open spec fn reserved_write_outs(aig: AIG, staged: StagedAIG, endpoints: Seq<usize>) -> nat {
    let (srams, _, state) = count_words(aig, staged, endpoints);
    srams + state + (count_dups(activations(aig, staged, endpoints)) + 31) / 32
}

/// Does the partition need too many reserved write-outs, or too many words to
/// gather?
pub open spec fn over_budget(aig: AIG, staged: StagedAIG, endpoints: Seq<usize>) -> bool {
    let (srams, inputs, _) = count_words(aig, staged, endpoints);
    ||| reserved_write_outs(aig, staged, endpoints) >= BOOMERANG_MAX_WRITEOUTS
    ||| srams * 4 + inputs + count_dups(activations(aig, staged, endpoints)) > BOOMERANG_MAX_WRITEOUTS
}

/// The pins that a partition has to write out, each once.
pub open spec fn partition_targets(aig: AIG, staged: StagedAIG, endpoints: Seq<usize>) -> Seq<usize> {
    first_occurrences(endpoint_pins(aig, staged, endpoints))
}

/// Every endpoint group reads pins of the graph.
pub open spec fn groups_closed(aig: AIG) -> bool {
    forall|i: int, k: int|
        0 <= i < aig.endpoint_count() && 0 <= k < aig.endpoint(i).input_pins().len()
            ==> #[trigger] aig.endpoint(i).input_pins()[k] <= aig.num_aigpins
}

/// A graph whose endpoint groups can be enumerated and read.
pub open spec fn endpoints_readable(aig: AIG) -> bool {
    aig.endpoints_wf() && aig.macros_wf() && groups_closed(aig) && aig.num_aigpins <= crate::aig::MAX_AIGPINS
}

/// Are these numbers of endpoint groups?
pub open spec fn are_groups(staged: StagedAIG, endpoints: Seq<usize>) -> bool {
    forall|i: int| 0 <= i < endpoints.len() ==> #[trigger] endpoints[i] < staged.group_count()
}

/// The endpoint groups of a major stage read pins of the graph.
pub(crate) proof fn lemma_group_pins(aig: AIG, staged: StagedAIG, i: int)
    requires
        endpoints_readable(aig),
        staged.wf(aig),
        0 <= i < staged.group_count(),
    ensures
        staged.group(&aig, i).wf(),
        are_pins(aig, staged.group(&aig, i).input_pins()),
{
    let n = staged.primary_output_pins@.len();
    if i < n {
        let pin = staged.primary_output_pins@[i];
        assert(pin <= aig.num_aigpins);
        reveal_with_fuel(nonzero, 2);
        assert(seq![pin].drop_last() =~= Seq::<usize>::empty());
    } else {
        let e = staged.endpoints@[i - n];
        assert(e < aig.endpoint_count());
        assert forall|k: int| 0 <= k < staged.group(&aig, i).input_pins().len() implies #[trigger] staged.group(
            &aig,
            i,
        ).input_pins()[k] <= aig.num_aigpins by {
            assert(aig.endpoint(e as int).input_pins()[k] <= aig.num_aigpins);
        }
        let j = e - set_items(aig.primary_outputs).len() - aig.dffs.vals().len() - aig.srams.vals().len();
        if j >= 0 {
            assert(aig.stateful_macros@[j] < aig.macros.vals().len());
            assert(aig.macros.vals()[aig.stateful_macros@[j] as int].wf());
        }
    }
}

/// The first used output of a macro.
fn find_used(outputs: &Vec<usize>) -> (r: Option<usize>)
    ensures
        r == first_used(outputs@),
{
    let mut i: usize = 0;
    assert(outputs@.subrange(0, outputs@.len() as int) =~= outputs@);
    while i < outputs.len()
        invariant
            i <= outputs@.len(),
            first_used(outputs@) == first_used(outputs@.subrange(i as int, outputs@.len() as int)),
        decreases outputs@.len() - i,
    {
        let ghost left = outputs@.subrange(i as int, outputs@.len() as int);
        if outputs[i] != 0 {
            return Some(outputs[i]);
        }
        assert(left.drop_first() =~= outputs@.subrange(i + 1, outputs@.len() as int));
        i += 1;
    }
    None
}

/// What a partition has to realize.
pub struct Demand {
    /// The pins that have to be written out.
    pub targets: IndexSet<usize>,
    /// The macros whose state has to be committed.
    pub state_macros: Vec<usize>,
    /// The write-outs that have to be reserved.
    pub reserved: usize,
    /// Is that too much for one partition?
    pub rejected: bool,
}

/// The activations so far are in the map, and their pins in the set.
spec fn acts_ok(acts: Seq<(usize, usize)>, map: Map<(usize, usize), usize>, pins: Seq<usize>) -> bool {
    &&& forall|a: usize, k: usize| #[trigger] map.contains_key((a, k)) <==> acts.contains((a, k))
    &&& forall|a: usize| #[trigger] pins.contains(a) <==> has_activation(acts, a)
}

/// Records an activation, and tells whether it is a further one of its pin.
fn record_activation(
    map: &mut IndexMap<(usize, usize), usize>,
    pins: &mut IndexSet<usize>,
    a: (usize, usize),
    Ghost(acts): Ghost<Seq<(usize, usize)>>,
) -> (dup: bool)
    requires
        acts_ok(acts, gate_view(*old(map)), set_items(*old(pins))),
    ensures
        acts_ok(acts.push(a), gate_view(*final(map)), set_items(*final(pins))),
        count_dups(acts.push(a)) == count_dups(acts) + (if dup {
            1nat
        } else {
            0nat
        }),
{
    let fresh = gate_get(map, a.0, a.1).is_none();
    let dup = fresh && set_contains(pins, a.0);
    gate_insert(map, a.0, a.1, 0);
    set_add(pins, a.0);
    proof {
        let next = acts.push(a);
        assert(next.drop_last() =~= acts);
        assert(a == (a.0, a.1));
        assert forall|x: (usize, usize)| #[trigger] next.contains(x) <==> acts.contains(x) || x == a by {
            assert(next[acts.len() as int] == a);
            if acts.contains(x) {
                assert(next[acts.index_of(x)] == x);
            }
            if next.contains(x) && x != a {
                assert(acts[next.index_of(x)] == x);
            }
        }
        assert forall|p: usize| #[trigger] set_items(*pins).contains(p) <==> has_activation(next, p) by {
            if has_activation(acts, p) {
                let k = choose|k: usize| #[trigger] acts.contains((p, k));
                assert(next.contains((p, k)));
            }
            if p == a.0 {
                assert(next.contains((p, a.1)));
            }
            if has_activation(next, p) && p != a.0 {
                let k = choose|k: usize| #[trigger] next.contains((p, k));
                assert(acts.contains((p, k)));
            }
        }
    }
    dup
}

proof fn lemma_first_push(s: Seq<usize>, v: usize)
    ensures
        first_occurrences(s.push(v)) == (if first_occurrences(s).contains(v) {
            first_occurrences(s)
        } else {
            first_occurrences(s).push(v)
        }),
{
    assert(s.push(v).drop_last() =~= s);
}

/// Adds pins to a set that holds the first occurrences of others.
fn add_targets(targets: &mut IndexSet<usize>, pins: &Vec<usize>, Ghost(before): Ghost<Seq<usize>>)
    requires
        set_items(*old(targets)) == first_occurrences(before),
    ensures
        set_items(*final(targets)) == first_occurrences(before + pins@),
{
    let mut i: usize = 0;
    assert(before + pins@.take(0) =~= before);
    while i < pins.len()
        invariant
            i <= pins@.len(),
            set_items(*targets) == first_occurrences(before + pins@.take(i as int)),
        decreases pins@.len() - i,
    {
        proof {
            let s = before + pins@.take(i as int);
            assert(before + pins@.take(i + 1) =~= s.push(pins@[i as int]));
            lemma_first_push(s, pins@[i as int]);
        }
        set_add(targets, pins[i]);
        i += 1;
    }
    assert(pins@.take(pins@.len() as int) =~= pins@);
}

/// Collects what a partition with the given endpoint groups has to realize.
pub fn collect_demand(aig: &AIG, staged: &StagedAIG, endpoints: &Vec<usize>) -> (d: Demand)
    requires
        endpoints_readable(*aig),
        staged.wf(*aig),
        are_groups(*staged, endpoints@),
        endpoints@.len() <= usize::MAX / 16,
    ensures
        set_items(d.targets) == partition_targets(*aig, *staged, endpoints@),
        d.state_macros@ == state_macros_of(*aig, *staged, endpoints@),
        d.reserved == reserved_write_outs(*aig, *staged, endpoints@),
        d.rejected == over_budget(*aig, *staged, endpoints@),
{
    let mut targets = set_new();
    let mut state_macros: Vec<usize> = Vec::new();
    let mut num_srams: usize = 0;
    let mut macro_input_words: usize = 0;
    let mut macro_state_words: usize = 0;
    let mut num_output_dups: usize = 0;
    let mut seen = gate_new();
    let mut seen_pins = set_new();
    let ghost mut acts: Seq<(usize, usize)> = Seq::empty();
    let mut i: usize = 0;
    assert(first_occurrences(Seq::<usize>::empty()) =~= Seq::<usize>::empty());
    assert(endpoints@.take(0) =~= Seq::<usize>::empty());
    while i < endpoints.len()
        invariant
            endpoints_readable(*aig),
            staged.wf(*aig),
            are_groups(*staged, endpoints@),
            endpoints@.len() <= usize::MAX / 16,
            i <= endpoints@.len(),
            set_items(targets) == first_occurrences(endpoint_pins(*aig, *staged, endpoints@.take(i as int))),
            state_macros@ == state_macros_of(*aig, *staged, endpoints@.take(i as int)),
            acts == activations(*aig, *staged, endpoints@.take(i as int)),
            acts_ok(acts, gate_view(seen), set_items(seen_pins)),
            num_output_dups == count_dups(acts),
            num_output_dups <= i,
            count_words(*aig, *staged, endpoints@.take(i as int)) == (
                num_srams as nat,
                macro_input_words as nat,
                macro_state_words as nat,
            ),
            num_srams <= i,
            macro_input_words <= 4 * i,
            macro_state_words <= 2 * i,
        decreases endpoints@.len() - i,
    {
        let ghost before = endpoints@.take(i as int);
        let e = endpoints[i];
        proof {
            assert(endpoints@.take(i + 1).drop_last() =~= before);
            assert(endpoints@.take(i + 1).last() == e);
            assert(endpoints@[i as int] < staged.group_count());
            lemma_group_pins(*aig, *staged, e as int);
        }
        let edg = staged.get_endpoint_group(aig, e);
        let pins = edg.for_each_input();
        add_targets(&mut targets, &pins, Ghost(endpoint_pins(*aig, *staged, before)));
        match edg {
            EndpointGroup::DFF(dff) => {
                proof {
                    lemma_dff_literal(*aig, *staged, e as int);
                }
                if dff.d_iv != 0 {
                    let a: (usize, usize) = (dff.d_iv / 2, dff.en_iv * 2 + dff.d_iv % 2);
                    if record_activation(&mut seen, &mut seen_pins, a, Ghost(acts)) {
                        num_output_dups += 1;
                    }
                    proof {
                        acts = acts.push(a);
                    }
                }
            },
            EndpointGroup::PrimaryOutput(pin) => {
                let a: (usize, usize) = (pin / 2, 2 + pin % 2);
                if record_activation(&mut seen, &mut seen_pins, a, Ghost(acts)) {
                    num_output_dups += 1;
                }
                proof {
                    acts = acts.push(a);
                }
            },
            EndpointGroup::RAMBlock(_) => {
                num_srams += 1;
            },
            EndpointGroup::Macro(m) => {
                macro_input_words += m.kind.input_words();
                macro_state_words += m.kind.state_words();
                if let Some(pin) = find_used(&m.outputs) {
                    if let Some(macro_i) = map_get(&aig.aigpin2macro, pin) {
                        state_macros.push(macro_i);
                    }
                }
            },
            EndpointGroup::StagedIOPin(pin) => {
                let a: (usize, usize) = (pin, 2);
                if record_activation(&mut seen, &mut seen_pins, a, Ghost(acts)) {
                    num_output_dups += 1;
                }
                proof {
                    acts = acts.push(a);
                }
            },
        }
        i += 1;
    }
    assert(endpoints@.take(endpoints@.len() as int) =~= endpoints@);
    let reserved: usize = num_srams + macro_state_words + (num_output_dups + 31) / 32;
    let rejected = reserved >= BOOMERANG_MAX_WRITEOUTS || num_srams * 4 + macro_input_words + num_output_dups
        > BOOMERANG_MAX_WRITEOUTS;
    Demand { targets, state_macros, reserved, rejected }
}

/// The literals of a flip-flop leave room for a flag.
pub(crate) proof fn lemma_dff_literal(aig: AIG, staged: StagedAIG, i: int)
    requires
        endpoints_readable(aig),
        staged.wf(aig),
        0 <= i < staged.group_count(),
    ensures
        staged.group(&aig, i) matches EndpointGroup::DFF(dff) ==> dff.en_iv / 2 <= aig.num_aigpins && dff.en_iv * 2
            + 1 <= usize::MAX,
{
    lemma_group_pins(aig, staged, i);
    if let EndpointGroup::DFF(dff) = staged.group(&aig, i) {
        let s = seq![(dff.en_iv / 2) as usize, (dff.d_iv / 2) as usize];
        reveal_with_fuel(nonzero, 3);
        assert(s.drop_last() =~= seq![(dff.en_iv / 2) as usize]);
        assert(s.drop_last().drop_last() =~= Seq::<usize>::empty());
        if dff.en_iv / 2 != 0 {
            assert(nonzero(s)[0] == dff.en_iv / 2);
            assert(staged.group(&aig, i).input_pins()[0] <= aig.num_aigpins);
        }
    }
}

} // verus!
