//! What a partition has to write out, and what it has to reserve for that.

use super::budget::{
    activation, activations, are_groups, count_dups, count_words, endpoint_pins, endpoints_readable, has_activation,
    lemma_dff_literal, lemma_group_pins, over_budget, partition_targets, reserved_write_outs,
};
use super::commits::macros_among;
use crate::aig::{EndpointGroup, AIG};
use crate::endpoints::{law_endpoints_read_nothing_else, law_endpoints_read_what_they_use, uses_literal};
use crate::macros::law_first_occurrences;
use crate::staging::StagedAIG;
use vstd::prelude::*;

verus! {

/// What an endpoint group keeps of a pin: the pin, the literal under which it does, and
/// whether it keeps the inverse. Outputs and pins for later major stages are kept always,
/// that is under the literal of constant true; a flip-flop of constant zero keeps nothing.
pub open spec fn kept_by(g: EndpointGroup) -> Option<(usize, usize, bool)> {
    match g {
        EndpointGroup::PrimaryOutput(lit) => Some(((lit / 2) as usize, 1, lit % 2 == 1)),
        EndpointGroup::StagedIOPin(pin) => Some((pin, 1, false)),
        EndpointGroup::DFF(dff) if dff.d_iv != 0 => Some(((dff.d_iv / 2) as usize, dff.en_iv, dff.d_iv % 2 == 1)),
        _ => None,
    }
}

/// All that the first `n` of some endpoint groups keep.
pub open spec fn kept(aig: AIG, staged: StagedAIG, endpoints: Seq<usize>, n: int) -> Set<(usize, usize, bool)>
    decreases n,
{
    if n <= 0 {
        Set::empty()
    } else {
        match kept_by(staged.group(&aig, endpoints[n - 1] as int)) {
            Some(x) => kept(aig, staged, endpoints, n - 1).insert(x),
            None => kept(aig, staged, endpoints, n - 1),
        }
    }
}

/// The pins of which the first `n` of some endpoint groups keep something.
pub open spec fn kept_pins(aig: AIG, staged: StagedAIG, endpoints: Seq<usize>, n: int) -> Set<usize>
    decreases n,
{
    if n <= 0 {
        Set::empty()
    } else {
        match kept_by(staged.group(&aig, endpoints[n - 1] as int)) {
            Some(x) => kept_pins(aig, staged, endpoints, n - 1).insert(x.0),
            None => kept_pins(aig, staged, endpoints, n - 1),
        }
    }
}

/// The number of SRAMs among the first `n` of some endpoint groups.
pub open spec fn rams_among(aig: AIG, staged: StagedAIG, endpoints: Seq<usize>, n: int) -> nat
    decreases n,
{
    if n <= 0 {
        0
    } else {
        rams_among(aig, staged, endpoints, n - 1) + (if staged.group(&aig, endpoints[n - 1] as int) is RAMBlock {
            1nat
        } else {
            0nat
        })
    }
}

/// Are the macros among the endpoint groups DSPs?
pub open spec fn only_dsps(aig: AIG, staged: StagedAIG, endpoints: Seq<usize>) -> bool {
    forall|k: int|
        0 <= k < endpoints.len() ==> (staged.group(&aig, #[trigger] endpoints[k] as int) matches EndpointGroup::Macro(m)
            ==> m.kind is Dsp48e2)
}

spec fn coded(x: (usize, usize, bool)) -> (usize, usize) {
    (x.0, (2 * x.1 + (if x.2 {
        1int
    } else {
        0int
    })) as usize)
}

/// Does the literal leave room for a flag?
spec fn is_small(x: (usize, usize, bool)) -> bool {
    2 * x.1 + 1 <= usize::MAX
}

proof fn lemma_has_push(s: Seq<(usize, usize)>, a: (usize, usize), x: (usize, usize))
    ensures
        s.push(a).contains(x) <==> s.contains(x) || x == a,
{
    let t = s.push(a);
    assert(t[s.len() as int] == a);
    if s.contains(x) {
        assert(t[s.index_of(x)] == x);
    }
    if t.contains(x) && x != a {
        assert(s[t.index_of(x)] == x);
    }
}

#[verifier::rlimit(30)]
proof fn lemma_kept(aig: AIG, staged: StagedAIG, endpoints: Seq<usize>, n: int)
    requires
        endpoints_readable(aig),
        staged.wf(aig),
        are_groups(staged, endpoints),
        0 <= n <= endpoints.len(),
    ensures
        ({
            let acts = activations(aig, staged, endpoints.take(n));
            let all = kept(aig, staged, endpoints, n);
            let pins = kept_pins(aig, staged, endpoints, n);
            &&& all.finite()
            &&& pins.finite()
            &&& count_dups(acts) == all.len() - pins.len()
            &&& forall|x: (usize, usize, bool)| #[trigger] all.contains(x) ==> is_small(x)
            &&& forall|x: (usize, usize, bool)|
                is_small(x) ==> (#[trigger] all.contains(x) <==> acts.contains(coded(x)))
            &&& forall|p: usize| #[trigger] pins.contains(p) <==> has_activation(acts, p)
        }),
    decreases n,
{
    if n > 0 {
        lemma_kept(aig, staged, endpoints, n - 1);
        let e = endpoints[n - 1];
        let g = staged.group(&aig, e as int);
        assert(endpoints.take(n).drop_last() =~= endpoints.take(n - 1));
        assert(e < staged.group_count());
        lemma_dff_literal(aig, staged, e as int);
        let acts = activations(aig, staged, endpoints.take(n - 1));
        let all = kept(aig, staged, endpoints, n - 1);
        let pins = kept_pins(aig, staged, endpoints, n - 1);
        if let Some(x) = kept_by(g) {
            assert(is_small(x));
            let a = coded(x);
            assert(activation(g) == Some(a));
            let next = acts.push(a);
            assert(next.drop_last() =~= acts);
            assert forall|y: (usize, usize, bool)| is_small(y) implies (#[trigger] all.insert(x).contains(y)
                <==> next.contains(coded(y))) by {
                lemma_has_push(acts, a, coded(y));
                assert(all.contains(y) <==> acts.contains(coded(y)));
                if coded(y) == a {
                    assert(y.1 == x.1 && y.2 == x.2);
                    assert(y == x);
                }
            }
            assert forall|p: usize| #[trigger] pins.insert(x.0).contains(p) <==> has_activation(next, p) by {
                if has_activation(acts, p) {
                    let k = choose|k: usize| #[trigger] acts.contains((p, k));
                    lemma_has_push(acts, a, (p, k));
                }
                if p == x.0 {
                    lemma_has_push(acts, a, (p, a.1));
                }
                if has_activation(next, p) && p != x.0 {
                    let k = choose|k: usize| #[trigger] next.contains((p, k));
                    lemma_has_push(acts, a, (p, k));
                }
                assert(pins.contains(p) <==> has_activation(acts, p));
            }
            assert(all.contains(x) <==> acts.contains(a));
            assert(pins.contains(x.0) <==> has_activation(acts, x.0));
            if acts.contains(a) {
                assert(acts.contains((x.0, a.1)));
            }
        } else {
            assert(activation(g) is None);
        }
    } else {
        assert(endpoints.take(n) =~= Seq::<usize>::empty());
    }
}

proof fn lemma_words(aig: AIG, staged: StagedAIG, endpoints: Seq<usize>, n: int)
    requires
        only_dsps(aig, staged, endpoints),
        0 <= n <= endpoints.len(),
    ensures
        count_words(aig, staged, endpoints.take(n)) == (
            rams_among(aig, staged, endpoints, n),
            4 * macros_among(aig, staged, endpoints, n),
            2 * macros_among(aig, staged, endpoints, n),
        ),
    decreases n,
{
    if n > 0 {
        lemma_words(aig, staged, endpoints, n - 1);
        assert(endpoints.take(n).drop_last() =~= endpoints.take(n - 1));
        assert(endpoints.take(n).last() == endpoints[n - 1]);
    } else {
        assert(endpoints.take(n) =~= Seq::<usize>::empty());
    }
}

/// A partition reserves one word for every SRAM and two for every DSP, and as many as hold
/// one bit for all that is kept of a pin beyond the first. With 256 of them there is no
/// room left; and at most 256 words are gathered, four for every SRAM and DSP and one for
/// each bit that is kept in addition.
pub proof fn law_reserves(aig: AIG, staged: StagedAIG, endpoints: Seq<usize>)
    requires
        endpoints_readable(aig),
        staged.wf(aig),
        are_groups(staged, endpoints),
        only_dsps(aig, staged, endpoints),
    ensures
        ({
            let n = endpoints.len() as int;
            let rams = rams_among(aig, staged, endpoints, n);
            let dsps = macros_among(aig, staged, endpoints, n);
            let more = kept(aig, staged, endpoints, n).len() - kept_pins(aig, staged, endpoints, n).len();
            let words = reserved_write_outs(aig, staged, endpoints) - rams - 2 * dsps;
            &&& 32 * words - 32 < more <= 32 * words
            &&& over_budget(aig, staged, endpoints) <==> rams + 2 * dsps + words >= 256 || 4 * rams + 4 * dsps + more
                > 256
        }),
{
    let n = endpoints.len() as int;
    assert(endpoints.take(n) =~= endpoints);
    lemma_kept(aig, staged, endpoints, n);
    lemma_words(aig, staged, endpoints, n);
}

proof fn lemma_pins(aig: AIG, staged: StagedAIG, endpoints: Seq<usize>, n: int, pin: usize)
    requires
        0 <= n <= endpoints.len(),
    ensures
        endpoint_pins(aig, staged, endpoints.take(n)).contains(pin) <==> exists|k: int|
            0 <= k < n && staged.group(&aig, #[trigger] endpoints[k] as int).input_pins().contains(pin),
    decreases n,
{
    if n > 0 {
        lemma_pins(aig, staged, endpoints, n - 1, pin);
        assert(endpoints.take(n).drop_last() =~= endpoints.take(n - 1));
        assert(endpoints.take(n).last() == endpoints[n - 1]);
        let rest = endpoint_pins(aig, staged, endpoints.take(n - 1));
        let more = staged.group(&aig, endpoints[n - 1] as int).input_pins();
        let all = endpoint_pins(aig, staged, endpoints.take(n));
        assert(all == rest + more);
        if rest.contains(pin) {
            assert(all[rest.index_of(pin)] == pin);
        }
        if more.contains(pin) {
            assert(all[rest.len() + more.index_of(pin)] == pin);
        }
        if all.contains(pin) {
            let i = all.index_of(pin);
            if i < rest.len() {
                assert(rest[i] == pin);
            } else {
                assert(more[i - rest.len()] == pin);
            }
        }
    } else {
        assert(endpoints.take(n) =~= Seq::<usize>::empty());
    }
}

/// Does one of the endpoint groups use a literal of the pin?
pub open spec fn is_used(aig: AIG, staged: StagedAIG, endpoints: Seq<usize>, pin: usize) -> bool {
    exists|k: int, lit: usize|
        0 <= k < endpoints.len() && lit / 2 == pin && #[trigger] uses_literal(
            staged.group(&aig, endpoints[k] as int),
            lit,
        )
}

/// A partition has to realize exactly the pins that its endpoint groups use, but for
/// constants, and each once.
pub proof fn law_used_pins_are_realized(aig: AIG, staged: StagedAIG, endpoints: Seq<usize>, pin: usize)
    requires
        endpoints_readable(aig),
        staged.wf(aig),
        are_groups(staged, endpoints),
        only_dsps(aig, staged, endpoints),
    ensures
        partition_targets(aig, staged, endpoints).no_duplicates(),
        partition_targets(aig, staged, endpoints).contains(pin) <==> pin != 0 && is_used(aig, staged, endpoints, pin),
{
    let n = endpoints.len() as int;
    let all = endpoint_pins(aig, staged, endpoints);
    assert(endpoints.take(n) =~= endpoints);
    lemma_pins(aig, staged, endpoints, n, pin);
    law_first_occurrences(all);
    assert(partition_targets(aig, staged, endpoints).contains(pin) <==> all.contains(pin));
    if all.contains(pin) {
        let k = choose|k: int|
            0 <= k < n && staged.group(&aig, #[trigger] endpoints[k] as int).input_pins().contains(pin);
        let g = staged.group(&aig, endpoints[k] as int);
        assert(endpoints[k] < staged.group_count());
        lemma_group_pins(aig, staged, endpoints[k] as int);
        assert(g.input_pins()[g.input_pins().index_of(pin)] <= aig.num_aigpins);
        law_endpoints_read_nothing_else(g, pin);
    }
    if pin != 0 && is_used(aig, staged, endpoints, pin) {
        let (k, lit) = choose|k: int, lit: usize|
            0 <= k < endpoints.len() && lit / 2 == pin && #[trigger] uses_literal(
                staged.group(&aig, endpoints[k] as int),
                lit,
            );
        assert(endpoints[k] < staged.group_count());
        lemma_group_pins(aig, staged, endpoints[k] as int);
        law_endpoints_read_what_they_use(staged.group(&aig, endpoints[k] as int), lit);
    }
}

} // verus!
