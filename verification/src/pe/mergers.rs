//! What mapping and merging parts keeps, and what it takes parts to share.

use super::budget::{are_groups, endpoint_pins, endpoints_readable, partition_targets};
use super::partition::{lemma_endpoint_pins, lemma_pins_finite, partition_ok, Partition};
use super::process::{
    count_nonempty, endpoint_lists, is_member, joined, merge_key, most_stages, part_cone, pool, process_ok,
    process_with, trial_limit,
};
use super::reserves::{is_used, law_used_pins_are_realized, only_dsps};
use crate::aig::AIG;
use crate::macros::law_first_occurrences;
use crate::staging::StagedAIG;
use vstd::prelude::*;

verus! {

/// Does the set hold, with every pin that is not in `stop`, all that the pin depends on
/// directly?
pub open spec fn follows(aig: AIG, stop: Set<usize>, pins: Set<usize>) -> bool {
    forall|u: usize, w: usize|
        pins.contains(u) && !stop.contains(u) && #[trigger] aig.fanin(u).contains(w) ==> pins.contains(w)
}

/// Does the set hold all pins that the endpoint groups use?
pub open spec fn holds_used(aig: AIG, staged: StagedAIG, endpoints: Seq<usize>, pins: Set<usize>) -> bool {
    forall|pin: usize| pin != 0 && #[trigger] is_used(aig, staged, endpoints, pin) ==> pins.contains(pin)
}

proof fn lemma_walk_within(aig: AIG, stop: Set<usize>, pins: Set<usize>, s: Seq<usize>, i: int)
    requires
        follows(aig, stop, pins),
        aig.is_walk(stop, s),
        pins.contains(s[0]),
        0 <= i < s.len(),
    ensures
        pins.contains(s[i]),
    decreases i,
{
    if i > 0 {
        lemma_walk_within(aig, stop, pins, s, i - 1);
        assert(aig.is_step(stop, s, i - 1));
    }
}

/// The pins that endpoint groups depend on are the least set that holds all pins that they
/// use, and with every pin that does not come from an earlier major stage all that the pin
/// depends on directly.
pub proof fn law_cones_are_least(aig: AIG, staged: StagedAIG, endpoints: Seq<usize>, pins: Set<usize>)
    requires
        aig.walkable(),
        endpoints_readable(aig),
        staged.wf(aig),
        are_groups(staged, endpoints),
        only_dsps(aig, staged, endpoints),
    ensures
        holds_used(aig, staged, endpoints, part_cone(aig, staged, endpoints)),
        follows(aig, staged.inputs().to_set(), part_cone(aig, staged, endpoints)),
        holds_used(aig, staged, endpoints, pins) && follows(aig, staged.inputs().to_set(), pins) ==> part_cone(
            aig,
            staged,
            endpoints,
        ).subset_of(pins),
{
    let stop = staged.inputs().to_set();
    let cone = part_cone(aig, staged, endpoints);
    let all = endpoint_pins(aig, staged, endpoints);
    law_first_occurrences(all);
    assert forall|pin: usize| pin != 0 && #[trigger] is_used(aig, staged, endpoints, pin) implies cone.contains(
        pin,
    ) by {
        law_used_pins_are_realized(aig, staged, endpoints, pin);
        assert(partition_targets(aig, staged, endpoints).contains(pin));
        assert(all.contains(pin));
        lemma_endpoint_pins(aig, staged, endpoints);
        assert(all[all.index_of(pin)] <= aig.num_aigpins);
        aig.lemma_reaches_self(stop, pin);
    }
    assert forall|u: usize, w: usize|
        cone.contains(u) && !stop.contains(u) && #[trigger] aig.fanin(u).contains(w) implies cone.contains(w) by {
        let t = choose|t: usize| #[trigger] all.contains(t) && aig.reaches(stop, t, u);
        aig.lemma_reaches_self(stop, w);
        aig.lemma_reaches_step(stop, u, w, w);
        aig.lemma_reaches_trans(stop, t, u, w);
    }
    if holds_used(aig, staged, endpoints, pins) && follows(aig, stop, pins) {
        assert forall|v: usize| cone.contains(v) implies #[trigger] pins.contains(v) by {
            let t = choose|t: usize| #[trigger] all.contains(t) && aig.reaches(stop, t, v);
            law_used_pins_are_realized(aig, staged, endpoints, t);
            assert(partition_targets(aig, staged, endpoints).contains(t));
            assert(is_used(aig, staged, endpoints, t));
            let s = choose|s: Seq<usize>| #[trigger] aig.is_walk(stop, s) && s[0] == t && s.last() == v;
            lemma_walk_within(aig, stop, pins, s, s.len() - 1);
        }
    }
}

proof fn lemma_joint_pins(aig: AIG, staged: StagedAIG, a: Seq<usize>, b: Seq<usize>, pin: usize)
    ensures
        endpoint_pins(aig, staged, a + b).contains(pin) <==> endpoint_pins(aig, staged, a).contains(pin)
            || endpoint_pins(aig, staged, b).contains(pin),
    decreases b.len(),
{
    if b.len() > 0 {
        lemma_joint_pins(aig, staged, a, b.drop_last(), pin);
        assert((a + b).drop_last() =~= a + b.drop_last());
        let more = staged.group(&aig, b.last() as int).input_pins();
        lemma_added(endpoint_pins(aig, staged, a + b.drop_last()), more, pin);
        lemma_added(endpoint_pins(aig, staged, b.drop_last()), more, pin);
    } else {
        assert(a + b =~= a);
    }
}

proof fn lemma_added(s: Seq<usize>, t: Seq<usize>, v: usize)
    ensures
        (s + t).contains(v) <==> s.contains(v) || t.contains(v),
{
    let all = s + t;
    if s.contains(v) {
        assert(all[s.index_of(v)] == v);
    }
    if t.contains(v) {
        assert(all[s.len() + t.index_of(v)] == v);
    }
    if all.contains(v) {
        let i = all.index_of(v);
        if i < s.len() {
            assert(s[i] == v);
        } else {
            assert(t[i - s.len()] == v);
        }
    }
}

/// Parts are joined by what they do not share: joint parts depend on what either depends
/// on, and the key of a merger holds the number of pins that one of the two adds to the
/// other, whichever adds less, the number of all pins, and the place of the second part.
pub proof fn law_mergers_are_rated(aig: AIG, staged: StagedAIG, a: Seq<usize>, b: Seq<usize>, j: int)
    ensures
        ({
            let x = part_cone(aig, staged, a);
            let y = part_cone(aig, staged, b);
            let more = y.difference(x).len() as int;
            let less = x.difference(y).len() as int;
            &&& part_cone(aig, staged, a + b) == x.union(y)
            &&& merge_key(aig, staged, a, b, j) == (if more < less {
                more
            } else {
                less
            }, x.union(y).len() as int, j)
        }),
{
    let stop = staged.inputs().to_set();
    let x = part_cone(aig, staged, a);
    let y = part_cone(aig, staged, b);
    let both = part_cone(aig, staged, a + b);
    let p = endpoint_pins(aig, staged, a);
    let q = endpoint_pins(aig, staged, b);
    let r = endpoint_pins(aig, staged, a + b);
    assert forall|v: usize| both.contains(v) <==> x.union(y).contains(v) by {
        if both.contains(v) {
            let t = choose|t: usize| #[trigger] r.contains(t) && aig.reaches(stop, t, v);
            lemma_joint_pins(aig, staged, a, b, t);
        }
        if x.contains(v) {
            let t = choose|t: usize| #[trigger] p.contains(t) && aig.reaches(stop, t, v);
            lemma_joint_pins(aig, staged, a, b, t);
        }
        if y.contains(v) {
            let t = choose|t: usize| #[trigger] q.contains(t) && aig.reaches(stop, t, v);
            lemma_joint_pins(aig, staged, a, b, t);
        }
    }
    assert(both =~= x.union(y));
    lemma_pins_finite(aig, x);
    lemma_pins_finite(aig, y);
    vstd::set_lib::lemma_set_difference_len(x, y);
    vstd::set_lib::lemma_set_difference_len(y, x);
    assert(x.intersect(y) =~= y.intersect(x));
}

/// Twenty mergers or an eighth of the number of parts, whichever is more, may fail for a
/// part before no more are tried.
pub proof fn law_trials_are_limited(n: nat)
    ensures
        trial_limit(n) >= 20,
        8 * trial_limit(n) > n - 8,
        trial_limit(n) == 20 || 8 * trial_limit(n) <= n,
{
}

/// The number of times that an endpoint group occurs in the first `n` lists.
pub open spec fn times(parts: Seq<Seq<usize>>, e: usize, n: int) -> nat
    decreases n,
{
    if n <= 0 {
        0
    } else {
        times(parts, e, n - 1) + parts[n - 1].to_multiset().count(e)
    }
}

proof fn lemma_times(parts: Seq<Seq<usize>>, e: usize, n: int)
    requires
        0 <= n <= parts.len(),
    ensures
        times(parts, e, n) == pool(parts.take(n)).count(e),
    decreases n,
{
    if n > 0 {
        lemma_times(parts, e, n - 1);
        assert(parts.take(n).drop_last() =~= parts.take(n - 1));
        assert(parts.take(n).last() == parts[n - 1]);
    }
}

proof fn lemma_joined_at(parts: Seq<Seq<usize>>, members: Seq<int>, t: int) -> (at: int)
    requires
        0 <= t < members.len(),
    ensures
        0 <= at <= at + parts[members[t]].len() <= joined(parts, members).len(),
        joined(parts, members).subrange(at, at + parts[members[t]].len()) == parts[members[t]],
    decreases members.len(),
{
    let rest = joined(parts, members.drop_last());
    let last = parts[members.last()];
    let all = joined(parts, members);
    let x = parts[members[t]];
    if t < members.len() - 1 {
        let at = lemma_joined_at(parts, members.drop_last(), t);
        assert(all.subrange(at, at + x.len()) =~= rest.subrange(at, at + x.len()));
        at
    } else {
        assert(all.subrange(rest.len() as int, all.len() as int) =~= x);
        rest.len() as int
    }
}

/// Does the list hold the other one, from some place on?
pub open spec fn holds_list(s: Seq<usize>, t: Seq<usize>) -> bool {
    exists|at: int| 0 <= at <= s.len() - t.len() && #[trigger] s.subrange(at, at + t.len()) == t
}

/// Does the partition have at most `degrad` more stages than one of the others?
pub open spec fn is_bounded(p: Partition, alone: Seq<Partition>, degrad: usize) -> bool {
    exists|i: int| 0 <= i < alone.len() && p.stages@.len() <= #[trigger] alone[i].stages@.len() + degrad
}

/// Are these partitions of the parts by themselves?
pub open spec fn are_alone(aig: AIG, staged: StagedAIG, parts: Seq<Seq<usize>>, alone: Seq<Partition>) -> bool {
    alone.len() == parts.len() && forall|i: int|
        0 <= i < parts.len() ==> partition_ok(aig, staged, parts[i], #[trigger] alone[i])
}

proof fn lemma_nonempty(parts: Seq<Seq<usize>>)
    ensures
        count_nonempty(parts) <= parts.len(),
    decreases parts.len(),
{
    if parts.len() > 0 {
        lemma_nonempty(parts.drop_last());
    }
}

proof fn lemma_longest(ps: Seq<Partition>) -> (i: int)
    requires
        ps.len() > 0,
    ensures
        0 <= i < ps.len(),
        ps[i].stages@.len() == most_stages(ps),
    decreases ps.len(),
{
    let rest = ps.drop_last();
    if ps.last().stages@.len() > most_stages(rest) || rest.len() == 0 {
        ps.len() - 1
    } else {
        let i = lemma_longest(rest);
        assert(rest[i] == ps[i]);
        i
    }
}

/// A refined solution loses and doubles nothing: every endpoint group occurs in it as often
/// as in the parts, and every part stays together. It has no more partitions than there are
/// parts, none of them is empty, and they come with the most stages first. None has more
/// stages than one of the parts needs by itself, but for as many as are allowed.
pub proof fn law_refinements_keep_parts(
    aig: AIG,
    staged: StagedAIG,
    parts: Seq<Seq<usize>>,
    degrad: usize,
    ps: Seq<Partition>,
    e: usize,
    i: int,
)
    requires
        process_ok(aig, staged, parts, degrad, ps),
        0 <= i < parts.len(),
    ensures
        times(endpoint_lists(ps), e, ps.len() as int) == times(parts, e, parts.len() as int),
        ps.len() <= parts.len(),
        parts[i].len() > 0 ==> exists|k: int|
            0 <= k < ps.len() && holds_list((#[trigger] ps[k]).endpoints@, parts[i]),
        forall|k: int| 0 <= k < ps.len() ==> (#[trigger] ps[k]).endpoints@.len() > 0,
        forall|k: int, l: int|
            0 <= k <= l < ps.len() ==> (#[trigger] ps[k]).stages@.len() >= (#[trigger] ps[l]).stages@.len(),
        exists|alone: Seq<Partition>| #[trigger]
            are_alone(aig, staged, parts, alone) && forall|k: int|
                0 <= k < ps.len() ==> is_bounded(#[trigger] ps[k], alone, degrad),
{
    let (alone, groups) = choose|alone: Seq<Partition>, groups: Seq<Seq<int>>| #[trigger]
        process_with(aig, staged, parts, degrad, alone, groups, ps);
    assert(process_with(aig, staged, parts, degrad, alone, groups, ps));
    let lists = endpoint_lists(ps);
    lemma_times(lists, e, lists.len() as int);
    lemma_times(parts, e, parts.len() as int);
    assert(lists.take(lists.len() as int) =~= lists);
    assert(parts.take(parts.len() as int) =~= parts);
    lemma_nonempty(parts);
    if parts[i].len() > 0 {
        let (k, t) = choose|k: int, t: int| #[trigger] is_member(groups, k, t) && groups[k][t] == i;
        assert(is_member(groups, k, t));
        let at = lemma_joined_at(parts, groups[k], t);
        let s = ps[k].endpoints@;
        assert(s == joined(parts, groups[k]));
        assert(s.subrange(at, at + parts[i].len()) == parts[i]);
        assert(holds_list(s, parts[i]));
    }
    let x = lemma_longest(alone);
    assert(are_alone(aig, staged, parts, alone));
    assert forall|k: int| 0 <= k < ps.len() implies is_bounded(#[trigger] ps[k], alone, degrad) by {
        assert(ps[k].stages@.len() <= alone[x].stages@.len() + degrad);
    }
}

} // verus!
