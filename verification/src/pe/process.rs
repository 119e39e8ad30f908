//! Mapping and merging the partitions of a clustering solution.

use super::budget::{are_groups, endpoint_pins, endpoints_readable, lemma_group_pins, over_budget, partition_targets};
use super::cone::{cone_set, in_cone};
use super::partition::{is_easy, is_small, lemma_endpoint_pins, partition_ok, schedulable, Partition};
use super::rounds::written_in;
use crate::aig::{pin_set, AIG};
use crate::parallel::par_map;
use crate::sorting::{lemma_same_distinct, lemma_same_items, sort_triples, triple_le};
use crate::staging::StagedAIG;
use vstd::multiset::Multiset;
use vstd::prelude::*;

verus! {

/// All endpoints of some parts.
pub open spec fn pool(parts: Seq<Seq<usize>>) -> Multiset<usize>
    decreases parts.len(),
{
    if parts.len() == 0 {
        Multiset::empty()
    } else {
        pool(parts.drop_last()).add(parts.last().to_multiset())
    }
}

/// The endpoints in the parts, part by part.
pub open spec fn lists(parts: Seq<Vec<usize>>) -> Seq<Seq<usize>> {
    Seq::new(parts.len(), |i: int| parts[i]@)
}

/// The endpoints of partitions, partition by partition.
pub open spec fn endpoint_lists(ps: Seq<Partition>) -> Seq<Seq<usize>> {
    Seq::new(ps.len(), |i: int| ps[i].endpoints@)
}

/// Exchanging one part exchanges its endpoints.
proof fn lemma_pool_update(parts: Seq<Seq<usize>>, i: int, x: Seq<usize>)
    requires
        0 <= i < parts.len(),
    ensures
        pool(parts.update(i, x)).add(parts[i].to_multiset()) =~= pool(parts).add(x.to_multiset()),
    decreases parts.len(),
{
    let n = parts.len() - 1;
    if i == n {
        assert(parts.update(i, x).drop_last() =~= parts.drop_last());
    } else {
        assert(parts.update(i, x).drop_last() =~= parts.drop_last().update(i, x));
        lemma_pool_update(parts.drop_last(), i, x);
        let a = pool(parts.drop_last().update(i, x));
        let d = pool(parts.drop_last());
        let b = parts.last().to_multiset();
        let c = parts[i].to_multiset();
        assert forall|v: usize| a.add(b).add(c).count(v) == d.add(b).add(x.to_multiset()).count(v) by {
            assert(a.add(c).count(v) == d.add(x.to_multiset()).count(v));
        }
        assert(a.add(b).add(c) =~= d.add(b).add(x.to_multiset()));
    }
}

/// Inserting a part adds its endpoints.
proof fn lemma_pool_insert(parts: Seq<Seq<usize>>, i: int, x: Seq<usize>)
    requires
        0 <= i <= parts.len(),
    ensures
        pool(parts.insert(i, x)) =~= pool(parts).add(x.to_multiset()),
    decreases parts.len(),
{
    let all = parts.insert(i, x);
    if i == parts.len() {
        assert(all.drop_last() =~= parts);
    } else {
        assert(all.drop_last() =~= parts.drop_last().insert(i, x));
        lemma_pool_insert(parts.drop_last(), i, x);
    }
}

/// A further endpoint in a part is a further endpoint.
pub(crate) proof fn lemma_pool_push(parts: Seq<Seq<usize>>, i: int, v: usize)
    requires
        0 <= i < parts.len(),
    ensures
        pool(parts.update(i, parts[i].push(v))).len() == pool(parts).len() + 1,
{
    let x = parts[i].push(v);
    lemma_pool_update(parts, i, x);
    x.to_multiset_ensures();
    parts[i].to_multiset_ensures();
    assert(pool(parts.update(i, x)).add(parts[i].to_multiset()).len() == pool(parts).add(x.to_multiset()).len());
}

/// A part has no more endpoints than all parts together, nor have two.
proof fn lemma_pool_len(parts: Seq<Seq<usize>>, i: int, j: int)
    requires
        0 <= i < parts.len(),
        0 <= j < parts.len(),
        i != j,
    ensures
        parts[i].len() <= pool(parts).len(),
        parts[i].len() + parts[j].len() <= pool(parts).len(),
    decreases parts.len(),
{
    let e = Seq::<usize>::empty();
    let one = parts.update(i, e);
    let two = one.update(j, e);
    lemma_pool_update(parts, i, e);
    lemma_pool_update(one, j, e);
    e.to_multiset_ensures();
    parts[i].to_multiset_ensures();
    parts[j].to_multiset_ensures();
    assert(pool(one).add(parts[i].to_multiset()).len() == pool(parts).add(e.to_multiset()).len());
    assert(pool(two).add(parts[j].to_multiset()).len() == pool(one).add(e.to_multiset()).len());
}

proof fn lemma_pool_one(parts: Seq<Seq<usize>>, i: int)
    requires
        0 <= i < parts.len(),
    ensures
        parts[i].len() <= pool(parts).len(),
{
    let e = Seq::<usize>::empty();
    lemma_pool_update(parts, i, e);
    e.to_multiset_ensures();
    parts[i].to_multiset_ensures();
    assert(pool(parts.update(i, e)).add(parts[i].to_multiset()).len() == pool(parts).add(e.to_multiset()).len());
}

/// The pins that some endpoint groups depend on within a major stage.
pub open spec fn part_cone(aig: AIG, staged: StagedAIG, endpoints: Seq<usize>) -> Set<usize> {
    cone_set(aig, staged.inputs().to_set(), endpoint_pins(aig, staged, endpoints))
}

/// The number of pins that some endpoint groups depend on.
pub fn part_cone_size(aig: &AIG, staged: &StagedAIG, endpoints: &Vec<usize>) -> (n: usize)
    requires
        aig.walkable(),
        endpoints_readable(*aig),
        staged.wf(*aig),
        are_groups(*staged, endpoints@),
    ensures
        part_cone(*aig, *staged, endpoints@).finite(),
        n == part_cone(*aig, *staged, endpoints@).len(),
{
    let mut comb_outputs: Vec<usize> = Vec::new();
    let mut i: usize = 0;
    assert(endpoints@.take(0) =~= Seq::<usize>::empty());
    while i < endpoints.len()
        invariant
            endpoints_readable(*aig),
            staged.wf(*aig),
            are_groups(*staged, endpoints@),
            i <= endpoints@.len(),
            comb_outputs@ == endpoint_pins(*aig, *staged, endpoints@.take(i as int)),
        decreases endpoints@.len() - i,
    {
        let e = endpoints[i];
        proof {
            assert(endpoints@.take(i + 1).drop_last() =~= endpoints@.take(i as int));
            assert(endpoints@.take(i + 1).last() == e);
            assert(endpoints@[i as int] < staged.group_count());
            lemma_group_pins(*aig, *staged, e as int);
        }
        let mut pins = staged.get_endpoint_group(aig, e).for_each_input();
        comb_outputs.append(&mut pins);
        i += 1;
    }
    let ghost done = staged.inputs().to_set();
    let ghost pins = endpoint_pins(*aig, *staged, endpoints@);
    proof {
        assert(endpoints@.take(endpoints@.len() as int) =~= endpoints@);
        lemma_endpoint_pins(*aig, *staged, endpoints@);
        assert forall|i: int| 0 <= i < comb_outputs@.len() implies #[trigger] comb_outputs@[i] <= aig.num_aigpins by {
            assert(pins[i] <= aig.num_aigpins);
        }
    }
    let order = match &staged.primary_inputs {
        Some(s) => aig.topo_traverse_generic(Some(&comb_outputs), Some(s)),
        None => aig.topo_traverse_generic(Some(&comb_outputs), None),
    };
    proof {
        assert(match staged.primary_inputs {
            Some(s) => pin_set(Some(&s)),
            None => pin_set(None),
        } =~= done);
        assert(order@.to_set() =~= part_cone(*aig, *staged, endpoints@)) by {
            assert forall|v: usize| #[trigger]
                order@.to_set().contains(v) <==> part_cone(*aig, *staged, endpoints@).contains(v) by {
                if order@.contains(v) {
                    let u = choose|u: usize| #[trigger]
                        aig.is_endpoint(Some(&comb_outputs), u) && aig.reaches(done, u, v);
                    assert(pins.contains(u));
                }
                if in_cone(*aig, done, pins, v) {
                    let t = choose|t: usize| #[trigger] pins.contains(t) && aig.reaches(done, t, v);
                    assert(aig.is_endpoint(Some(&comb_outputs), t));
                }
            }
        }
        order@.unique_seq_to_set();
    }
    order.len()
}

/// The pins of concatenated lists of endpoint groups.
proof fn lemma_endpoint_pins_concat(aig: AIG, staged: StagedAIG, a: Seq<usize>, b: Seq<usize>)
    ensures
        endpoint_pins(aig, staged, a + b) == endpoint_pins(aig, staged, a) + endpoint_pins(aig, staged, b),
    decreases b.len(),
{
    if b.len() == 0 {
        assert(a + b =~= a);
        assert(endpoint_pins(aig, staged, a) + endpoint_pins(aig, staged, b) =~= endpoint_pins(aig, staged, a));
    } else {
        assert((a + b).drop_last() =~= a + b.drop_last());
        lemma_endpoint_pins_concat(aig, staged, a, b.drop_last());
        assert(endpoint_pins(aig, staged, a + b) =~= endpoint_pins(aig, staged, a) + endpoint_pins(aig, staged, b));
    }
}

/// More endpoint groups depend on more.
proof fn lemma_cone_grows(aig: AIG, staged: StagedAIG, a: Seq<usize>, b: Seq<usize>)
    requires
        part_cone(aig, staged, a + b).finite(),
    ensures
        part_cone(aig, staged, a).len() <= part_cone(aig, staged, a + b).len(),
        part_cone(aig, staged, b).len() <= part_cone(aig, staged, a + b).len(),
{
    lemma_endpoint_pins_concat(aig, staged, a, b);
    let done = staged.inputs().to_set();
    let pa = endpoint_pins(aig, staged, a);
    let pb = endpoint_pins(aig, staged, b);
    let all = pa + pb;
    assert forall|v: usize| part_cone(aig, staged, a).contains(v) implies part_cone(aig, staged, a + b).contains(v) by {
        let t = choose|t: usize| #[trigger] pa.contains(t) && aig.reaches(done, t, v);
        assert(all[pa.index_of(t)] == t);
        assert(all.contains(t));
    }
    assert forall|v: usize| part_cone(aig, staged, b).contains(v) implies part_cone(aig, staged, a + b).contains(v) by {
        let t = choose|t: usize| #[trigger] pb.contains(t) && aig.reaches(done, t, v);
        assert(all[pa.len() + pb.index_of(t)] == t);
        assert(all.contains(t));
    }
    vstd::set_lib::lemma_len_subset(part_cone(aig, staged, a), part_cone(aig, staged, a + b));
    vstd::set_lib::lemma_len_subset(part_cone(aig, staged, b), part_cone(aig, staged, a + b));
}

/// Can the part be measured?
spec fn measurable(aig: &AIG, staged: &StagedAIG, part: &Vec<usize>) -> bool {
    aig.walkable() && endpoints_readable(*aig) && staged.wf(*aig) && are_groups(*staged, part@)
}

/// Is this the size of the part's cone?
spec fn measured(aig: &AIG, staged: &StagedAIG, part: &Vec<usize>, n: usize) -> bool {
    part_cone(*aig, *staged, part@).finite() && n == part_cone(*aig, *staged, part@).len()
}

/// The sizes of the cones of some parts.
fn cone_sizes(aig: &AIG, staged: &StagedAIG, parts: &Vec<Vec<usize>>) -> (r: Vec<usize>)
    requires
        aig.walkable(),
        endpoints_readable(*aig),
        staged.wf(*aig),
        forall|i: int| 0 <= i < parts@.len() ==> are_groups(*staged, (#[trigger] parts@[i])@),
    ensures
        r@.len() == parts@.len(),
        forall|i: int|
            0 <= i < parts@.len() ==> {
                &&& part_cone(*aig, *staged, (#[trigger] parts@[i])@).finite()
                &&& r@[i] == part_cone(*aig, *staged, parts@[i]@).len()
            },
{
    let f = |v: &Vec<usize>| -> (n: usize)
        requires
            measurable(aig, staged, v),
        ensures
            measured(aig, staged, v, n),
        { part_cone_size(aig, staged, v) };
    let r = par_map(parts, f);
    assert forall|i: int| 0 <= i < parts@.len() implies {
        &&& part_cone(*aig, *staged, (#[trigger] parts@[i])@).finite()
        &&& r@[i] == part_cone(*aig, *staged, parts@[i]@).len()
    } by {
        assert(measured(aig, staged, &parts@[i], r@[i]));
    }
    r
}

/// Is this what building a partition for the endpoint groups gives?
pub open spec fn builds(aig: AIG, staged: StagedAIG, endpoints: Seq<usize>, r: Option<Partition>) -> bool {
    exists|v: Vec<usize>| v@ == endpoints && #[trigger] call_ensures(Partition::build_one, (&aig, &staged, &v), r)
}

/// The endpoint groups of some lists, one list after the other.
pub open spec fn joined(parts: Seq<Seq<usize>>, members: Seq<int>) -> Seq<usize>
    decreases members.len(),
{
    if members.len() == 0 {
        Seq::empty()
    } else {
        joined(parts, members.drop_last()) + parts[members.last()]
    }
}

/// Was there no partition for two parts together, or one with too many stages?
pub open spec fn refuses(aig: AIG, staged: StagedAIG, limit: int, a: Seq<usize>, b: Seq<usize>) -> bool {
    exists|r: Option<Partition>| #[trigger]
        builds(aig, staged, a + b, r) && (r is None || r.unwrap().stages@.len() > limit)
}

/// Was list `j` refused while the members were joined one after the other?
pub open spec fn tried(
    aig: AIG,
    staged: StagedAIG,
    parts: Seq<Seq<usize>>,
    limit: int,
    members: Seq<int>,
    j: int,
) -> bool {
    exists|t: int|
        1 <= t <= members.len() && #[trigger] refuses(aig, staged, limit, joined(parts, members.take(t)), parts[j])
}

/// Were more than `n` lists refused while the members were joined?
pub open spec fn many_tried(
    aig: AIG,
    staged: StagedAIG,
    parts: Seq<Seq<usize>>,
    limit: int,
    members: Seq<int>,
    n: int,
) -> bool {
    exists|s: Seq<int>| #[trigger]
        s.no_duplicates() && s.len() > n && forall|k: int|
            0 <= k < s.len() ==> 0 <= #[trigger] s[k] < parts.len() && tried(
                aig,
                staged,
                parts,
                limit,
                members,
                s[k],
            )
}

/// Has a list its own partition because it was refused, or because enough others
/// were?
pub open spec fn set_aside(
    aig: AIG,
    staged: StagedAIG,
    parts: Seq<Seq<usize>>,
    limit: int,
    members: Seq<int>,
    n: int,
    j: int,
) -> bool {
    tried(aig, staged, parts, limit, members, j) || many_tried(aig, staged, parts, limit, members, n)
}

/// The number of pins that joining two lists adds to the larger cone of the two,
/// the size of the joint cone, and the place of the second list.
pub open spec fn merge_key(aig: AIG, staged: StagedAIG, a: Seq<usize>, b: Seq<usize>, j: int) -> (int, int, int) {
    let x = part_cone(aig, staged, a).len() as int;
    let y = part_cone(aig, staged, b).len() as int;
    let both = part_cone(aig, staged, a + b).len() as int;
    (both - (if y < x {
        x
    } else {
        y
    }), both, j)
}

/// Does one key come before another one?
pub open spec fn key_less(a: (int, int, int), b: (int, int, int)) -> bool {
    a.0 < b.0 || (a.0 == b.0 && (a.1 < b.1 || (a.1 == b.1 && a.2 < b.2)))
}

/// If list `x` was a better choice than the list that was joined as member `t`,
/// was it refused before?
pub open spec fn passed_over(
    aig: AIG,
    staged: StagedAIG,
    parts: Seq<Seq<usize>>,
    limit: int,
    members: Seq<int>,
    t: int,
    x: int,
) -> bool {
    let base = joined(parts, members.take(t));
    key_less(merge_key(aig, staged, base, parts[x], x), merge_key(aig, staged, base, parts[members[t]], members[t]))
        ==> tried(aig, staged, parts, limit, members.take(t), x)
}

/// Were the members joined in the best order, of the lists that were left?
#[verifier::opaque]
spec fn best_first(
    aig: AIG,
    staged: StagedAIG,
    orig: Seq<Seq<usize>>,
    limit: int,
    before: Seq<Vec<usize>>,
    members: Seq<int>,
) -> bool {
    forall|t: int, x: int|
        1 <= t < members.len() && members[0] < x < orig.len() && before[x]@.len() > 0 && !members.take(t).contains(x)
            ==> #[trigger] passed_over(aig, staged, orig, limit, members, t, x)
}

/// The best choice is joined.
proof fn lemma_best_next(
    aig: AIG,
    staged: StagedAIG,
    orig: Seq<Seq<usize>>,
    limit: int,
    before: Seq<Vec<usize>>,
    parts: Seq<Vec<usize>>,
    i: int,
    members: Seq<int>,
    refused0: Seq<bool>,
    refused: Seq<bool>,
    cnt_nodes: Seq<usize>,
    cnt_i: usize,
    choices: Seq<(usize, usize, usize)>,
    at: int,
)
    requires
        best_first(aig, staged, orig, limit, before, members),
        members_ok(orig, before, parts, i, members),
        orig.len() == parts.len(),
        before.len() == parts.len(),
        0 <= i < parts.len(),
        forall|k: int| i <= k < orig.len() && (#[trigger] before[k])@.len() > 0 ==> before[k]@ == orig[k],
        forall|j: int|
            i < j < parts.len() && parts[j]@.len() > 0 ==> #[trigger] cnt_nodes[j] == part_cone(
                aig,
                staged,
                parts[j]@,
            ).len(),
        cnt_i == part_cone(aig, staged, parts[i]@).len(),
        0 <= at < choices.len(),
        forall|k: int|
            0 <= k < choices.len() ==> {
                let (diff, cnt, j) = #[trigger] choices[k];
                &&& eligible(parts, refused0, i, j as int)
                &&& cnt == part_cone(aig, staged, parts[i]@ + parts[j as int]@).len()
                &&& diff == cnt - (if cnt_nodes[j as int] < cnt_i {
                    cnt_i
                } else {
                    cnt_nodes[j as int]
                })
            },
        forall|j: int| #[trigger]
            eligible(parts, refused0, i, j) ==> exists|k: int| 0 <= k < choices.len() && (#[trigger] choices[k]).2 == j,
        forall|k: int, l: int| 0 <= k < l < choices.len() ==> triple_le(#[trigger] choices[k], #[trigger] choices[l]),
        forall|k: int| 0 <= k < at ==> refused[(#[trigger] choices[k]).2 as int],
        forall|j: int| 0 <= j < parts.len() && refused0[j] ==> #[trigger] refused[j],
        forall|j: int|
            0 <= j < parts.len() && #[trigger] refused[j] ==> tried(aig, staged, orig, limit, members, j)
                || parts[j]@.len() == 0,
    ensures
        best_first(aig, staged, orig, limit, before, members.push(choices[at].2 as int)),
{
    reveal(best_first);
    let j = choices[at].2 as int;
    let all = members.push(j);
    assert(eligible(parts, refused0, i, j));
    assert forall|t: int, x: int|
        1 <= t < all.len() && all[0] < x < orig.len() && before[x]@.len() > 0 && !all.take(t).contains(
            x,
        ) implies #[trigger] passed_over(aig, staged, orig, limit, all, t, x) by {
        if t < members.len() {
            assert(all.take(t) =~= members.take(t));
            assert(passed_over(aig, staged, orig, limit, members, t, x));
        } else {
            assert(all.take(t) =~= members);
            assert(!members.contains(x));
            assert(parts[x] == before[x]);
            assert(!members.contains(j));
            assert(parts[j] == before[j]);
            let base = joined(orig, members);
            assert(parts[i]@ == base);
            assert(cnt_nodes[x] == part_cone(aig, staged, parts[x]@).len());
            assert(cnt_nodes[j] == part_cone(aig, staged, parts[j]@).len());
            if key_less(merge_key(aig, staged, base, orig[x], x), merge_key(aig, staged, base, orig[j], j)) {
                if !refused0[x] {
                    assert(eligible(parts, refused0, i, x));
                    let l = choose|l: int| 0 <= l < choices.len() && (#[trigger] choices[l]).2 == x;
                    if l > at {
                        assert(triple_le(choices[at], choices[l]));
                    }
                    assert(l < at);
                    assert(refused[choices[l].2 as int]);
                }
                assert(refused[x]);
                assert(tried(aig, staged, orig, limit, members, x));
            }
        }
    }
}

/// What was refused stays so when a further list is joined.
proof fn lemma_tried_more(
    aig: AIG,
    staged: StagedAIG,
    parts: Seq<Seq<usize>>,
    limit: int,
    members: Seq<int>,
    x: int,
    j: int,
)
    requires
        tried(aig, staged, parts, limit, members, j),
    ensures
        tried(aig, staged, parts, limit, members.push(x), j),
{
    let t = choose|t: int|
        1 <= t <= members.len() && #[trigger] refuses(aig, staged, limit, joined(parts, members.take(t)), parts[j]);
    assert(members.push(x).take(t) =~= members.take(t));
    assert(refuses(aig, staged, limit, joined(parts, members.push(x).take(t)), parts[j]));
}

/// May the part be mapped, and what is known of the result?
spec fn mapped(aig: AIG, staged: StagedAIG, endpoints: Seq<usize>, r: Option<Partition>) -> bool {
    &&& builds(aig, staged, endpoints, r)
    &&& r matches Some(p) ==> partition_ok(aig, staged, endpoints, p)
    &&& over_budget(aig, staged, endpoints) ==> r is None
    &&& !over_budget(aig, staged, endpoints) && is_easy(aig, staged, endpoints) ==> r is Some
    &&& !over_budget(aig, staged, endpoints) && is_small(aig, staged, endpoints) ==> r is Some
        && r.unwrap().stages@.len() <= 1
}

/// Can the part be mapped?
spec fn mappable(aig: &AIG, staged: &StagedAIG, part: &Vec<usize>) -> bool {
    schedulable(*aig) && staged.wf(*aig) && are_groups(*staged, part@) && part@.len() <= usize::MAX / 16
}

/// Is this what mapping the part gives?
spec fn is_mapping(aig: &AIG, staged: &StagedAIG, part: &Vec<usize>, r: Option<Partition>) -> bool {
    mapped(*aig, *staged, part@, r)
}

/// Maps a part.
fn map_part(aig: &AIG, staged: &StagedAIG, part: &Vec<usize>) -> (r: Option<Partition>)
    requires
        mappable(aig, staged, part),
    ensures
        is_mapping(aig, staged, part, r),
{
    let r = Partition::build_one(aig, staged, part);
    assert(call_ensures(Partition::build_one, (aig, staged, part), r));
    r
}

/// Maps some parts.
fn map_parts(aig: &AIG, staged: &StagedAIG, parts: &Vec<Vec<usize>>) -> (r: Vec<Option<Partition>>)
    requires
        schedulable(*aig),
        staged.wf(*aig),
        forall|i: int|
            0 <= i < parts@.len() ==> are_groups(*staged, (#[trigger] parts@[i])@) && parts@[i]@.len() <= usize::MAX
                / 16,
    ensures
        r@.len() == parts@.len(),
        forall|i: int| 0 <= i < parts@.len() ==> mapped(*aig, *staged, (#[trigger] parts@[i])@, r@[i]),
{
    let f = |v: &Vec<usize>| -> (p: Option<Partition>)
        requires
            mappable(aig, staged, v),
        ensures
            is_mapping(aig, staged, v, p),
        { map_part(aig, staged, v) };
    let r = par_map(parts, f);
    assert forall|i: int| 0 <= i < parts@.len() implies mapped(*aig, *staged, (#[trigger] parts@[i])@, r@[i]) by {
        assert(is_mapping(aig, staged, &parts@[i], r@[i]));
    }
    r
}

/// All parts hold endpoint groups, and no more than can be counted.
pub open spec fn parts_ok(staged: StagedAIG, parts: Seq<Vec<usize>>) -> bool {
    &&& forall|i: int| 0 <= i < parts.len() ==> are_groups(staged, (#[trigger] parts[i])@)
    &&& pool(lists(parts)).len() <= usize::MAX / 16
}

/// Can any of the endpoint groups be realized together in one stage, within the
/// budget?
pub open spec fn merges_freely(aig: AIG, staged: StagedAIG, all: Multiset<usize>) -> bool {
    forall|e: Seq<usize>| #[trigger]
        e.to_multiset().subset_of(all) ==> is_small(aig, staged, e) && !over_budget(aig, staged, e)
}

/// Two parts hold endpoints of the parts.
proof fn lemma_pool_two(parts: Seq<Seq<usize>>, i: int, j: int)
    requires
        0 <= i < parts.len(),
        0 <= j < parts.len(),
        i != j,
    ensures
        (parts[i] + parts[j]).to_multiset().subset_of(pool(parts)),
{
    let e = Seq::<usize>::empty();
    let one = parts.update(i, e);
    let two = one.update(j, e);
    lemma_pool_update(parts, i, e);
    lemma_pool_update(one, j, e);
    e.to_multiset_ensures();
    vstd::seq_lib::lemma_multiset_commutative(parts[i], parts[j]);
    let both = (parts[i] + parts[j]).to_multiset();
    assert forall|v: usize| both.count(v) <= pool(parts).count(v) by {
        assert(pool(one).add(parts[i].to_multiset()).count(v) == pool(parts).add(e.to_multiset()).count(v));
        assert(pool(two).add(parts[j].to_multiset()).count(v) == pool(one).add(e.to_multiset()).count(v));
    }
}

/// May part `j` be merged into part `i`?
spec fn eligible(parts: Seq<Vec<usize>>, refused: Seq<bool>, i: int, j: int) -> bool {
    i < j < parts.len() && parts[j]@.len() > 0 && !refused[j]
}

/// The concatenation of two lists.
fn concat(a: &Vec<usize>, b: &Vec<usize>) -> (r: Vec<usize>)
    ensures
        r@ == a@ + b@,
{
    let mut r = a.clone();
    r.extend_from_slice(b.as_slice());
    assert(r@ =~= a@ + b@);
    r
}

proof fn lemma_concat_groups(staged: StagedAIG, a: Seq<usize>, b: Seq<usize>)
    requires
        are_groups(staged, a),
        are_groups(staged, b),
    ensures
        are_groups(staged, a + b),
{
    assert forall|k: int| 0 <= k < (a + b).len() implies #[trigger] (a + b)[k] < staged.group_count() by {
        if k < a.len() {
            assert(a[k] < staged.group_count());
        } else {
            assert(b[k - a.len()] < staged.group_count());
        }
    }
}

/// The parts that may be merged into part `i`: the pins that both would
/// compute alone and only once together count against a choice the least. The
/// best choice comes first; with each comes the size of the merged cone.
fn merge_choices(
    aig: &AIG,
    staged: &StagedAIG,
    parts: &Vec<Vec<usize>>,
    i: usize,
    refused: &Vec<bool>,
    cnt_nodes: &Vec<usize>,
    cnt_i: usize,
) -> (r: Vec<(usize, usize, usize)>)
    requires
        aig.walkable(),
        endpoints_readable(*aig),
        staged.wf(*aig),
        parts_ok(*staged, parts@),
        i < parts@.len(),
        refused@.len() == parts@.len(),
        cnt_nodes@.len() == parts@.len(),
        forall|j: int|
            i < j < parts@.len() && parts@[j]@.len() > 0 ==> #[trigger] cnt_nodes@[j] == part_cone(
                *aig,
                *staged,
                parts@[j]@,
            ).len(),
        cnt_i == part_cone(*aig, *staged, parts@[i as int]@).len(),
    ensures
        forall|k: int|
            0 <= k < r@.len() ==> {
                let (diff, cnt, j) = #[trigger] r@[k];
                &&& eligible(parts@, refused@, i as int, j as int)
                &&& cnt == part_cone(*aig, *staged, parts@[i as int]@ + parts@[j as int]@).len()
                &&& diff == cnt - (if cnt_nodes@[j as int] < cnt_i {
                    cnt_i
                } else {
                    cnt_nodes@[j as int]
                })
            },
        forall|j: int| #[trigger]
            eligible(parts@, refused@, i as int, j) ==> exists|k: int|
                0 <= k < r@.len() && (#[trigger] r@[k]).2 == j,
        forall|k: int, l: int| 0 <= k < l < r@.len() ==> triple_le(#[trigger] r@[k], #[trigger] r@[l]),
        forall|k: int, l: int| 0 <= k < l < r@.len() ==> (#[trigger] r@[k]).2 != (#[trigger] r@[l]).2,
{
    let mut js: Vec<usize> = Vec::new();
    let mut merged: Vec<Vec<usize>> = Vec::new();
    let n = parts.len();
    let mut j: usize = i + 1;
    while j < n
        invariant
            n == parts@.len(),
            parts_ok(*staged, parts@),
            i < j <= parts@.len(),
            refused@.len() == parts@.len(),
            js@.len() == merged@.len(),
            forall|k: int|
                0 <= k < js@.len() ==> eligible(parts@, refused@, i as int, (#[trigger] js@[k]) as int) && js@[k] < j
                    && merged@[k]@ == parts@[i as int]@ + parts@[js@[k] as int]@,
            forall|l: int| #[trigger] eligible(parts@, refused@, i as int, l) && l < j ==> js@.contains(l as usize),
            js@.no_duplicates(),
            forall|k: int| 0 <= k < merged@.len() ==> are_groups(*staged, (#[trigger] merged@[k])@),
        decreases parts@.len() - j,
    {
        let ghost js0 = js@;
        if parts[j].len() != 0 && !refused[j] {
            proof {
                assert(are_groups(*staged, parts@[i as int]@));
                assert(are_groups(*staged, parts@[j as int]@));
                lemma_concat_groups(*staged, parts@[i as int]@, parts@[j as int]@);
            }
            merged.push(concat(&parts[i], &parts[j]));
            js.push(j);
            assert(js@[js0.len() as int] == j);
        }
        proof {
            assert forall|l: int| #[trigger] eligible(parts@, refused@, i as int, l) && l < j + 1 implies js@.contains(
                l as usize,
            ) by {
                if l < j {
                    assert(js0.contains(l as usize));
                    assert(js@[js0.index_of(l as usize)] == l as usize);
                }
            }
        }
        j += 1;
    }
    let sizes = cone_sizes(aig, staged, &merged);
    let mut r: Vec<(usize, usize, usize)> = Vec::new();
    let mut k: usize = 0;
    while k < js.len()
        invariant
            parts_ok(*staged, parts@),
            i < parts@.len(),
            cnt_nodes@.len() == parts@.len(),
            js@.len() == merged@.len(),
            js@.no_duplicates(),
            sizes@.len() == js@.len(),
            k <= js@.len(),
            r@.len() == k,
            forall|j: int|
                i < j < parts@.len() && parts@[j]@.len() > 0 ==> #[trigger] cnt_nodes@[j] == part_cone(
                    *aig,
                    *staged,
                    parts@[j]@,
                ).len(),
            cnt_i == part_cone(*aig, *staged, parts@[i as int]@).len(),
            forall|k: int|
                0 <= k < js@.len() ==> eligible(parts@, refused@, i as int, (#[trigger] js@[k]) as int) && merged@[k]@
                    == parts@[i as int]@ + parts@[js@[k] as int]@,
            forall|k: int|
                0 <= k < merged@.len() ==> {
                    &&& part_cone(*aig, *staged, (#[trigger] merged@[k])@).finite()
                    &&& sizes@[k] == part_cone(*aig, *staged, merged@[k]@).len()
                },
            forall|l: int|
                0 <= l < k ==> {
                    let (diff, cnt, j) = #[trigger] r@[l];
                    &&& j == js@[l]
                    &&& cnt == part_cone(*aig, *staged, parts@[i as int]@ + parts@[j as int]@).len()
                    &&& diff == cnt - (if cnt_nodes@[j as int] < cnt_i {
                        cnt_i
                    } else {
                        cnt_nodes@[j as int]
                    })
                },
        decreases js@.len() - k,
    {
        let j = js[k];
        let cnt = sizes[k];
        proof {
            assert(eligible(parts@, refused@, i as int, js@[k as int] as int));
            assert(part_cone(*aig, *staged, merged@[k as int]@).finite());
            lemma_cone_grows(*aig, *staged, parts@[i as int]@, parts@[j as int]@);
            assert(cnt_nodes@[j as int] == part_cone(*aig, *staged, parts@[j as int]@).len());
        }
        let most: usize = if cnt_nodes[j] < cnt_i {
            cnt_i
        } else {
            cnt_nodes[j]
        };
        r.push((cnt - most, cnt, j));
        k += 1;
    }
    let ghost unsorted = r@;
    sort_triples(&mut r);
    proof {
        lemma_same_items(r@, unsorted);
        assert forall|k: int| 0 <= k < r@.len() implies {
            let (diff, cnt, j) = #[trigger] r@[k];
            &&& eligible(parts@, refused@, i as int, j as int)
            &&& cnt == part_cone(*aig, *staged, parts@[i as int]@ + parts@[j as int]@).len()
            &&& diff == cnt - (if cnt_nodes@[j as int] < cnt_i {
                cnt_i
            } else {
                cnt_nodes@[j as int]
            })
        } by {
            assert(r@.contains(r@[k]));
            let l = unsorted.index_of(r@[k]);
            assert(unsorted[l] == r@[k]);
            assert(eligible(parts@, refused@, i as int, js@[l] as int));
        }
        assert forall|j: int| #[trigger] eligible(parts@, refused@, i as int, j) implies exists|k: int|
            0 <= k < r@.len() && (#[trigger] r@[k]).2 == j by {
            assert(js@.contains(j as usize));
            let l = js@.index_of(j as usize);
            assert(unsorted.contains(unsorted[l]));
            assert(r@.contains(unsorted[l]));
            let k = r@.index_of(unsorted[l]);
            assert(r@[k].2 == j);
        }
        assert(unsorted.no_duplicates()) by {
            assert forall|k: int, l: int| 0 <= k < l < unsorted.len() implies unsorted[k] != unsorted[l] by {
                assert(unsorted[k].2 == js@[k] && unsorted[l].2 == js@[l]);
            }
        }
        lemma_same_distinct(r@, unsorted);
        assert forall|k: int, l: int| 0 <= k < l < r@.len() implies (#[trigger] r@[k]).2 != (#[trigger] r@[l]).2 by {
            assert(r@.contains(r@[k]) && r@.contains(r@[l]));
            let a = unsorted.index_of(r@[k]);
            let b = unsorted.index_of(r@[l]);
            assert(unsorted[a].2 == js@[a] && unsorted[b].2 == js@[b]);
        }
    }
    r
}

/// Has the partition no more stages than allowed?
spec fn within(p: Partition, nstages: usize, degrad: usize) -> bool {
    p.stages@.len() <= nstages + degrad
}

/// Maps the merger of part `i` with one after the other of the choices, until
/// one can be mapped with not too many stages. The trials come in batches of
/// growing size, and no batch begins behind `max_trials`. Choices that fail are
/// refused from then on.
fn try_merge(
    aig: &AIG,
    staged: &StagedAIG,
    parts: &Vec<Vec<usize>>,
    i: usize,
    choices: &Vec<(usize, usize, usize)>,
    max_trials: usize,
    nstages: usize,
    degrad: usize,
    refused: &mut Vec<bool>,
) -> (r: Option<(usize, usize, Partition)>)
    requires
        schedulable(*aig),
        staged.wf(*aig),
        parts_ok(*staged, parts@),
        i < parts@.len(),
        old(refused)@.len() == parts@.len(),
        forall|k: int|
            0 <= k < choices@.len() ==> eligible(parts@, old(refused)@, i as int, (#[trigger] choices@[k]).2 as int),
        forall|k: int, l: int| 0 <= k < l < choices@.len() ==> (#[trigger] choices@[k]).2 != (#[trigger] choices@[l]).2,
    ensures
        r matches Some((j, cnt, p)) ==> builds(*aig, *staged, parts@[i as int]@ + parts@[j as int]@, Some(p)),
        forall|j: int|
            0 <= j < parts@.len() && old(refused)@[j] ==> #[trigger] final(refused)@[j],
        forall|j: int|
            0 <= j < parts@.len() && !old(refused)@[j] && #[trigger] final(refused)@[j] ==> i < j && refuses(
                *aig,
                *staged,
                nstages + degrad,
                parts@[i as int]@,
                parts@[j]@,
            ),
        r is None ==> (forall|k: int|
            0 <= k < choices@.len() && (k <= max_trials || choices@.len() <= max_trials) ==> final(refused)@[(
            #[trigger] choices@[k]).2 as int]),
        final(refused)@.len() == old(refused)@.len(),
        r matches Some((j, cnt, p)) ==> i < j < parts@.len() && parts@[j as int]@.len() > 0 && partition_ok(
            *aig,
            *staged,
            parts@[i as int]@ + parts@[j as int]@,
            p,
        ) && within(p, nstages, degrad) && exists|k: int|
            0 <= k < choices@.len() && (#[trigger] choices@[k]).2 == j && choices@[k].1 == cnt && forall|l: int|
                0 <= l < k ==> final(refused)@[(#[trigger] choices@[l]).2 as int],
        merges_freely(*aig, *staged, pool(lists(parts@))) && nstages + degrad >= 1 ==> (r is Some <==> choices@.len()
            > 0) && final(refused)@ == old(refused)@,
{
    let ghost easy = merges_freely(*aig, *staged, pool(lists(parts@))) && nstages + degrad >= 1;
    let n = choices.len();
    let mut stride: usize = 4;
    let mut batch: Vec<Option<Partition>> = Vec::new();
    let mut batch_end: usize = 0;
    let mut merge_i: usize = 0;
    while merge_i < n
        invariant
            schedulable(*aig),
            staged.wf(*aig),
            parts_ok(*staged, parts@),
            i < parts@.len(),
            n == choices@.len(),
            merge_i <= batch_end <= n,
            batch@.len() == batch_end - merge_i,
            refused@.len() == parts@.len(),
            old(refused)@.len() == parts@.len(),
            easy == (merges_freely(*aig, *staged, pool(lists(parts@))) && nstages + degrad >= 1),
            easy ==> merge_i == 0 && refused@ == old(refused)@,
            1 <= stride,
            forall|k: int, l: int|
                0 <= k < l < choices@.len() ==> (#[trigger] choices@[k]).2 != (#[trigger] choices@[l]).2,
            forall|k: int| 0 <= k < merge_i ==> refused@[(#[trigger] choices@[k]).2 as int],
            forall|j: int| 0 <= j < parts@.len() && old(refused)@[j] ==> #[trigger] refused@[j],
            forall|j: int|
                0 <= j < parts@.len() && !old(refused)@[j] && #[trigger] refused@[j] ==> i < j && refuses(
                    *aig,
                    *staged,
                    nstages + degrad,
                    parts@[i as int]@,
                    parts@[j]@,
                ),
            forall|k: int|
                0 <= k < n ==> i < (#[trigger] choices@[k]).2 < parts@.len() && parts@[choices@[k].2 as int]@.len() > 0,
            forall|b: int|
                0 <= b < batch@.len() ==> mapped(
                    *aig,
                    *staged,
                    parts@[i as int]@ + parts@[choices@[merge_i + b].2 as int]@,
                    #[trigger] batch@[b],
                ),
        decreases n - merge_i,
    {
        if merge_i == batch_end {
            if merge_i > max_trials {
                return None;
            }
            let rhs: usize = if stride >= n - merge_i {
                n
            } else {
                merge_i + stride
            };
            let mut trials: Vec<Vec<usize>> = Vec::new();
            let mut t: usize = merge_i;
            while t < rhs
                invariant
                    parts_ok(*staged, parts@),
                    i < parts@.len(),
                    n == choices@.len(),
                    merge_i <= t <= rhs,
                    rhs <= n,
                    trials@.len() == t - merge_i,
                    forall|k: int|
                        0 <= k < n ==> i < (#[trigger] choices@[k]).2 < parts@.len()
                            && parts@[choices@[k].2 as int]@.len() > 0,
                    forall|b: int|
                        0 <= b < trials@.len() ==> (#[trigger] trials@[b])@ == parts@[i as int]@
                            + parts@[choices@[merge_i + b].2 as int]@ && are_groups(*staged, trials@[b]@)
                            && trials@[b]@.len() <= usize::MAX / 16,
                decreases rhs - t,
            {
                let j = choices[t].2;
                proof {
                    assert(are_groups(*staged, parts@[i as int]@));
                    assert(are_groups(*staged, parts@[j as int]@));
                    lemma_concat_groups(*staged, parts@[i as int]@, parts@[j as int]@);
                    lemma_pool_len(lists(parts@), i as int, j as int);
                }
                trials.push(concat(&parts[i], &parts[j]));
                t += 1;
            }
            batch = map_parts(aig, staged, &trials);
            batch_end = rhs;
            proof {
                assert forall|b: int| 0 <= b < batch@.len() implies mapped(
                    *aig,
                    *staged,
                    parts@[i as int]@ + parts@[choices@[merge_i + b].2 as int]@,
                    #[trigger] batch@[b],
                ) by {
                    assert(mapped(*aig, *staged, trials@[b]@, batch@[b]));
                }
            }
            if stride <= usize::MAX / 2 {
                stride = stride * 2;
            }
        }
        let (_, cnt_new, j) = choices[merge_i];
        let ghost batch0 = batch@;
        assert(batch0[0] == batch@[0]);
        assert(choices@[merge_i as int].2 == j);
        let trial = batch.remove(0);
        proof {
            assert(mapped(*aig, *staged, parts@[i as int]@ + parts@[choices@[merge_i + 0].2 as int]@, batch0[0]));
            assert forall|b: int| 0 <= b < batch@.len() implies mapped(
                *aig,
                *staged,
                parts@[i as int]@ + parts@[choices@[merge_i + 1 + b].2 as int]@,
                #[trigger] batch@[b],
            ) by {
                assert(batch@[b] == batch0[b + 1]);
            }
        }
        proof {
            if easy {
                lemma_pool_two(lists(parts@), i as int, j as int);
                let both = parts@[i as int]@ + parts@[j as int]@;
                assert(lists(parts@)[i as int] + lists(parts@)[j as int] == both);
                assert(both.to_multiset().subset_of(pool(lists(parts@))));
            }
        }
        match trial {
            None => {
                assert(refuses(*aig, *staged, nstages + degrad, parts@[i as int]@, parts@[j as int]@));
                refused.set(j, true);
            },
            Some(partition) => {
                let len = partition.stages.len();
                if len > nstages && len - nstages > degrad {
                    assert(builds(*aig, *staged, parts@[i as int]@ + parts@[j as int]@, Some(partition)));
                    assert(refuses(*aig, *staged, nstages + degrad, parts@[i as int]@, parts@[j as int]@));
                    refused.set(j, true);
                } else {
                    return Some((j, cnt_new, partition));
                }
            },
        }
        merge_i += 1;
    }
    None
}

/// The number of parts that are not empty, from `from` on.
spec fn count_filled(parts: Seq<Vec<usize>>, from: int) -> nat
    decreases parts.len() - from,
{
    if from >= parts.len() {
        0
    } else {
        count_filled(parts, from + 1) + (if parts[from]@.len() > 0 {
            1nat
        } else {
            0nat
        })
    }
}

proof fn lemma_filled_update(a: Seq<Vec<usize>>, b: Seq<Vec<usize>>, from: int, i: int, j: int)
    requires
        a.len() == b.len(),
        0 <= from <= i < j < a.len(),
        a[i]@.len() > 0,
        a[j]@.len() > 0,
        b[i]@.len() > 0,
        b[j]@.len() == 0,
        forall|k: int| 0 <= k < a.len() && k != i && k != j ==> #[trigger] b[k] == a[k],
    ensures
        count_filled(b, from) == count_filled(a, from) - 1,
    decreases a.len() - from,
{
    if from == i {
        lemma_filled_one(a, b, from + 1, j);
    } else {
        lemma_filled_update(a, b, from + 1, i, j);
        assert(b[from] == a[from]);
    }
}

proof fn lemma_filled_one(a: Seq<Vec<usize>>, b: Seq<Vec<usize>>, from: int, j: int)
    requires
        a.len() == b.len(),
        0 <= from <= j < a.len(),
        a[j]@.len() > 0,
        b[j]@.len() == 0,
        forall|k: int| from <= k < a.len() && k != j ==> #[trigger] b[k] == a[k],
    ensures
        count_filled(b, from) == count_filled(a, from) - 1,
    decreases a.len() - from,
{
    if from == j {
        lemma_filled_same(a, b, from + 1);
    } else {
        lemma_filled_one(a, b, from + 1, j);
        assert(b[from] == a[from]);
    }
}

proof fn lemma_filled_same(a: Seq<Vec<usize>>, b: Seq<Vec<usize>>, from: int)
    requires
        a.len() == b.len(),
        forall|k: int| from <= k < a.len() ==> #[trigger] b[k] == a[k],
        0 <= from,
    ensures
        count_filled(b, from) == count_filled(a, from),
    decreases a.len() - from,
{
    if from < a.len() {
        assert(b[from] == a[from]);
        lemma_filled_same(a, b, from + 1);
    }
}

/// The sizes of the cones of the parts behind part `i` that are not empty.
spec fn sizes_ok(aig: AIG, staged: StagedAIG, parts: Seq<Vec<usize>>, cnt_nodes: Seq<usize>, i: int) -> bool {
    &&& cnt_nodes.len() == parts.len()
    &&& forall|j: int|
        i <= j < parts.len() && parts[j]@.len() > 0 ==> #[trigger] cnt_nodes[j] == part_cone(
            aig,
            staged,
            parts[j]@,
        ).len()
}

/// Are these the lists that were joined to part `i`, the part's own first?
spec fn members_ok(
    orig: Seq<Seq<usize>>,
    before: Seq<Vec<usize>>,
    parts: Seq<Vec<usize>>,
    i: int,
    members: Seq<int>,
) -> bool {
    &&& members.len() >= 1
    &&& members[0] == i
    &&& members.no_duplicates()
    &&& parts[i]@ == joined(orig, members)
    &&& forall|t: int| 0 <= t < members.len() ==> i <= #[trigger] members[t] < orig.len()
        && before[members[t]]@.len() > 0
    &&& forall|k: int|
        i < k < parts.len() ==> (if members.contains(k) {
            (#[trigger] parts[k])@.len() == 0
        } else {
            parts[k] == before[k]
        })
}

proof fn lemma_member_added(
    orig: Seq<Seq<usize>>,
    before: Seq<Vec<usize>>,
    a: Seq<Vec<usize>>,
    b: Seq<Vec<usize>>,
    i: int,
    members: Seq<int>,
    j: int,
)
    requires
        members_ok(orig, before, a, i, members),
        orig.len() == before.len(),
        a.len() == before.len(),
        b.len() == a.len(),
        0 <= i < j < a.len(),
        a[j]@.len() > 0,
        before[j]@.len() > 0 ==> before[j]@ == orig[j],
        b[i]@ == a[i]@ + a[j]@,
        b[j]@.len() == 0,
        forall|k: int| 0 <= k < a.len() && k != i && k != j ==> #[trigger] b[k] == a[k],
    ensures
        members_ok(orig, before, b, i, members.push(j)),
{
    let all = members.push(j);
    assert(!members.contains(j)) by {
        if members.contains(j) {
            assert(a[j]@.len() == 0);
        }
    }
    assert(a[j] == before[j]);
    assert(all.drop_last() =~= members);
    assert(joined(orig, all) =~= joined(orig, members) + orig[j]);
    assert forall|k: int| i < k < b.len() implies (if all.contains(k) {
        (#[trigger] b[k])@.len() == 0
    } else {
        b[k] == before[k]
    }) by {
        assert(all[members.len() as int] == j);
        if members.contains(k) {
            assert(all[members.index_of(k)] == k);
            assert(a[k]@.len() == 0);
        } else if k != j {
            assert(a[k] == before[k]);
            if all.contains(k) {
                assert(members[all.index_of(k)] == k);
            }
        }
    }
}

/// A list that is refused is one of the given ones.
proof fn lemma_refused_list(
    orig: Seq<Seq<usize>>,
    before: Seq<Vec<usize>>,
    parts: Seq<Vec<usize>>,
    i: int,
    members: Seq<int>,
    j: int,
)
    requires
        members_ok(orig, before, parts, i, members),
        0 <= i < parts.len(),
        i < j < parts.len(),
        orig.len() == parts.len(),
        forall|k: int| i <= k < orig.len() && (#[trigger] before[k])@.len() > 0 ==> before[k]@ == orig[k],
        parts[j]@.len() > 0,
    ensures
        parts[j]@ == orig[j],
{
    assert(!members.contains(j));
    assert(parts[j] == before[j]);
}

/// Merges as many of the parts behind part `i` into it as can be.
fn grow_part(
    aig: &AIG,
    staged: &StagedAIG,
    parts: &mut Vec<Vec<usize>>,
    i: usize,
    first: Partition,
    cnt_nodes: &Vec<usize>,
    max_trials: usize,
    nstages: usize,
    degrad: usize,
    Ghost(orig): Ghost<Seq<Seq<usize>>>,
) -> (r: (Partition, Ghost<Seq<int>>))
    requires
        schedulable(*aig),
        staged.wf(*aig),
        parts_ok(*staged, old(parts)@),
        i < old(parts)@.len(),
        old(parts)@[i as int]@.len() > 0,
        sizes_ok(*aig, *staged, old(parts)@, cnt_nodes@, i as int),
        partition_ok(*aig, *staged, old(parts)@[i as int]@, first),
        within(first, nstages, degrad),
        builds(*aig, *staged, old(parts)@[i as int]@, Some(first)),
        orig.len() == old(parts)@.len(),
        forall|k: int| i <= k < orig.len() && (#[trigger] old(parts)@[k])@.len() > 0 ==> old(parts)@[k]@ == orig[k],
    ensures
        builds(*aig, *staged, final(parts)@[i as int]@, Some(r.0)),
        members_ok(orig, old(parts)@, final(parts)@, i as int, r.1@),
        best_first(*aig, *staged, orig, nstages + degrad, old(parts)@, r.1@),
        forall|j: int|
            i < j < orig.len() && (#[trigger] final(parts)@[j])@.len() > 0 ==> set_aside(
                *aig,
                *staged,
                orig,
                nstages + degrad,
                r.1@,
                max_trials as int,
                j,
            ),
        parts_ok(*staged, final(parts)@),
        final(parts)@.len() == old(parts)@.len(),
        forall|k: int| 0 <= k < i ==> #[trigger] final(parts)@[k] == old(parts)@[k],
        forall|k: int|
            i < k < final(parts)@.len() ==> #[trigger] final(parts)@[k] == old(parts)@[k] || final(parts)@[k]@.len()
                == 0,
        pool(lists(final(parts)@)) == pool(lists(old(parts)@)),
        final(parts)@[i as int]@.len() > 0,
        partition_ok(*aig, *staged, final(parts)@[i as int]@, r.0),
        within(r.0, nstages, degrad),
        merges_freely(*aig, *staged, pool(lists(old(parts)@))) && nstages + degrad >= 1 ==> forall|k: int|
            i < k < final(parts)@.len() ==> (#[trigger] final(parts)@[k])@.len() == 0,
{
    let ghost easy = merges_freely(*aig, *staged, pool(lists(parts@))) && nstages + degrad >= 1;
    let n = parts.len();
    let mut p = first;
    let mut refused: Vec<bool> = vec![false; n];
    let mut cnt_i = cnt_nodes[i];
    let mut merged = true;
    let ghost mut mem: Seq<int> = seq![i as int];
    proof {
        assert(mem.drop_last() =~= Seq::<int>::empty());
        assert(joined(orig, mem.drop_last()) =~= Seq::<usize>::empty());
        assert(joined(orig, mem) =~= orig[i as int]);
        assert(best_first(*aig, *staged, orig, nstages + degrad, parts@, mem)) by {
            reveal(best_first);
        }
    }
    while merged
        invariant
            schedulable(*aig),
            staged.wf(*aig),
            parts_ok(*staged, parts@),
            n == parts@.len(),
            parts@.len() == old(parts)@.len(),
            i < n,
            refused@.len() == n,
            cnt_nodes@.len() == n,
            parts@[i as int]@.len() > 0,
            sizes_ok(*aig, *staged, parts@, cnt_nodes@, i + 1),
            cnt_i == part_cone(*aig, *staged, parts@[i as int]@).len(),
            forall|k: int| 0 <= k < i ==> #[trigger] parts@[k] == old(parts)@[k],
            forall|k: int|
                i < k < parts@.len() ==> #[trigger] parts@[k] == old(parts)@[k] || parts@[k]@.len() == 0,
            pool(lists(parts@)) == pool(lists(old(parts)@)),
            partition_ok(*aig, *staged, parts@[i as int]@, p),
            within(p, nstages, degrad),
            easy == (merges_freely(*aig, *staged, pool(lists(old(parts)@))) && nstages + degrad >= 1),
            easy ==> forall|k: int| 0 <= k < n ==> !#[trigger] refused@[k],
            easy && !merged ==> forall|k: int| i < k < n ==> (#[trigger] parts@[k])@.len() == 0,
            builds(*aig, *staged, parts@[i as int]@, Some(p)),
            orig.len() == n,
            forall|k: int|
                i <= k < orig.len() && (#[trigger] old(parts)@[k])@.len() > 0 ==> old(parts)@[k]@ == orig[k],
            members_ok(orig, old(parts)@, parts@, i as int, mem),
            best_first(*aig, *staged, orig, nstages + degrad, old(parts)@, mem),
            forall|j: int|
                0 <= j < n && #[trigger] refused@[j] ==> tried(*aig, *staged, orig, nstages + degrad, mem, j)
                    || parts@[j]@.len() == 0,
            !merged ==> forall|j: int|
                i < j < n && (#[trigger] parts@[j])@.len() > 0 ==> set_aside(
                    *aig,
                    *staged,
                    orig,
                    nstages + degrad,
                    mem,
                    max_trials as int,
                    j,
                ),
        decreases
                count_filled(parts@, 0),
                (if merged {
                    1int
                } else {
                    0int
                }),
    {
        merged = false;
        let ghost ref0 = refused@;
        let ghost cnt0 = cnt_i;
        let ghost before = parts@;
        let choices = merge_choices(aig, staged, parts, i, &refused, cnt_nodes, cnt_i);
        proof {
            if easy && choices@.len() == 0 {
                assert forall|k: int| i < k < n implies (#[trigger] parts@[k])@.len() == 0 by {
                    assert(!refused@[k]);
                    assert(!eligible(parts@, refused@, i as int, k));
                }
            }
        }
        let found = try_merge(aig, staged, parts, i, &choices, max_trials, nstages, degrad, &mut refused);
        proof {
            let limit = nstages + degrad;
            assert(mem.take(mem.len() as int) =~= mem);
            assert forall|j: int| 0 <= j < n && #[trigger] refused@[j] implies tried(
                *aig,
                *staged,
                orig,
                limit,
                mem,
                j,
            ) || parts@[j]@.len() == 0 by {
                if !ref0[j] {
                    if parts@[j]@.len() > 0 {
                        lemma_refused_list(orig, old(parts)@, parts@, i as int, mem, j);
                        assert(refuses(*aig, *staged, limit, joined(orig, mem.take(mem.len() as int)), orig[j]));
                    }
                }
            }
            if found is None {
                assert forall|j: int| i < j < n && (#[trigger] parts@[j])@.len() > 0 implies set_aside(
                    *aig,
                    *staged,
                    orig,
                    limit,
                    mem,
                    max_trials as int,
                    j,
                ) by {
                    if !refused@[j] {
                        assert(!ref0[j]);
                        assert(eligible(parts@, ref0, i as int, j));
                        let k = choose|k: int| 0 <= k < choices@.len() && (#[trigger] choices@[k]).2 == j;
                        assert(k > max_trials && choices@.len() > max_trials);
                        let s = Seq::new((max_trials + 1) as nat, |k: int| choices@[k].2 as int);
                        assert forall|a: int| 0 <= a < s.len() implies 0 <= #[trigger] s[a] < orig.len() && tried(
                            *aig,
                            *staged,
                            orig,
                            limit,
                            mem,
                            s[a],
                        ) by {
                            assert(s[a] == choices@[a].2);
                            assert(refused@[choices@[a].2 as int]);
                            assert(eligible(parts@, ref0, i as int, choices@[a].2 as int));
                        }
                        assert(s.no_duplicates());
                        assert(many_tried(*aig, *staged, orig, limit, mem, max_trials as int));
                    }
                }
            }
        }
        if let Some((j, cnt_new, partition)) = found {
            let ghost parts0 = parts@;
            let both = concat(&parts[i], &parts[j]);
            parts.set(i, both);
            parts.set(j, Vec::new());
            proof {
                lemma_merged(*staged, parts0, parts@, i as int, j as int);
                lemma_filled_update(parts0, parts@, 0, i as int, j as int);
                let k = choose|k: int|
                    0 <= k < choices@.len() && (#[trigger] choices@[k]).2 == j && choices@[k].1 == cnt_new && forall|
                        l: int,
                    | 0 <= l < k ==> refused@[(#[trigger] choices@[l]).2 as int];
                assert(choices@[k].1 == cnt_new);
                lemma_best_next(
                    *aig,
                    *staged,
                    orig,
                    nstages + degrad,
                    old(parts)@,
                    parts0,
                    i as int,
                    mem,
                    ref0,
                    refused@,
                    cnt_nodes@,
                    cnt0,
                    choices@,
                    k,
                );
            }
            proof {
                let mem1 = mem.push(j as int);
                lemma_member_added(orig, old(parts)@, parts0, parts@, i as int, mem, j as int);
                assert forall|x: int| 0 <= x < n && #[trigger] refused@[x] implies tried(
                    *aig,
                    *staged,
                    orig,
                    nstages + degrad,
                    mem1,
                    x,
                ) || parts@[x]@.len() == 0 by {
                    if parts0[x]@.len() == 0 {
                        assert(parts@[x] == parts0[x] || x == i || x == j);
                    } else {
                        lemma_tried_more(*aig, *staged, orig, nstages + degrad, mem, j as int, x);
                    }
                }
                mem = mem1;
            }
            p = partition;
            merged = true;
            cnt_i = cnt_new;
        }
    }
    (p, Ghost(mem))
}

/// Moving the endpoints of one part to another keeps them all.
proof fn lemma_merged(staged: StagedAIG, a: Seq<Vec<usize>>, b: Seq<Vec<usize>>, i: int, j: int)
    requires
        parts_ok(staged, a),
        a.len() == b.len(),
        0 <= i < j < a.len(),
        b[i]@ == a[i]@ + a[j]@,
        b[j]@.len() == 0,
        forall|k: int| 0 <= k < a.len() && k != i && k != j ==> #[trigger] b[k] == a[k],
    ensures
        parts_ok(staged, b),
        pool(lists(b)) == pool(lists(a)),
{
    let e = Seq::<usize>::empty();
    let one = lists(a).update(i, a[i]@ + a[j]@);
    assert(lists(b) =~= one.update(j, e)) by {
        assert(b[j]@ =~= e);
    }
    lemma_pool_update(lists(a), i, a[i]@ + a[j]@);
    lemma_pool_update(one, j, e);
    vstd::seq_lib::lemma_multiset_commutative(a[i]@, a[j]@);
    e.to_multiset_ensures();
    let ma = a[i]@.to_multiset();
    let mb = a[j]@.to_multiset();
    assert(pool(lists(b)) =~= pool(lists(a))) by {
        assert forall|v: usize| pool(lists(b)).count(v) == pool(lists(a)).count(v) by {
            assert(pool(one).add(ma).count(v) == pool(lists(a)).add((a[i]@ + a[j]@).to_multiset()).count(v));
            assert(pool(lists(b)).add(mb).count(v) == pool(one).add(e.to_multiset()).count(v));
        }
    }
    assert forall|k: int| 0 <= k < b.len() implies are_groups(staged, (#[trigger] b[k])@) by {
        assert(are_groups(staged, a[k]@));
        if k == i {
            assert(are_groups(staged, a[j]@));
            lemma_concat_groups(staged, a[i]@, a[j]@);
        }
    }
}

/// Does every partition have no fewer stages than those behind it?
pub open spec fn sorted_by_stages(ps: Seq<Partition>) -> bool {
    forall|k: int, l: int|
        0 <= k < l < ps.len() ==> (#[trigger] ps[k]).stages@.len() >= (#[trigger] ps[l]).stages@.len()
}

/// Inserts a partition behind all that have no fewer stages.
fn insert_by_stages(ps: &mut Vec<Partition>, p: Partition)
    requires
        sorted_by_stages(old(ps)@),
    ensures
        sorted_by_stages(final(ps)@),
        exists|at: int|
            0 <= at <= old(ps)@.len() && final(ps)@ == #[trigger] old(ps)@.insert(at, p) && forall|k: int|
                at <= k < old(ps)@.len() ==> (#[trigger] old(ps)@[k]).stages@.len() < p.stages@.len(),
{
    let mut at: usize = 0;
    while at < ps.len() && ps[at].stages.len() >= p.stages.len()
        invariant
            at <= ps@.len(),
            ps@ == old(ps)@,
            forall|k: int| 0 <= k < at ==> (#[trigger] ps@[k]).stages@.len() >= p.stages@.len(),
        decreases ps@.len() - at,
    {
        at += 1;
    }
    let ghost before = ps@;
    ps.insert(at, p);
    proof {
        assert(ps@ == before.insert(at as int, p));
        assert forall|k: int| at <= k < before.len() implies (#[trigger] before[k]).stages@.len() < p.stages@.len() by {
            if k > at {
                assert(before[at as int].stages@.len() >= before[k].stages@.len());
            }
        }
        assert forall|k: int, l: int| 0 <= k < l < ps@.len() implies (#[trigger] ps@[k]).stages@.len() >= (
        #[trigger] ps@[l]).stages@.len() by {
            let a = if k <= at {
                k
            } else {
                k - 1
            };
            if k == at {
                assert(ps@[l] == before[l - 1]);
                assert(before[at as int].stages@.len() < p.stages@.len());
                if l - 1 > at {
                    assert(before[at as int].stages@.len() >= before[l - 1].stages@.len());
                }
            } else if l == at {
                assert(ps@[k] == before[k]);
            } else {
                let x = if k < at {
                    k
                } else {
                    k - 1
                };
                let y = if l < at {
                    l
                } else {
                    l - 1
                };
                assert(ps@[k] == before[x]);
                assert(ps@[l] == before[y]);
                assert(before[x].stages@.len() >= before[y].stages@.len());
            }
        }
    }
}

/// The highest number of stages.
pub open spec fn most_stages(ps: Seq<Partition>) -> nat
    decreases ps.len(),
{
    if ps.len() == 0 {
        0
    } else {
        let rest = most_stages(ps.drop_last());
        if ps.last().stages@.len() > rest {
            ps.last().stages@.len()
        } else {
            rest
        }
    }
}

/// The number of lists that are not empty.
pub open spec fn count_nonempty(parts: Seq<Seq<usize>>) -> nat
    decreases parts.len(),
{
    if parts.len() == 0 {
        0
    } else {
        count_nonempty(parts.drop_last()) + (if parts.last().len() > 0 {
            1nat
        } else {
            0nat
        })
    }
}

/// How many mergers are tried for a part before giving up.
pub open spec fn trial_limit(n: nat) -> int {
    if n / 8 < 20 {
        20
    } else {
        (n / 8) as int
    }
}

/// Is there member `t` of group `k`?
pub open spec fn is_member(groups: Seq<Seq<int>>, k: int, t: int) -> bool {
    0 <= k < groups.len() && 0 <= t < groups[k].len()
}

/// Are two members the same if they are the same list?
pub open spec fn same_member(groups: Seq<Seq<int>>, k: int, t: int, l: int, u: int) -> bool {
    is_member(groups, k, t) && is_member(groups, l, u) && groups[k][t] == groups[l][u] ==> k == l && t == u
}

/// Is the list in one of the groups?
pub open spec fn in_groups(groups: Seq<Seq<int>>, x: int) -> bool {
    exists|k: int, t: int| #[trigger] is_member(groups, k, t) && groups[k][t] == x
}

/// Is every list that is not empty in exactly one group?
pub open spec fn grouped(parts: Seq<Seq<usize>>, groups: Seq<Seq<int>>) -> bool {
    &&& forall|k: int| 0 <= k < groups.len() ==> (#[trigger] groups[k]).len() > 0
    &&& forall|k: int, t: int| #[trigger]
        is_member(groups, k, t) ==> 0 <= groups[k][t] < parts.len() && parts[groups[k][t]].len() > 0
    &&& forall|k: int, t: int, l: int, u: int| #[trigger] same_member(groups, k, t, l, u)
    &&& forall|x: int| 0 <= x < parts.len() && (#[trigger] parts[x]).len() > 0 ==> in_groups(groups, x)
}

/// Is nothing left apart that could have been merged: is every list of a group
/// whose first list comes later set aside by the earlier group?
pub open spec fn merged_all(
    aig: AIG,
    staged: StagedAIG,
    parts: Seq<Seq<usize>>,
    limit: int,
    groups: Seq<Seq<int>>,
) -> bool {
    forall|k: int, l: int, u: int|
        0 <= k < groups.len() && #[trigger] is_member(groups, l, u) && (#[trigger] groups[k])[0] < groups[l][0]
            ==> set_aside(aig, staged, parts, limit, groups[k], trial_limit(parts.len()), groups[l][u])
}

/// Is the list in no group that begins before the given list?
pub open spec fn is_free(groups: Seq<Seq<int>>, first: int, x: int) -> bool {
    forall|l: int, u: int| #[trigger] is_member(groups, l, u) && groups[l][0] < first ==> groups[l][u] != x
}

/// Does every group begin with the first of its lists, and were the others joined
/// in the best order, of the lists that were free?
pub open spec fn well_chosen(
    aig: AIG,
    staged: StagedAIG,
    parts: Seq<Seq<usize>>,
    limit: int,
    groups: Seq<Seq<int>>,
    k: int,
) -> bool {
    &&& forall|t: int| 0 <= t < groups[k].len() ==> groups[k][0] <= #[trigger] groups[k][t]
    &&& forall|t: int, x: int|
        1 <= t < groups[k].len() && groups[k][0] < x < parts.len() && parts[x].len() > 0 && is_free(
            groups,
            groups[k][0],
            x,
        ) && !groups[k].take(t).contains(x) ==> #[trigger] passed_over(aig, staged, parts, limit, groups[k], t, x)
}

/// Is every group well chosen?
#[verifier::opaque]
pub open spec fn all_chosen(
    aig: AIG,
    staged: StagedAIG,
    parts: Seq<Seq<usize>>,
    limit: int,
    groups: Seq<Seq<int>>,
) -> bool {
    forall|k: int| 0 <= k < groups.len() ==> #[trigger] well_chosen(aig, staged, parts, limit, groups, k)
}

/// What mapping and merging the parts gives: `alone` are the partitions for the
/// parts as they were given, and `groups` tells which parts each partition of
/// the result joins.
pub open spec fn process_with(
    aig: AIG,
    staged: StagedAIG,
    parts: Seq<Seq<usize>>,
    degrad: usize,
    alone: Seq<Partition>,
    groups: Seq<Seq<int>>,
    ps: Seq<Partition>,
) -> bool {
    let limit = most_stages(alone) + degrad;
    // Every part can be mapped.
    &&& alone.len() == parts.len()
    &&& forall|i: int|
        0 <= i < parts.len() ==> partition_ok(aig, staged, parts[i], #[trigger] alone[i]) && builds(
            aig,
            staged,
            parts[i],
            Some(alone[i]),
        )
    // The partitions are for whole parts, each of which is in one of them.
    &&& groups.len() == ps.len()
    &&& grouped(parts, groups)
    &&& forall|k: int|
        0 <= k < ps.len() ==> (#[trigger] ps[k]).endpoints@ == joined(parts, groups[k]) && partition_ok(
            aig,
            staged,
            ps[k].endpoints@,
            ps[k],
        ) && builds(aig, staged, ps[k].endpoints@, Some(ps[k])) && ps[k].endpoints@.len() > 0
    &&& pool(endpoint_lists(ps)) == pool(parts)
    &&& ps.len() <= count_nonempty(parts)
    // Stages are added within limits, and mergers are not missed.
    &&& forall|k: int| 0 <= k < ps.len() ==> (#[trigger] ps[k]).stages@.len() <= limit
    &&& merged_all(aig, staged, parts, limit as int, groups)
    // The best choice is joined first.
    &&& all_chosen(aig, staged, parts, limit as int, groups)
    // Partitions with more stages come first, and otherwise they keep the order
    // of the parts that they begin with.
    &&& sorted_by_stages(ps)
    &&& forall|k: int, l: int|
        0 <= k < l < ps.len() && (#[trigger] ps[k]).stages@.len() == (#[trigger] ps[l]).stages@.len() ==> groups[k][0]
            < groups[l][0]
}

/// Is this a right refined solution for the parts?
pub open spec fn process_ok(
    aig: AIG,
    staged: StagedAIG,
    parts: Seq<Seq<usize>>,
    degrad: usize,
    ps: Seq<Partition>,
) -> bool {
    exists|alone: Seq<Partition>, groups: Seq<Seq<int>>| #[trigger]
        process_with(aig, staged, parts, degrad, alone, groups, ps)
}

proof fn lemma_most_stages(ps: Seq<Partition>, n: nat, k: int)
    requires
        forall|i: int| 0 <= i < ps.len() ==> (#[trigger] ps[i]).stages@.len() <= n,
        0 <= k < ps.len(),
    ensures
        ps[k].stages@.len() <= most_stages(ps) <= n,
    decreases ps.len(),
{
    let rest = ps.drop_last();
    assert(ps[ps.len() - 1].stages@.len() <= n);
    assert forall|i: int| 0 <= i < rest.len() implies (#[trigger] rest[i]).stages@.len() <= n by {
        assert(ps[i].stages@.len() <= n);
    }
    if rest.len() > 0 {
        let x = if k < rest.len() {
            k
        } else {
            0
        };
        lemma_most_stages(rest, n, x);
        assert(k < rest.len() ==> rest[k] == ps[k]);
    } else {
        assert(most_stages(rest) == 0);
    }
}

/// What holds of the groups when the parts before `i` are done.
spec fn groups_so_far(
    aig: AIG,
    staged: StagedAIG,
    orig: Seq<Seq<usize>>,
    limit: int,
    work: Seq<Vec<usize>>,
    i: int,
    groups: Seq<Seq<int>>,
) -> bool {
    &&& forall|k: int| 0 <= k < groups.len() ==> (#[trigger] groups[k]).len() > 0 && groups[k][0] < i
    &&& forall|k: int, t: int| #[trigger]
        is_member(groups, k, t) ==> 0 <= groups[k][t] < orig.len() && orig[groups[k][t]].len() > 0
    &&& forall|k: int, t: int, l: int, u: int| #[trigger] same_member(groups, k, t, l, u)
    &&& forall|x: int|
        0 <= x < orig.len() && (#[trigger] orig[x]).len() > 0 ==> in_groups(groups, x) || (x >= i
            && work[x]@.len() > 0)
    &&& forall|x: int| i <= x < orig.len() && (#[trigger] work[x])@.len() > 0 ==> !in_groups(groups, x)
    &&& merged_all(aig, staged, orig, limit, groups)
    &&& all_chosen(aig, staged, orig, limit, groups)
    &&& forall|k: int, x: int|
        0 <= k < groups.len() && i <= x < orig.len() && (#[trigger] work[x])@.len() > 0 ==> set_aside(
            aig,
            staged,
            orig,
            limit,
            #[trigger] groups[k],
            trial_limit(orig.len()),
            x,
        )
}

/// A group for part `i` comes to the others.
proof fn lemma_group_added(
    aig: AIG,
    staged: StagedAIG,
    orig: Seq<Seq<usize>>,
    limit: int,
    w0: Seq<Vec<usize>>,
    w1: Seq<Vec<usize>>,
    i: int,
    groups: Seq<Seq<int>>,
    members: Seq<int>,
    at: int,
)
    requires
        groups_so_far(aig, staged, orig, limit, w0, i, groups),
        w0.len() == orig.len(),
        w1.len() == orig.len(),
        0 <= i < orig.len(),
        0 <= at <= groups.len(),
        forall|x: int| i <= x < orig.len() && (#[trigger] w0[x])@.len() > 0 ==> w0[x]@ == orig[x],
        members_ok(orig, w0, w1, i, members),
        best_first(aig, staged, orig, limit, w0, members),
        forall|j: int|
            i < j < orig.len() && (#[trigger] w1[j])@.len() > 0 ==> set_aside(
                aig,
                staged,
                orig,
                limit,
                members,
                trial_limit(orig.len()),
                j,
            ),
    ensures
        groups_so_far(aig, staged, orig, limit, w1, i + 1, groups.insert(at, members)),
{
    let all = groups.insert(at, members);
    let from = |k: int| if k < at {
        k
    } else {
        k - 1
    };
    assert forall|k: int| 0 <= k < all.len() implies (#[trigger] all[k]).len() > 0 && all[k][0] < i + 1 by {
        if k != at {
            assert(all[k] == groups[from(k)]);
        }
    }
    assert forall|x: int| in_groups(all, x) <==> #[trigger] in_groups(groups, x) || members.contains(x) by {
        if in_groups(groups, x) {
            let (k, t) = choose|k: int, t: int| #[trigger] is_member(groups, k, t) && groups[k][t] == x;
            let y = if k < at {
                k
            } else {
                k + 1
            };
            assert(all[y] == groups[k]);
            assert(is_member(all, y, t));
        }
        if members.contains(x) {
            assert(all[at] == members);
            assert(is_member(all, at, members.index_of(x)));
        }
        if in_groups(all, x) && !members.contains(x) {
            let (k, t) = choose|k: int, t: int| #[trigger] is_member(all, k, t) && all[k][t] == x;
            assert(k != at);
            assert(all[k] == groups[from(k)]);
            assert(is_member(groups, from(k), t));
        }
    }
    assert forall|k: int, t: int| #[trigger] is_member(all, k, t) implies 0 <= all[k][t] < orig.len()
        && orig[all[k][t]].len() > 0 by {
        if k != at {
            assert(all[k] == groups[from(k)]);
            assert(is_member(groups, from(k), t));
        } else {
            assert(members[t] == all[k][t]);
            assert(w0[members[t]]@ == orig[members[t]]);
        }
    }
    assert forall|k: int, t: int, l: int, u: int| #[trigger] same_member(all, k, t, l, u) by {
        if is_member(all, k, t) && is_member(all, l, u) && all[k][t] == all[l][u] {
            if k != at && l != at {
                assert(all[k] == groups[from(k)] && all[l] == groups[from(l)]);
                assert(same_member(groups, from(k), t, from(l), u));
            } else if k != at {
                assert(all[k] == groups[from(k)]);
                assert(is_member(groups, from(k), t));
                assert(members[u] == all[l][u]);
                assert(in_groups(groups, members[u]));
                assert(w0[members[u]]@.len() > 0);
            } else if l != at {
                assert(all[l] == groups[from(l)]);
                assert(is_member(groups, from(l), u));
                assert(members[t] == all[k][t]);
                assert(in_groups(groups, members[t]));
                assert(w0[members[t]]@.len() > 0);
            } else {
                assert(members[t] == members[u]);
            }
        }
    }
    assert forall|x: int| 0 <= x < orig.len() && (#[trigger] orig[x]).len() > 0 implies in_groups(all, x) || (x >= i
        + 1 && w1[x]@.len() > 0) by {
        assert(in_groups(groups, x) || (x >= i && w0[x]@.len() > 0));
        if !in_groups(groups, x) {
            if x == i {
                assert(members.contains(members[0]));
                assert(in_groups(all, x));
            } else if !members.contains(x) {
                assert(w1[x] == w0[x]);
            } else {
                assert(in_groups(all, x));
            }
        } else {
            assert(in_groups(all, x));
        }
    }
    assert forall|x: int| i + 1 <= x < orig.len() && (#[trigger] w1[x])@.len() > 0 implies !in_groups(all, x)
        && w0[x]@.len() > 0 by {
        assert(!members.contains(x));
        assert(w1[x] == w0[x]);
        assert(!in_groups(groups, x));
    }
    assert(all_chosen(aig, staged, orig, limit, all)) by {
        reveal(all_chosen);
        reveal(best_first);
        assert forall|k: int| 0 <= k < all.len() implies #[trigger] well_chosen(
            aig,
            staged,
            orig,
            limit,
            all,
            k,
        ) by {
            if k != at {
                let y = from(k);
                assert(all[k] == groups[y]);
                assert(well_chosen(aig, staged, orig, limit, groups, y));
                assert forall|x: int| is_free(all, all[k][0], x) implies is_free(groups, groups[y][0], x) by {
                    assert forall|l: int, u: int| #[trigger]
                        is_member(groups, l, u) && groups[l][0] < groups[y][0] implies groups[l][u] != x by {
                        let z = if l < at {
                            l
                        } else {
                            l + 1
                        };
                        assert(all[z] == groups[l]);
                        assert(is_member(all, z, u));
                    }
                }
            } else {
                assert forall|t: int, x: int|
                    1 <= t < members.len() && members[0] < x < orig.len() && orig[x].len() > 0 && is_free(
                        all,
                        members[0],
                        x,
                    ) && !members.take(t).contains(x) implies #[trigger] passed_over(
                    aig,
                    staged,
                    orig,
                    limit,
                    members,
                    t,
                    x,
                ) by {
                    if in_groups(groups, x) {
                        let (l, u) = choose|l: int, u: int| #[trigger] is_member(groups, l, u) && groups[l][u] == x;
                        let z = if l < at {
                            l
                        } else {
                            l + 1
                        };
                        assert(all[z] == groups[l]);
                        assert(is_member(all, z, u));
                    }
                    assert(w0[x]@.len() > 0);
                }
            }
        }
    }
    assert forall|k: int, x: int|
        0 <= k < all.len() && i + 1 <= x < orig.len() && (#[trigger] w1[x])@.len() > 0 implies set_aside(
        aig,
        staged,
        orig,
        limit,
        #[trigger] all[k],
        trial_limit(orig.len()),
        x,
    ) by {
        if k != at {
            assert(all[k] == groups[from(k)]);
            assert(w0[x]@.len() > 0);
        }
    }
    assert forall|k: int, l: int, u: int|
        0 <= k < all.len() && #[trigger] is_member(all, l, u) && (#[trigger] all[k])[0] < all[l][0] implies set_aside(
        aig,
        staged,
        orig,
        limit,
        all[k],
        trial_limit(orig.len()),
        all[l][u],
    ) by {
        if k == at {
            assert(l != at);
            assert(all[l] == groups[from(l)]);
            assert(groups[from(l)][0] < i);
        } else {
            assert(all[k] == groups[from(k)]);
            if l == at {
                assert(members[u] == all[l][u]);
                assert(w0[members[u]]@.len() > 0);
            } else {
                assert(all[l] == groups[from(l)]);
                assert(is_member(groups, from(l), u));
            }
        }
    }
}

proof fn lemma_pool_concat(a: Seq<Seq<usize>>, b: Seq<Seq<usize>>)
    ensures
        pool(a + b) =~= pool(a).add(pool(b)),
    decreases b.len(),
{
    if b.len() == 0 {
        assert(a + b =~= a);
    } else {
        assert((a + b).drop_last() =~= a + b.drop_last());
        lemma_pool_concat(a, b.drop_last());
    }
}

/// The endpoints of the parts from `i` on.
spec fn pool_from(parts: Seq<Vec<usize>>, i: int) -> Multiset<usize> {
    pool(lists(parts).subrange(i, parts.len() as int))
}

proof fn lemma_pool_from(parts: Seq<Vec<usize>>, i: int)
    requires
        0 <= i < parts.len(),
    ensures
        pool_from(parts, i) =~= pool_from(parts, i + 1).add(parts[i]@.to_multiset()),
{
    let all = lists(parts).subrange(i, parts.len() as int);
    let rest = lists(parts).subrange(i + 1, parts.len() as int);
    let one = seq![parts[i]@];
    assert(all =~= one + rest);
    lemma_pool_concat(one, rest);
    assert(one.drop_last() =~= Seq::<Seq<usize>>::empty());
    assert(pool(one) =~= parts[i]@.to_multiset()) by {
        assert(pool(one.drop_last()) =~= Multiset::empty());
    }
}

proof fn lemma_pool_from_same(a: Seq<Vec<usize>>, b: Seq<Vec<usize>>, i: int)
    requires
        a.len() == b.len(),
        0 <= i <= a.len(),
        forall|k: int| 0 <= k < i ==> #[trigger] b[k] == a[k],
        pool(lists(b)) == pool(lists(a)),
    ensures
        pool_from(b, i) =~= pool_from(a, i),
{
    let pa = lists(a).subrange(0, i);
    let pb = lists(b).subrange(0, i);
    assert(pa =~= pb);
    assert(lists(a) =~= pa + lists(a).subrange(i, a.len() as int));
    assert(lists(b) =~= pb + lists(b).subrange(i, b.len() as int));
    lemma_pool_concat(pa, lists(a).subrange(i, a.len() as int));
    lemma_pool_concat(pb, lists(b).subrange(i, b.len() as int));
    assert forall|v: usize| pool_from(b, i).count(v) == pool_from(a, i).count(v) by {
        assert(pool(lists(a)).count(v) == pool(pa).count(v) + pool_from(a, i).count(v));
        assert(pool(lists(b)).count(v) == pool(pb).count(v) + pool_from(b, i).count(v));
    }
}

/// The partitions of the results, the last one first, and the highest number
/// of stages; `None` if a result is missing.
fn take_all(results: Vec<Option<Partition>>) -> (r: Option<(Vec<Partition>, usize)>)
    requires
        results@.len() > 0,
    ensures
        r is None <==> exists|i: int| 0 <= i < results@.len() && (#[trigger] results@[i]) is None,
        r matches Some((ps, nstages)) ==> {
            &&& ps@.len() == results@.len()
            &&& forall|i: int|
                0 <= i < results@.len() ==> (#[trigger] results@[i]) == Some(ps@[results@.len() - 1 - i])
            &&& forall|k: int| 0 <= k < ps@.len() ==> (#[trigger] ps@[k]).stages@.len() <= nstages
            &&& exists|k: int| 0 <= k < ps@.len() && (#[trigger] ps@[k]).stages@.len() == nstages
        },
{
    let ghost all = results@;
    let mut left = results;
    let mut ps: Vec<Partition> = Vec::new();
    let mut nstages: usize = 0;
    while left.len() > 0
        invariant
            all == results@,
            all.len() > 0,
            left@.len() + ps@.len() == all.len(),
            left@ == all.take(left@.len() as int),
            forall|i: int|
                left@.len() <= i < all.len() ==> (#[trigger] all[i]) == Some(ps@[all.len() - 1 - i]),
            forall|k: int| 0 <= k < ps@.len() ==> (#[trigger] ps@[k]).stages@.len() <= nstages,
            ps@.len() == 0 ==> nstages == 0,
            ps@.len() > 0 ==> exists|k: int| 0 <= k < ps@.len() && (#[trigger] ps@[k]).stages@.len() == nstages,
        decreases left@.len(),
    {
        let ghost n = left@.len() as int;
        let ghost ps0 = ps@;
        let ghost nstages0 = nstages;
        assert(left@.last() == all[n - 1]);
        match left.pop() {
            None => {},
            Some(None) => {
                return None;
            },
            Some(Some(p)) => {
                if p.stages.len() > nstages {
                    nstages = p.stages.len();
                }
                ps.push(p);
                proof {
                    assert(left@ =~= all.take(n - 1));
                    assert forall|i: int| n - 1 <= i < all.len() implies (#[trigger] all[i]) == Some(
                        ps@[all.len() - 1 - i],
                    ) by {
                        if i >= n {
                            assert(all[i] == Some(ps0[all.len() - 1 - i]));
                        }
                    }
                    if nstages == nstages0 && ps0.len() > 0 {
                        let k = choose|k: int| 0 <= k < ps0.len() && (#[trigger] ps0[k]).stages@.len() == nstages0;
                        assert(ps@[k].stages@.len() == nstages);
                    } else {
                        assert(ps@[ps0.len() as int].stages@.len() == nstages);
                    }
                }
            },
        }
    }
    Some((ps, nstages))
}

/// Given an initial clustering solution of endpoints, generates and maps a
/// refined solution. It has no more partitions, as partitions are merged when
/// possible; a merger may need up to `max_stage_degrad` stages more than the
/// partition with the most stages before.
///
/// There is `None` if a part of the initial solution cannot be mapped.
#[verifier::rlimit(90)]
pub fn process_partitions(
    aig: &AIG,
    staged: &StagedAIG,
    parts: Vec<Vec<usize>>,
    max_stage_degrad: usize,
) -> (r: Option<Vec<Partition>>)
    requires
        schedulable(*aig),
        staged.wf(*aig),
        parts_ok(*staged, parts@),
        parts@.len() > 0,
    ensures
        r matches Some(ps) ==> process_ok(*aig, *staged, lists(parts@), max_stage_degrad, ps@),
        r is None ==> exists|i: int| 0 <= i < parts@.len() && builds(*aig, *staged, (#[trigger] parts@[i])@, None),
        (exists|i: int| 0 <= i < parts@.len() && over_budget(*aig, *staged, (#[trigger] parts@[i])@)) ==> r is None,
        (forall|i: int|
            0 <= i < parts@.len() ==> !over_budget(*aig, *staged, (#[trigger] parts@[i])@) && is_easy(
                *aig,
                *staged,
                parts@[i]@,
            )) ==> r is Some,
        r is Some && merges_freely(*aig, *staged, pool(lists(parts@))) && (max_stage_degrad >= 1 || exists|i: int|
            0 <= i < parts@.len() && partition_targets(*aig, *staged, (#[trigger] parts@[i])@).len() > 0)
                ==> r.unwrap()@
            .len() <= 1,
{
    let ghost parts0 = parts@;
    let n = parts.len();
    let cnt_nodes = cone_sizes(aig, staged, &parts);
    proof {
        assert forall|i: int| 0 <= i < parts@.len() implies are_groups(*staged, (#[trigger] parts@[i])@)
            && parts@[i]@.len() <= usize::MAX / 16 by {
            lemma_pool_one(lists(parts@), i);
        }
    }
    let results = map_parts(aig, staged, &parts);
    let ghost res = results@;
    let (mut queue, nstages) = match take_all(results) {
        None => {
            proof {
                let i = choose|i: int| 0 <= i < res.len() && (#[trigger] res[i]) is None;
                assert(mapped(*aig, *staged, parts0[i]@, res[i]));
                assert(builds(*aig, *staged, parts0[i]@, None));
            }
            return None;
        },
        Some(q) => q,
    };
    let ghost alone = Seq::new(n as nat, |i: int| res[i].unwrap());
    let ghost q0 = queue@;
    let ghost easy = merges_freely(*aig, *staged, pool(lists(parts0))) && nstages + max_stage_degrad >= 1;
    proof {
        assert forall|i: int| 0 <= i < n implies partition_ok(*aig, *staged, parts0[i]@, #[trigger] alone[i])
            && builds(*aig, *staged, parts0[i]@, Some(alone[i])) && !over_budget(*aig, *staged, parts0[i]@)
                && q0[n - 1 - i] == alone[i] by {
            assert(mapped(*aig, *staged, parts0[i]@, res[i]));
            assert(res[i] == Some(q0[n - 1 - i]));
        }
        assert forall|i: int| 0 <= i < parts0.len() implies !over_budget(*aig, *staged, (#[trigger] parts0[i])@) by {
            assert(partition_ok(*aig, *staged, parts0[i]@, alone[i]));
        }
    }
    proof {
        if exists|i: int| 0 <= i < parts0.len() && partition_targets(*aig, *staged, (#[trigger] parts0[i])@).len() > 0 {
            let i = choose|i: int|
                0 <= i < parts0.len() && partition_targets(*aig, *staged, (#[trigger] parts0[i])@).len() > 0;
            let t = partition_targets(*aig, *staged, parts0[i]@);
            assert(partition_ok(*aig, *staged, parts0[i]@, alone[i]));
            assert(t.contains(t[0]));
            assert(written_in(alone[i].stages@, t[0]));
            assert(q0[n - 1 - i].stages@.len() <= nstages);
        }
    }
    let eighth: usize = n / 8;
    let max_trials: usize = if eighth < 20 {
        20
    } else {
        eighth
    };
    let mut work = parts;
    let mut ps: Vec<Partition> = Vec::new();
    let mut i: usize = 0;
    let ghost orig = lists(parts0);
    let ghost limit = nstages + max_stage_degrad;
    let ghost mut groups: Seq<Seq<int>> = Seq::empty();
    proof {
        assert(orig.take(0) =~= Seq::<Seq<usize>>::empty());
        assert(groups_so_far(*aig, *staged, orig, limit, work@, 0, groups)) by {
            reveal(all_chosen);
            assert forall|x: int| 0 <= x < orig.len() && (#[trigger] orig[x]).len() > 0 implies in_groups(groups, x)
                || (x >= 0 && work@[x]@.len() > 0) by {}
        }
        assert(lists(work@).subrange(0, n as int) =~= lists(work@));
        assert(endpoint_lists(ps@) =~= Seq::<Seq<usize>>::empty());
        assert(pool(endpoint_lists(ps@)).add(pool_from(work@, 0)) =~= pool(lists(parts0)));
    }
    while i < n
        invariant
            schedulable(*aig),
            staged.wf(*aig),
            parts_ok(*staged, work@),
            n == work@.len(),
            n == parts0.len(),
            alone.len() == n,
            i <= n,
            queue@ == q0.take(n - i),
            q0.len() == n,
            forall|k: int|
                0 <= k < n ==> partition_ok(*aig, *staged, parts0[k]@, #[trigger] alone[k]) && builds(
                    *aig,
                    *staged,
                    parts0[k]@,
                    Some(alone[k]),
                ) && q0[n - 1 - k] == alone[k],
            orig == lists(parts0),
            limit == nstages + max_stage_degrad,
            max_trials == trial_limit(n as nat),
            groups.len() == ps@.len(),
            groups_so_far(*aig, *staged, orig, limit, work@, i as int, groups),
            forall|k: int|
                0 <= k < ps@.len() ==> (#[trigger] ps@[k]).endpoints@ == joined(orig, groups[k]) && builds(
                    *aig,
                    *staged,
                    ps@[k].endpoints@,
                    Some(ps@[k]),
                ),
            ps@.len() <= count_nonempty(orig.take(i as int)),
            forall|k: int| 0 <= k < q0.len() ==> (#[trigger] q0[k]).stages@.len() <= nstages,
            forall|k: int| i <= k < n ==> #[trigger] work@[k] == parts0[k] || work@[k]@.len() == 0,
            cnt_nodes@.len() == n,
            forall|k: int| 0 <= k < n ==> #[trigger] cnt_nodes@[k] == part_cone(*aig, *staged, parts0[k]@).len(),
            pool(endpoint_lists(ps@)).add(pool_from(work@, i as int)) == pool(lists(parts0)),
            ps@.len() <= i,
            easy == (merges_freely(*aig, *staged, pool(lists(parts0))) && nstages + max_stage_degrad >= 1),
            easy ==> ps@.len() <= 1,
            easy && ps@.len() == 1 ==> forall|k: int| i <= k < n ==> (#[trigger] work@[k])@.len() == 0,
            ps@.len() == 0 ==> forall|k: int| 0 <= k < n ==> #[trigger] work@[k] == parts0[k],
            sorted_by_stages(ps@),
            forall|k: int, l: int|
                0 <= k < l < ps@.len() && (#[trigger] ps@[k]).stages@.len() == (#[trigger] ps@[l]).stages@.len()
                    ==> groups[k][0] < groups[l][0],
            forall|k: int|
                0 <= k < ps@.len() ==> partition_ok(*aig, *staged, ps@[k].endpoints@, #[trigger] ps@[k])
                    && ps@[k].endpoints@.len() > 0 && within(ps@[k], nstages, max_stage_degrad),
        decreases n - i,
    {
        let ghost ps0 = ps@;
        let ghost parts1 = work@;
        assert(queue@.last() == q0[n - 1 - i]);
        let ghost groups0 = groups;
        proof {
            assert(orig.take(i + 1).drop_last() =~= orig.take(i as int));
            assert(orig.take(i + 1).last() == orig[i as int]);
            lemma_pool_from(parts1, i as int);
        }
        match queue.pop() {
            None => {},
            Some(first) => {
                proof {
                    assert(queue@ =~= q0.take(n - (i + 1)));
                    assert(alone[i as int] == first);
                    assert(partition_ok(*aig, *staged, parts0[i as int]@, alone[i as int]));
                    assert(q0[n - 1 - i].stages@.len() <= nstages);
                }
                if work[i].len() != 0 {
                    proof {
                        assert(work@[i as int] == parts0[i as int]);
                        if ps@.len() == 0 {
                            assert(lists(work@) =~= lists(parts0));
                        }
                        assert forall|j: int| i <= j < work@.len() && work@[j]@.len() > 0
                            implies #[trigger] cnt_nodes@[j]
                            == part_cone(*aig, *staged, work@[j]@).len() by {
                            assert(work@[j] == parts0[j]);
                        }
                    }
                    let (p, Ghost(members)) = grow_part(
                        aig,
                        staged,
                        &mut work,
                        i,
                        first,
                        &cnt_nodes,
                        max_trials,
                        nstages,
                        max_stage_degrad,
                        Ghost(orig),
                    );
                    let ghost the_p = p;
                    proof {
                        lemma_partition_endpoints(*aig, *staged, work@[i as int]@, p);
                        lemma_pool_from_same(parts1, work@, i as int);
                        lemma_pool_from(work@, i as int);
                        assert forall|k: int| i + 1 <= k < n implies #[trigger] work@[k] == parts0[k]
                            || work@[k]@.len() == 0 by {
                            assert(parts1[k] == parts0[k] || parts1[k]@.len() == 0);
                        }
                    }
                    insert_by_stages(&mut ps, p);
                    proof {
                        let at = choose|at: int|
                            0 <= at <= ps0.len() && ps@ == #[trigger] ps0.insert(at, the_p) && forall|k: int|
                                at <= k < ps0.len() ==> (#[trigger] ps0[k]).stages@.len() < the_p.stages@.len();
                        assert(endpoint_lists(ps@) =~= endpoint_lists(ps0).insert(at, the_p.endpoints@));
                        lemma_pool_insert(endpoint_lists(ps0), at, the_p.endpoints@);
                        lemma_group_added(
                            *aig,
                            *staged,
                            orig,
                            limit,
                            parts1,
                            work@,
                            i as int,
                            groups0,
                            members,
                            at,
                        );
                        groups = groups0.insert(at, members);
                        lemma_order_kept(ps0, groups0, ps@, groups, the_p, members, at);
                        assert forall|k: int| 0 <= k < ps@.len() implies (#[trigger] ps@[k]).endpoints@ == joined(
                            orig,
                            groups[k],
                        ) && builds(*aig, *staged, ps@[k].endpoints@, Some(ps@[k])) by {
                            if k < at {
                                assert(ps@[k] == ps0[k] && groups[k] == groups0[k]);
                            } else if k > at {
                                assert(ps@[k] == ps0[k - 1] && groups[k] == groups0[k - 1]);
                            }
                        }
                        assert forall|k: int| 0 <= k < ps@.len() implies partition_ok(
                            *aig,
                            *staged,
                            ps@[k].endpoints@,
                            #[trigger] ps@[k],
                        ) && ps@[k].endpoints@.len() > 0 && within(ps@[k], nstages, max_stage_degrad) by {
                            if k < at {
                                assert(ps@[k] == ps0[k]);
                            } else if k > at {
                                assert(ps@[k] == ps0[k - 1]);
                            }
                        }
                        assert(pool(endpoint_lists(ps@)).add(pool_from(work@, i + 1)) =~= pool(lists(parts0))) by {
                            assert forall|v: usize|
                                pool(endpoint_lists(ps@)).add(pool_from(work@, i + 1)).count(v) == pool(
                                    lists(parts0),
                                ).count(v) by {
                                assert(pool(endpoint_lists(ps0)).add(pool_from(parts1, i as int)).count(v) == pool(
                                    lists(parts0),
                                ).count(v));
                                assert(pool_from(work@, i as int).count(v) == pool_from(parts1, i as int).count(v));
                            }
                        }
                    }
                } else {
                    proof {
                        work@[i as int]@.to_multiset_ensures();
                        assert(work@[i as int]@ =~= Seq::<usize>::empty());
                        assert(work@[i as int]@.to_multiset() =~= Multiset::empty());
                        assert(pool_from(work@, i as int) =~= pool_from(work@, i + 1));
                        assert(groups_so_far(*aig, *staged, orig, limit, work@, i + 1, groups)) by {
                            assert forall|x: int|
                                0 <= x < orig.len() && (#[trigger] orig[x]).len() > 0 implies in_groups(groups, x) || (x
                                >= i + 1 && work@[x]@.len() > 0) by {
                                assert(in_groups(groups, x) || (x >= i && work@[x]@.len() > 0));
                            }
                        }
                    }
                }
            },
        }
        i += 1;
    }
    proof {
        assert(lists(work@).subrange(n as int, n as int) =~= Seq::<Seq<usize>>::empty());
        assert(pool(endpoint_lists(ps@)) =~= pool(lists(parts0))) by {
            assert(pool_from(work@, n as int) =~= Multiset::empty());
            assert(pool(endpoint_lists(ps@)).add(pool_from(work@, n as int)) =~= pool(endpoint_lists(ps@)));
        }
        let q = choose|k: int| 0 <= k < q0.len() && (#[trigger] q0[k]).stages@.len() == nstages;
        let top = n - 1 - q;
        assert(q0[n - 1 - top] == alone[top]);
        assert forall|i: int| 0 <= i < alone.len() implies (#[trigger] alone[i]).stages@.len() <= nstages by {
            assert(q0[n - 1 - i].stages@.len() <= nstages);
        }
        lemma_most_stages(alone, nstages as nat, top);
        assert(orig.take(n as int) =~= orig);
        assert forall|k: int| 0 <= k < ps@.len() implies (#[trigger] ps@[k]).stages@.len() <= most_stages(alone)
            + max_stage_degrad by {
            assert(within(ps@[k], nstages, max_stage_degrad));
        }
        assert(grouped(orig, groups)) by {
            assert forall|x: int| 0 <= x < orig.len() && (#[trigger] orig[x]).len() > 0 implies in_groups(
                groups,
                x,
            ) by {}
        }
        assert(process_with(*aig, *staged, lists(parts0), max_stage_degrad, alone, groups, ps@));
    }
    Some(ps)
}

/// A partition that begins with a later part comes behind others with as many
/// stages.
proof fn lemma_order_kept(
    a: Seq<Partition>,
    g: Seq<Seq<int>>,
    b: Seq<Partition>,
    h: Seq<Seq<int>>,
    p: Partition,
    members: Seq<int>,
    at: int,
)
    requires
        a.len() == g.len(),
        0 <= at <= a.len(),
        b == a.insert(at, p),
        h == g.insert(at, members),
        forall|k: int| at <= k < a.len() ==> (#[trigger] a[k]).stages@.len() < p.stages@.len(),
        forall|k: int| 0 <= k < g.len() ==> (#[trigger] g[k])[0] < members[0],
        forall|k: int, l: int|
            0 <= k < l < a.len() && (#[trigger] a[k]).stages@.len() == (#[trigger] a[l]).stages@.len() ==> g[k][0]
                < g[l][0],
    ensures
        forall|k: int, l: int|
            0 <= k < l < b.len() && (#[trigger] b[k]).stages@.len() == (#[trigger] b[l]).stages@.len() ==> h[k][0]
                < h[l][0],
{
    assert forall|k: int, l: int|
        0 <= k < l < b.len() && (#[trigger] b[k]).stages@.len() == (#[trigger] b[l]).stages@.len() implies h[k][0]
        < h[l][0] by {
        let x = if k < at {
            k
        } else {
            k - 1
        };
        let y = if l < at {
            l
        } else {
            l - 1
        };
        if k != at && l != at {
            assert(b[k] == a[x] && b[l] == a[y] && h[k] == g[x] && h[l] == g[y]);
        } else if l == at {
            assert(h[k] == g[x]);
        } else {
            assert(b[l] == a[y]);
        }
    }
}

/// A partition holds the endpoints that it is for.
proof fn lemma_partition_endpoints(aig: AIG, staged: StagedAIG, endpoints: Seq<usize>, p: Partition)
    requires
        partition_ok(aig, staged, endpoints, p),
    ensures
        p.endpoints@ == endpoints,
{
}

} // verus!
