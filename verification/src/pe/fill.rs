//! Filling the rows of the hierarchy behind the first row of gates.

use super::cone::{is_leaf, Cone};
use super::grid::{
    below, cell, counted, fed, is_slot, lemma_below_feeds, lemma_below_split, lemma_counted, lemma_row_count,
    lemma_row_update, row_count, rows_count, lemma_rows_same, same_elsewhere, settled_below, shaped, vacant,
    vacant_below, width, lemma_settled_vacant, holds,
};
use super::levels::{
    asks_for, compute_lvl1_necessary_nodes, compute_reverse_level, is_necessary, is_operand, lemma_necessary,
    passes_on, wanted, wishes,
};
use super::place::{feet, ok_below, place_bit, purge_bit, slot_ok, span};
use crate::aig::{lemma_distinct_len, DriverType, AIG};
use crate::collections::{map_get, map_keys, map_len, map_view, set_items, set_len};
use indexmap::{IndexMap, IndexSet};
use vstd::prelude::*;

verus! {

/// Is the hierarchy right, and does no vacant slot up to row `level` have a
/// feeding slot that is not?
pub open spec fn grid_ok(
    aig: AIG,
    done: Set<usize>,
    cone: Cone,
    hier: Seq<Vec<usize>>,
    count: Map<usize, usize>,
    level: int,
) -> bool {
    &&& shaped(hier)
    &&& counted(hier, count)
    &&& forall|h: int, j: int| #[trigger] is_slot(h, j) ==> slot_ok(aig, done, cone, hier, h, j)
    &&& forall|h: int, j: int|
        1 <= h <= level && #[trigger] is_slot(h, j) && vacant(hier, h, j) ==> vacant(hier, h - 1, j) && vacant(
            hier,
            h - 1,
            j + width(h),
        )
}

/// Is there nothing in the first row of gates below vacant slots of the next row?
#[verifier::opaque]
pub open spec fn is_rooted(hier: Seq<Vec<usize>>) -> bool {
    forall|j: int| #[trigger]
        is_slot(2, j) && vacant(hier, 2, j) ==> vacant(hier, 1, j) && vacant(hier, 1, j + width(2))
}

/// There is nothing below vacant slots of settled rows.
proof fn lemma_rooted(
    aig: AIG,
    done: Set<usize>,
    cone: Cone,
    hier: Seq<Vec<usize>>,
    count: Map<usize, usize>,
    level: int,
)
    requires
        grid_ok(aig, done, cone, hier, count, level),
        level >= 2,
    ensures
        is_rooted(hier),
{
    reveal(is_rooted);
}

/// A vacant slot of a settled row has nothing below it.
pub(crate) proof fn lemma_free_slot(
    aig: AIG,
    done: Set<usize>,
    cone: Cone,
    hier: Seq<Vec<usize>>,
    count: Map<usize, usize>,
    level: int,
    top: int,
    i: int,
)
    requires
        grid_ok(aig, done, cone, hier, count, level),
        is_slot(top, i),
        top <= level,
        vacant(hier, top, i),
    ensures
        vacant_below(hier, top, i),
{
    assert(settled_below(hier, top, i)) by {
        assert forall|h: int, j: int|
            1 <= h && is_slot(h, j) && #[trigger] below(top, i, h, j) && vacant(hier, h, j) implies vacant(
            hier,
            h - 1,
            j,
        ) && vacant(hier, h - 1, j + width(h)) by {
            assert(is_slot(h, j));
        }
    }
    lemma_settled_vacant(hier, top, i);
}

/// Placing into a vacant slot of the highest settled row leaves the hierarchy
/// right, and changes one slot of that row.
pub(crate) proof fn lemma_grid_placed(
    aig: AIG,
    done: Set<usize>,
    cone: Cone,
    h0: Seq<Vec<usize>>,
    c0: Map<usize, usize>,
    h1: Seq<Vec<usize>>,
    c1: Map<usize, usize>,
    top: int,
    i: int,
    nd: usize,
)
    requires
        aig.drivers_wf(),
        cone.graded(aig, done),
        grid_ok(aig, done, cone, h0, c0, top),
        1 <= top,
        is_slot(top, i),
        vacant(h0, top, i),
        shaped(h1),
        counted(h1, c1),
        same_elsewhere(h0, h1, top, i),
        ok_below(aig, done, cone, h1, top, i),
        settled_below(h1, top, i),
        cell(h1, top, i) == nd,
        cone.has(nd),
    ensures
        grid_ok(aig, done, cone, h1, c1, top),
        h1[top]@ == h0[top]@.update(i, nd),
        forall|h: int, j: int| #[trigger] is_slot(h, j) && !vacant(h0, h, j) ==> cell(h1, h, j) == cell(h0, h, j),
        holds(h1, nd),
{
    lemma_below_split(top, i, top, i);
    assert forall|h: int, j: int| #[trigger] is_slot(h, j) implies slot_ok(aig, done, cone, h1, h, j) by {
        if below(top, i, h, j) {
        } else {
            assert(slot_ok(aig, done, cone, h0, h, j));
            assert(cell(h1, h, j) == cell(h0, h, j));
            if h >= 1 && !vacant(h0, h, j) {
                let v = cell(h0, h, j);
                assert(fed(aig, h0, h, j));
                cone.lemma_leveled(aig, done, v);
                if h <= top {
                    lemma_below_feeds(top, i, h, j);
                    assert(cell(h1, h - 1, j) == cell(h0, h - 1, j));
                    assert(cell(h1, h - 1, j + width(h)) == cell(h0, h - 1, j + width(h)));
                } else {
                    assert(is_slot(h - 1, j) && is_slot(h - 1, j + width(h)));
                    if h - 1 == top {
                        lemma_below_split(top, i, h - 1, j);
                        lemma_below_split(top, i, h - 1, j + width(h));
                    }
                    if cell(h0, h - 1, j) == v {
                        assert(!vacant(h0, h - 1, j));
                        assert(!below(top, i, h - 1, j));
                        assert(cell(h1, h - 1, j) == v);
                    } else {
                        if let DriverType::AndGate(a, b) = aig.drivers@[v as int] {
                            assert(v <= aig.num_aigpins);
                            assert(!vacant(h0, h - 1, j));
                            assert(!vacant(h0, h - 1, j + width(h)));
                            assert(!below(top, i, h - 1, j));
                            assert(!below(top, i, h - 1, j + width(h)));
                            assert(cell(h1, h - 1, j) == cell(h0, h - 1, j));
                            assert(cell(h1, h - 1, j + width(h)) == cell(h0, h - 1, j + width(h)));
                        }
                    }
                }
            }
        }
    }
    assert forall|h: int, j: int| 1 <= h <= top && #[trigger] is_slot(h, j) && vacant(h1, h, j) implies vacant(
        h1,
        h - 1,
        j,
    ) && vacant(h1, h - 1, j + width(h)) by {
        if !below(top, i, h, j) {
            lemma_below_feeds(top, i, h, j);
            assert(cell(h1, h, j) == cell(h0, h, j));
            assert(cell(h1, h - 1, j) == cell(h0, h - 1, j));
            assert(cell(h1, h - 1, j + width(h)) == cell(h0, h - 1, j + width(h)));
            assert(vacant(h0, h, j));
        }
    }
    assert forall|j: int| 0 <= j < width(top) implies h1[top]@[j] == h0[top]@.update(i, nd)[j] by {
        lemma_below_split(top, i, top, j);
        if j != i {
            assert(cell(h1, top, j) == cell(h0, top, j));
        }
    }
    assert(h1[top]@ =~= h0[top]@.update(i, nd));
    assert forall|h: int, j: int| #[trigger] is_slot(h, j) && !vacant(h0, h, j) implies cell(h1, h, j) == cell(
        h0,
        h,
        j,
    ) by {
        if below(top, i, h, j) {
            lemma_free_slot(aig, done, cone, h0, c0, top, top, i);
            assert(vacant(h0, h, j));
        }
    }
    assert(is_slot(top, i) && cell(h1, top, i) == nd);
}

/// Two hierarchies with the same contents have the same counts.
pub(crate) proof fn lemma_same_grid(
    h0: Seq<Vec<usize>>,
    c0: Map<usize, usize>,
    h1: Seq<Vec<usize>>,
    c1: Map<usize, usize>,
)
    requires
        shaped(h0),
        shaped(h1),
        counted(h0, c0),
        counted(h1, c1),
        forall|h: int, j: int| #[trigger] is_slot(h, j) ==> cell(h1, h, j) == cell(h0, h, j),
    ensures
        forall|h: int| 0 <= h <= 13 ==> (#[trigger] h1[h])@ == h0[h]@,
        c0 == c1,
{
    assert forall|h: int| 0 <= h <= 13 implies (#[trigger] h1[h])@ == h0[h]@ by {
        assert forall|j: int| 0 <= j < width(h) implies h1[h]@[j] == h0[h]@[j] by {
            assert(is_slot(h, j));
            assert(cell(h1, h, j) == cell(h0, h, j));
        }
        assert(h1[h]@ =~= h0[h]@);
    }
    assert forall|v: usize| c0.contains_key(v) == c1.contains_key(v) by {
        lemma_rows_same(h0, h1, 13, v);
        if v != usize::MAX {
            assert(c0.contains_key(v) <==> rows_count(h0, 13, v) > 0);
            assert(c1.contains_key(v) <==> rows_count(h1, 13, v) > 0);
        }
    }
    assert forall|v: usize| c0.contains_key(v) implies c0[v] == c1[v] by {
        lemma_rows_same(h0, h1, 13, v);
        assert(c1.contains_key(v));
    }
    assert(c0 =~= c1);
}

/// The number of slots of a row that are taken.
pub(crate) fn count_taken(row: &Vec<usize>) -> (n: usize)
    ensures
        n == row@.len() - row_count(row@, usize::MAX),
{
    let mut n: usize = 0;
    let mut i: usize = 0;
    while i < row.len()
        invariant
            i <= row.len(),
            n <= i,
            n == i - row_count(row@.take(i as int), usize::MAX),
        decreases row.len() - i,
    {
        assert(row@.take(i + 1).drop_last() =~= row@.take(i as int));
        if row[i] != usize::MAX {
            n += 1;
        }
        i += 1;
    }
    assert(row@.take(row@.len() as int) =~= row@);
    n
}

/// The first vacant slot of a row.
pub(crate) fn find_vacant(row: &Vec<usize>) -> (r: Option<usize>)
    ensures
        match r {
            Some(i) => i < row@.len() && row@[i as int] == usize::MAX && forall|k: int|
                0 <= k < i ==> row@[k] != usize::MAX,
            None => forall|k: int| 0 <= k < row@.len() ==> row@[k] != usize::MAX,
        },
{
    let mut i: usize = 0;
    while i < row.len()
        invariant
            i <= row.len(),
            forall|k: int| 0 <= k < i ==> row@[k] != usize::MAX,
        decreases row.len() - i,
    {
        if row[i] == usize::MAX {
            return Some(i);
        }
        i += 1;
    }
    None
}

/// Is the pin at position `p` a gate of the given level that is wanted and not
/// placed yet?
pub open spec fn is_candidate(cone: Cone, rl: Seq<usize>, placed: Map<usize, usize>, level: usize, p: int) -> bool {
    &&& 0 <= p < cone.order@.len()
    &&& cone.level@[p] == level
    &&& !placed.contains_key(cone.order@[p])
    &&& rl[p] != usize::MAX
}

/// The first of the candidates that are farthest from a target.
pub(crate) fn pick_node(cone: &Cone, rl: &Vec<usize>, count: &IndexMap<usize, usize>, level: usize) -> (r: Option<
    usize,
>)
    requires
        cone.level@.len() == cone.order@.len(),
        rl@.len() == cone.order@.len(),
    ensures
        match r {
            Some(p) => is_candidate(*cone, rl@, map_view(*count), level, p as int) && forall|q: int| #[trigger]
                is_candidate(*cone, rl@, map_view(*count), level, q) ==> rl@[q] < rl@[p as int] || (rl@[q]
                    == rl@[p as int] && p <= q),
            None => forall|q: int| !#[trigger] is_candidate(*cone, rl@, map_view(*count), level, q),
        },
{
    let mut r: Option<usize> = None;
    let n = cone.order.len();
    let mut i: usize = 0;
    while i < n
        invariant
            n == cone.order@.len(),
            cone.level@.len() == n,
            rl@.len() == n,
            i <= n,
            match r {
                Some(p) => p < i && is_candidate(*cone, rl@, map_view(*count), level, p as int) && forall|q: int|
                    #[trigger] is_candidate(*cone, rl@, map_view(*count), level, q) && q < i
                        ==> rl@[q] < rl@[p as int] || (
                    rl@[q] == rl@[p as int] && p <= q),
                None => forall|q: int| #[trigger] is_candidate(*cone, rl@, map_view(*count), level, q) ==> q >= i,
            },
        decreases n - i,
    {
        if cone.level[i] == level && map_get(count, cone.order[i]).is_none() && rl[i] != usize::MAX {
            assert(is_candidate(*cone, rl@, map_view(*count), level, i as int));
            match r {
                None => {
                    r = Some(i);
                },
                Some(p) => {
                    if rl[p] < rl[i] {
                        r = Some(i);
                    }
                },
            }
        }
        i += 1;
    }
    r
}

/// An empty hierarchy.
pub(crate) fn empty_hierarchy() -> (hier: Vec<Vec<usize>>)
    ensures
        shaped(hier@),
        forall|h: int, j: int| #[trigger] is_slot(h, j) ==> vacant(hier@, h, j),
{
    let mut hier: Vec<Vec<usize>> = Vec::new();
    let mut len: usize = 8192;
    let mut i: usize = 0;
    while i <= 13
        invariant
            i <= 14,
            hier@.len() == i,
            i <= 13 ==> len == width(i as int),
            forall|h: int| 0 <= h < i ==> (#[trigger] hier@[h])@.len() == width(h),
            forall|h: int, j: int| #[trigger] is_slot(h, j) && h < i ==> cell(hier@, h, j) == usize::MAX,
        decreases 14 - i,
    {
        hier.push(vec![usize::MAX; len]);
        len = len / 2;
        i += 1;
    }
    hier
}

proof fn lemma_empty_counted(hier: Seq<Vec<usize>>, n: nat, v: usize)
    requires
        shaped(hier),
        n <= 13,
        v != usize::MAX,
        forall|h: int, j: int| #[trigger] is_slot(h, j) ==> vacant(hier, h, j),
    ensures
        rows_count(hier, n, v) == 0,
    decreases n,
{
    if n > 0 {
        lemma_empty_counted(hier, (n - 1) as nat, v);
        lemma_row_count(hier[n as int]@, v);
        if hier[n as int]@.contains(v) {
            let j = hier[n as int]@.index_of(v);
            assert(is_slot(n as int, j));
            assert(vacant(hier, n as int, j));
        }
    }
}

/// What the rows behind the first row of gates leave to be done.
pub struct Plan {
    /// The steps to a target, by position in the cone.
    pub reverse_level: Vec<usize>,
    /// The pins that the first row of gates has yet to provide.
    pub necessary: IndexSet<usize>,
}

impl Plan {
    /// The plan tells what targets still want.
    pub open spec fn ok(
        self,
        aig: AIG,
        done: Set<usize>,
        cone: Cone,
        targets: Seq<usize>,
        placed: Map<usize, usize>,
    ) -> bool {
        &&& self.reverse_level@.len() == cone.order@.len()
        &&& set_items(self.necessary).no_duplicates()
        &&& forall|i: int|
            0 <= i < targets.len() ==> self.reverse_level@[cone.pos(#[trigger] targets[i])] != usize::MAX
        &&& forall|v: usize| #[trigger]
            cone.has(v) ==> passes_on(aig, done, cone, placed, self.reverse_level@, v)
        &&& forall|v: usize| #[trigger]
            cone.has(v) ==> (self.reverse_level@[cone.pos(v)] != usize::MAX <==> wanted(
                aig,
                done,
                cone,
                targets,
                placed,
                v,
            ))
        &&& forall|nd: usize| #[trigger]
            set_items(self.necessary).contains(nd) <==> is_necessary(
                aig,
                cone,
                targets,
                placed,
                self.reverse_level@,
                nd,
            )
    }
}

/// Computes what the targets still want.
fn make_plan(
    aig: &AIG,
    cone: &Cone,
    targets: &IndexSet<usize>,
    realized: &IndexSet<usize>,
    count: &IndexMap<usize, usize>,
) -> (plan: Plan)
    requires
        aig.drivers_wf(),
        cone.graded(*aig, set_items(*realized).to_set()),
        forall|i: int| 0 <= i < set_items(*targets).len() ==> cone.has(#[trigger] set_items(*targets)[i]),
    ensures
        plan.ok(*aig, set_items(*realized).to_set(), *cone, set_items(*targets), map_view(*count)),
{
    let reverse_level = compute_reverse_level(cone, targets, realized, count, aig);
    let necessary = compute_lvl1_necessary_nodes(
        cone,
        &reverse_level,
        aig,
        targets,
        count,
        Ghost(set_items(*realized).to_set()),
    );
    Plan { reverse_level, necessary }
}

/// The number of slots of the first row of gates that are taken.
pub open spec fn taken(hier: Seq<Vec<usize>>) -> int {
    width(1) - row_count(hier[1]@, usize::MAX)
}

/// Is row `l` full, or are all wanted gates of level `l` placed, or is there no
/// room in the first row of gates for another one, given that `need` pins may
/// have to go there?
#[verifier::opaque]
pub open spec fn level_filled(
    aig: AIG,
    done: Set<usize>,
    cone: Cone,
    targets: Seq<usize>,
    need: int,
    hier: Seq<Vec<usize>>,
    placed: Map<usize, usize>,
    l: int,
) -> bool {
    ||| forall|j: int| 0 <= j < width(l) ==> !#[trigger] vacant(hier, l, j)
    ||| forall|v: usize| #[trigger]
        cone.has(v) && cone.lvl(v) == l && wanted(aig, done, cone, targets, placed, v) ==> placed.contains_key(v)
    ||| need + taken(hier) + feet(l) >= 4096
    ||| need + placed.dom().len() + span(l) >= 4096 && need + cone.order@.len() >= 4096
}

/// Are all rows behind row `from` filled?
#[verifier::opaque]
pub open spec fn all_filled(
    aig: AIG,
    done: Set<usize>,
    cone: Cone,
    targets: Seq<usize>,
    need: int,
    hier: Seq<Vec<usize>>,
    placed: Map<usize, usize>,
    from: int,
) -> bool {
    forall|l: int| from < l <= 13 ==> #[trigger] level_filled(aig, done, cone, targets, need, hier, placed, l)
}

/// Is there a wanted gate of level `l` or more, and certainly room for one of
/// level `l`?
#[verifier::opaque]
pub open spec fn goes_deep(
    aig: AIG,
    done: Set<usize>,
    cone: Cone,
    targets: Seq<usize>,
    need: int,
    l: int,
) -> bool {
    &&& exists|v: usize| #[trigger]
        cone.has(v) && cone.lvl(v) >= l && wanted(aig, done, cone, targets, Map::empty(), v)
    &&& need + feet(l) < 4096
    &&& need + span(l) < 4096 || need + cone.order@.len() < 4096
}

/// Is a gate of level `l` or more placed?
pub open spec fn reached(cone: Cone, placed: Map<usize, usize>, l: int) -> bool {
    exists|v: usize| #[trigger] placed.contains_key(v) && cone.has(v) && cone.lvl(v) >= l
}

/// As long as nothing is placed, no level at which a gate can be placed for
/// certain has been passed.
#[verifier::opaque]
spec fn on_the_way(
    aig: AIG,
    done: Set<usize>,
    cone: Cone,
    targets: Seq<usize>,
    need: int,
    placed: Map<usize, usize>,
    accepted: bool,
    level: int,
) -> bool {
    forall|l: int|
        2 <= l <= 12 && #[trigger] goes_deep(aig, done, cone, targets, need, l) ==> reached(cone, placed, l) || (
        !accepted && level >= l)
}

/// Is there one target, of level 2 to 12, and is every gate of the cone made for
/// it?
#[verifier::opaque]
pub open spec fn is_lone(aig: AIG, done: Set<usize>, cone: Cone, targets: Seq<usize>) -> bool {
    &&& targets.len() == 1
    &&& 2 <= cone.lvl(targets[0]) <= 12
    &&& cone.order@.len() < 4096
    &&& forall|v: usize| #[trigger]
        cone.has(v) && !is_leaf(aig, done, v) && v != targets[0] ==> exists|u: usize| #[trigger]
            wishes(aig, done, cone, Map::empty(), u, v)
}

/// Does the pin stand in one slot behind the first row, and is there nothing
/// left to be placed?
#[verifier::opaque]
pub open spec fn stands_alone(
    aig: AIG,
    done: Set<usize>,
    cone: Cone,
    hier: Seq<Vec<usize>>,
    placed: Map<usize, usize>,
    t: usize,
) -> bool {
    &&& taken(hier) < 4096
    &&& placed.contains_key(t)
    &&& forall|v: usize| #[trigger] cone.has(v) && !is_leaf(aig, done, v) ==> placed.contains_key(v)
    &&& exists|s: int|
        #![trigger is_slot(cone.lvl(t), s)]
        is_slot(cone.lvl(t), s) && forall|h: int, j: int|
            1 <= h && #[trigger] is_slot(h, j) && cell(hier, h, j) == t ==> h == cone.lvl(t) && j == s
}

/// A row in which pins stay where they are has no more vacant slots.
pub(crate) proof fn lemma_row_fewer(a: Seq<usize>, b: Seq<usize>)
    requires
        a.len() == b.len(),
        forall|j: int| 0 <= j < a.len() && a[j] != usize::MAX ==> b[j] == a[j],
    ensures
        row_count(b, usize::MAX) <= row_count(a, usize::MAX),
    decreases a.len(),
{
    if a.len() > 0 {
        lemma_row_fewer(a.drop_last(), b.drop_last());
    }
}

/// What is wanted with more pins placed was wanted before.
proof fn lemma_wanted_less(
    aig: AIG,
    done: Set<usize>,
    cone: Cone,
    targets: Seq<usize>,
    c0: Map<usize, usize>,
    c1: Map<usize, usize>,
    v: usize,
)
    requires
        forall|x: usize| #[trigger] c0.contains_key(x) ==> c1.contains_key(x),
        wanted(aig, done, cone, targets, c1, v),
    ensures
        wanted(aig, done, cone, targets, c0, v),
{
    if !targets.contains(v) {
        let u = choose|u: usize| #[trigger] wishes(aig, done, cone, c1, u, v);
        assert(wishes(aig, done, cone, c0, u, v));
    }
}

/// What pins that stay where they are keep.
proof fn lemma_kept_pins(
    aig: AIG,
    done: Set<usize>,
    cone: Cone,
    h0: Seq<Vec<usize>>,
    c0: Map<usize, usize>,
    h1: Seq<Vec<usize>>,
    c1: Map<usize, usize>,
)
    requires
        shaped(h0),
        shaped(h1),
        counted(h0, c0),
        counted(h1, c1),
        forall|h: int, j: int| #[trigger] is_slot(h, j) && !vacant(h0, h, j) ==> cell(h1, h, j) == cell(h0, h, j),
    ensures
        forall|x: usize| #[trigger] c0.contains_key(x) ==> c1.contains_key(x),
        taken(h0) <= taken(h1),
{
    lemma_counted(h0, c0);
    lemma_counted(h1, c1);
    assert forall|x: usize| #[trigger] c0.contains_key(x) implies c1.contains_key(x) by {
        let (h, j) = choose|h: int, j: int| 1 <= h && is_slot(h, j) && #[trigger] cell(h0, h, j) == x;
        assert(is_slot(h, j) && !vacant(h0, h, j));
        assert(cell(h1, h, j) == x);
    }
    assert(h0[1]@.len() == width(1) && h1[1]@.len() == width(1));
    assert forall|j: int| 0 <= j < h0[1]@.len() && h0[1]@[j] != usize::MAX implies h1[1]@[j] == h0[1]@[j] by {
        assert(is_slot(1, j));
        assert(!vacant(h0, 1, j));
        assert(cell(h1, 1, j) == cell(h0, 1, j));
    }
    lemma_row_fewer(h0[1]@, h1[1]@);
}

/// Filled rows stay filled when more is placed in rows before them.
pub(crate) proof fn lemma_filled_grows(
    aig: AIG,
    done: Set<usize>,
    cone: Cone,
    targets: Seq<usize>,
    need: int,
    h0: Seq<Vec<usize>>,
    c0: Map<usize, usize>,
    h1: Seq<Vec<usize>>,
    c1: Map<usize, usize>,
    from: int,
)
    requires
        all_filled(aig, done, cone, targets, need, h0, c0, from),
        0 <= from,
        shaped(h0),
        shaped(h1),
        counted(h0, c0),
        counted(h1, c1),
        c1.dom().finite(),
        forall|h: int, j: int| #[trigger] is_slot(h, j) && !vacant(h0, h, j) ==> cell(h1, h, j) == cell(h0, h, j),
        forall|h: int, j: int| h > from && #[trigger] is_slot(h, j) ==> cell(h1, h, j) == cell(h0, h, j),
    ensures
        all_filled(aig, done, cone, targets, need, h1, c1, from),
        c0.dom().finite(),
        c0.dom().len() <= c1.dom().len(),
{
    reveal(all_filled);
    lemma_kept_pins(aig, done, cone, h0, c0, h1, c1);
    assert(c0.dom().subset_of(c1.dom()));
    vstd::set_lib::lemma_set_subset_finite(c1.dom(), c0.dom());
    vstd::set_lib::lemma_len_subset(c0.dom(), c1.dom());
    assert forall|l: int| from < l <= 13 implies #[trigger] level_filled(
        aig,
        done,
        cone,
        targets,
        need,
        h1,
        c1,
        l,
    ) by {
        reveal(level_filled);
        assert(level_filled(aig, done, cone, targets, need, h0, c0, l));
        if forall|j: int| 0 <= j < width(l) ==> !#[trigger] vacant(h0, l, j) {
            assert forall|j: int| 0 <= j < width(l) implies !#[trigger] vacant(h1, l, j) by {
                assert(is_slot(l, j));
                assert(!vacant(h0, l, j));
            }
        } else if forall|v: usize| #[trigger]
            cone.has(v) && cone.lvl(v) == l && wanted(aig, done, cone, targets, c0, v) ==> c0.contains_key(v) {
            assert forall|v: usize| #[trigger]
                cone.has(v) && cone.lvl(v) == l && wanted(aig, done, cone, targets, c1, v) implies c1.contains_key(
                v,
            ) by {
                lemma_wanted_less(aig, done, cone, targets, c0, c1, v);
                assert(c0.contains_key(v));
            }
        }
    }
}

/// With more pins placed, no more are necessary.
proof fn lemma_necessary_less(
    aig: AIG,
    done: Set<usize>,
    cone: Cone,
    targets: Seq<usize>,
    c0: Map<usize, usize>,
    p0: Plan,
    c1: Map<usize, usize>,
    p1: Plan,
)
    requires
        aig.drivers_wf(),
        cone.graded(aig, done),
        p0.ok(aig, done, cone, targets, c0),
        p1.ok(aig, done, cone, targets, c1),
        forall|x: usize| #[trigger] c0.contains_key(x) ==> c1.contains_key(x),
    ensures
        set_items(p1.necessary).len() <= set_items(p0.necessary).len(),
{
    assert forall|nd: usize| #[trigger] set_items(p1.necessary).contains(nd) implies set_items(
        p0.necessary,
    ).contains(nd) by {
        let u = choose|u: usize| #[trigger] asks_for(aig, cone, targets, c1, p1.reverse_level@, u, nd);
        lemma_wanted_less(aig, done, cone, targets, c0, c1, u);
        assert(asks_for(aig, cone, targets, c0, p0.reverse_level@, u, nd));
    }
    super::stage::lemma_sub_len(set_items(p1.necessary), set_items(p0.necessary));
}

/// No more pins are placed than there are in the cone.
proof fn lemma_placed_len(
    aig: AIG,
    done: Set<usize>,
    cone: Cone,
    hier: Seq<Vec<usize>>,
    count: Map<usize, usize>,
    keys: Seq<usize>,
)
    requires
        cone.graded(aig, done),
        grid_ok(aig, done, cone, hier, count, 1),
        keys.no_duplicates(),
        keys.to_set() == count.dom(),
    ensures
        keys.len() <= cone.order@.len(),
{
    lemma_counted(hier, count);
    assert forall|x: usize| #[trigger] keys.contains(x) implies cone.order@.contains(x) by {
        assert(keys.to_set().contains(x));
        assert(count.contains_key(x));
        let (h, j) = choose|h: int, j: int| 1 <= h && is_slot(h, j) && #[trigger] cell(hier, h, j) == x;
        assert(is_slot(h, j));
        assert(slot_ok(aig, done, cone, hier, h, j));
        assert(cone.order@[cone.pos(x)] == x);
    }
    super::stage::lemma_sub_len(keys, cone.order@);
}

/// Below a wanted gate there are wanted gates of all lower levels.
proof fn lemma_wanted_level(aig: AIG, done: Set<usize>, cone: Cone, targets: Seq<usize>, v: usize, l: int) -> (w: usize)
    requires
        aig.drivers_wf(),
        cone.graded(aig, done),
        cone.has(v),
        1 <= l <= cone.lvl(v),
        wanted(aig, done, cone, targets, Map::empty(), v),
    ensures
        cone.has(w),
        cone.lvl(w) == l,
        wanted(aig, done, cone, targets, Map::empty(), w),
    decreases cone.lvl(v),
{
    cone.lemma_leveled(aig, done, v);
    if cone.lvl(v) == l {
        v
    } else {
        let x = match aig.drivers@[v as int] {
            DriverType::AndGate(a, b) => if cone.lvl((a / 2) as usize) < cone.lvl((b / 2) as usize) {
                (b / 2) as usize
            } else {
                (a / 2) as usize
            },
            _ => 0,
        };
        assert(wishes(aig, done, cone, Map::empty(), v, x));
        lemma_wanted_level(aig, done, cone, targets, x, l)
    }
}

/// What a placed gate conjoins is placed, but for leaves.
proof fn lemma_placed_operand(
    aig: AIG,
    done: Set<usize>,
    cone: Cone,
    hier: Seq<Vec<usize>>,
    count: Map<usize, usize>,
    h: int,
    j: int,
    x: usize,
)
    requires
        aig.drivers_wf(),
        cone.graded(aig, done),
        grid_ok(aig, done, cone, hier, count, 1),
        1 <= h,
        is_slot(h, j),
        !vacant(hier, h, j),
        !is_leaf(aig, done, cell(hier, h, j)),
        is_operand(aig, cell(hier, h, j), x),
        !is_leaf(aig, done, x),
    ensures
        count.contains_key(x),
    decreases h,
{
    let v = cell(hier, h, j);
    assert(slot_ok(aig, done, cone, hier, h, j));
    cone.lemma_leveled(aig, done, v);
    cone.lemma_leveled(aig, done, x);
    lemma_counted(hier, count);
    assert(is_slot(h - 1, j) && is_slot(h - 1, j + width(h)));
    if cell(hier, h - 1, j) == v {
        assert(slot_ok(aig, done, cone, hier, h - 1, j));
        lemma_placed_operand(aig, done, cone, hier, count, h - 1, j, x);
    } else {
        assert(fed(aig, hier, h, j));
        assert(h >= 2);
        if cell(hier, h - 1, j) == x {
            assert(holds(hier, x));
        } else {
            assert(cell(hier, h - 1, j + width(h)) == x);
            assert(holds(hier, x));
        }
        assert(x <= aig.num_aigpins);
    }
}

/// If the one target is placed, so are all gates.
proof fn lemma_lone_placed(
    aig: AIG,
    done: Set<usize>,
    cone: Cone,
    targets: Seq<usize>,
    hier: Seq<Vec<usize>>,
    count: Map<usize, usize>,
    v: usize,
)
    requires
        aig.drivers_wf(),
        cone.graded(aig, done),
        grid_ok(aig, done, cone, hier, count, 1),
        is_lone(aig, done, cone, targets),
        count.contains_key(targets[0]),
        cone.has(v),
        !is_leaf(aig, done, v),
    ensures
        count.contains_key(v),
    decreases cone.order@.len() - cone.pos(v),
{
    reveal(is_lone);
    lemma_counted(hier, count);
    if v != targets[0] {
        let u = choose|u: usize| #[trigger] wishes(aig, done, cone, Map::empty(), u, v);
        cone.lemma_leveled(aig, done, u);
        lemma_lone_placed(aig, done, cone, targets, hier, count, u);
        let (h, j) = choose|h: int, j: int| 1 <= h && is_slot(h, j) && #[trigger] cell(hier, h, j) == u;
        lemma_placed_operand(aig, done, cone, hier, count, h, j, v);
    }
}

/// The one target is above all other gates.
pub(crate) proof fn lemma_lone_top(aig: AIG, done: Set<usize>, cone: Cone, targets: Seq<usize>, v: usize)
    requires
        aig.drivers_wf(),
        cone.graded(aig, done),
        is_lone(aig, done, cone, targets),
        cone.has(v),
        v != targets[0],
    ensures
        cone.lvl(v) < cone.lvl(targets[0]),
    decreases cone.order@.len() - cone.pos(v),
{
    reveal(is_lone);
    cone.lemma_leveled(aig, done, v);
    if !is_leaf(aig, done, v) {
        let u = choose|u: usize| #[trigger] wishes(aig, done, cone, Map::empty(), u, v);
        cone.lemma_leveled(aig, done, u);
        if u != targets[0] {
            lemma_lone_top(aig, done, cone, targets, u);
        }
    }
}

/// If the one target is placed, nothing else is necessary.
pub(crate) proof fn lemma_lone_enough(
    aig: AIG,
    done: Set<usize>,
    cone: Cone,
    targets: Seq<usize>,
    count: Map<usize, usize>,
    plan: Plan,
)
    requires
        aig.drivers_wf(),
        cone.graded(aig, done),
        cone.has(targets[0]),
        is_lone(aig, done, cone, targets),
        forall|v: usize| #[trigger] cone.has(v) && !is_leaf(aig, done, v) ==> count.contains_key(v),
        plan.ok(aig, done, cone, targets, count),
    ensures
        set_items(plan.necessary).len() == 0,
{
    reveal(is_lone);
    let s = set_items(plan.necessary);
    if s.len() > 0 {
        assert(s.contains(s[0]));
        let u = choose|u: usize| #[trigger] asks_for(aig, cone, targets, count, plan.reverse_level@, u, s[0]);
        cone.lemma_leveled(aig, done, u);
        assert(is_leaf(aig, done, u));
        assert(targets.contains(u));
        assert(u == targets[0]);
    }
}

/// Places a gate, unless the first row of gates would not keep room for what it
/// has to provide.
fn try_place(
    aig: &AIG,
    cone: &Cone,
    targets: &IndexSet<usize>,
    realized: &IndexSet<usize>,
    level: usize,
    slot: usize,
    node: usize,
    hier: &mut Vec<Vec<usize>>,
    count: &mut IndexMap<usize, usize>,
    Ghost(first): Ghost<Plan>,
) -> (r: Option<Plan>)
    requires
        aig.drivers_wf(),
        cone.graded(*aig, set_items(*realized).to_set()),
        forall|i: int| 0 <= i < set_items(*targets).len() ==> cone.has(#[trigger] set_items(*targets)[i]),
        2 <= level <= 13,
        is_slot(level as int, slot as int),
        vacant(old(hier)@, level as int, slot as int),
        cone.has(node),
        cone.lvl(node) == level,
        node <= aig.num_aigpins,
        grid_ok(*aig, set_items(*realized).to_set(), *cone, old(hier)@, map_view(*old(count)), level as int),
        map_view(*old(count)).dom().finite(),
        first.ok(*aig, set_items(*realized).to_set(), *cone, set_items(*targets), Map::empty()),
    ensures
        grid_ok(*aig, set_items(*realized).to_set(), *cone, final(hier)@, map_view(*final(count)), level as int),
        map_view(*final(count)).dom().finite(),
        r matches Some(plan) ==> plan.ok(
            *aig,
            set_items(*realized).to_set(),
            *cone,
            set_items(*targets),
            map_view(*final(count)),
        ) && set_items(plan.necessary).len() <= set_items(first.necessary).len() && taken(final(hier)@) + set_items(
            plan.necessary,
        ).len() < 4096 && taken(final(hier)@) <= taken(old(hier)@) + feet(level as int),
        r is Some ==> cell(final(hier)@, level as int, slot as int) == node && final(hier)@[level as int]@ == old(
            hier,
        )@[level as int]@.update(slot as int, node) && same_elsewhere(
            old(hier)@,
            final(hier)@,
            level as int,
            slot as int,
        ),
        forall|h: int, j: int| #[trigger]
            is_slot(h, j) && !vacant(old(hier)@, h, j) ==> cell(final(hier)@, h, j) == cell(old(hier)@, h, j),
        r is None ==> map_view(*final(count)) == map_view(*old(count)) && taken(final(hier)@) == taken(old(hier)@) && (
        forall|h: int, j: int| #[trigger] is_slot(h, j) ==> cell(final(hier)@, h, j) == cell(old(hier)@, h, j)),
        r is None ==> set_items(first.necessary).len() + taken(old(hier)@) + feet(level as int) >= 4096 || (set_items(
            first.necessary,
        ).len() + map_view(*old(count)).dom().len() + span(level as int) >= 4096 && set_items(first.necessary).len()
            + cone.order@.len() >= 4096),
        r is None ==> !(is_lone(*aig, set_items(*realized).to_set(), *cone, set_items(*targets)) && level == cone.lvl(
            set_items(*targets)[0],
        ) && taken(old(hier)@) == 0 && forall|h: int, j: int| #[trigger]
            is_slot(h, j) ==> vacant(old(hier)@, h, j)),
{
    let ghost h0 = hier@;
    let ghost c0 = map_view(*count);
    let ghost top = level as int;
    let ghost done = set_items(*realized).to_set();
    let ghost tgt = set_items(*targets);
    proof {
        lemma_free_slot(*aig, done, *cone, h0, c0, top, top, slot as int);
    }
    place_bit(aig, hier, count, cone, level, slot, node, Ghost(done));
    let ghost h1 = hier@;
    let ghost c1 = map_view(*count);
    proof {
        lemma_grid_placed(*aig, done, *cone, h0, c0, h1, c1, top, slot as int, node);
    }
    let update = make_plan(aig, cone, targets, realized, count);
    let lvl1_taken = count_taken(&hier[1]);
    assert(hier@[1]@.len() == width(1));
    let unique = map_len(count);
    proof {
        let keys = map_keys(*count).take(unique as int);
        keys.unique_seq_to_set();
        lemma_placed_len(*aig, done, *cone, h1, c1, keys);
        lemma_necessary_less(*aig, done, *cone, tgt, Map::empty(), first, c1, update);
        if is_lone(*aig, done, *cone, tgt) && level == cone.lvl(tgt[0]) && taken(h0) == 0 && (forall|
            h: int,
            j: int,
        | #[trigger]
            is_slot(h, j) ==> vacant(h0, h, j)) {
            assert(tgt.len() == 1 && cone.order@.len() < 4096) by {
                reveal(is_lone);
            }
            assert(cone.has(tgt[0]));
            lemma_lone_fits(*aig, done, *cone, tgt, h0, h1, c1, update, top, slot as int, node);
        }
    }
    let most: usize = if lvl1_taken < unique {
        unique
    } else {
        lvl1_taken
    };
    let wanted = set_len(&update.necessary);
    if most >= 4096 || wanted >= 4096 - most {
        purge_bit(hier, count, level, slot);
        proof {
            lemma_purged(*aig, done, *cone, h0, c0, h1, hier@, map_view(*count), top, slot as int);
        }
        return None;
    }
    Some(update)
}

/// Places gates of level 2 and more, the highest first, as long as the first
/// row of gates keeps room for what it has to provide.
#[verifier::rlimit(60)]
pub(crate) fn fill_high_levels(
    aig: &AIG,
    cone: &Cone,
    targets: &IndexSet<usize>,
    realized: &IndexSet<usize>,
    max_level: usize,
    hier: &mut Vec<Vec<usize>>,
    count: &mut IndexMap<usize, usize>,
) -> (plan: Plan)
    requires
        aig.drivers_wf(),
        cone.graded(*aig, set_items(*realized).to_set()),
        forall|i: int| 0 <= i < set_items(*targets).len() ==> cone.has(#[trigger] set_items(*targets)[i]),
        shaped(old(hier)@),
        forall|h: int, j: int| #[trigger] is_slot(h, j) ==> vacant(old(hier)@, h, j),
        forall|v: usize| !#[trigger] map_view(*old(count)).contains_key(v),
        forall|v: usize| #[trigger] cone.has(v) ==> cone.lvl(v) <= max_level,
    ensures
        is_rooted(final(hier)@),
        map_view(*final(count)).dom().finite(),
        exists|first: Plan| #[trigger]
            first.ok(*aig, set_items(*realized).to_set(), *cone, set_items(*targets), Map::empty()) && all_filled(
                *aig,
                set_items(*realized).to_set(),
                *cone,
                set_items(*targets),
                set_items(first.necessary).len() as int,
                final(hier)@,
                map_view(*final(count)),
                1,
            ) && (forall|l: int|
                2 <= l <= 12 && #[trigger] goes_deep(
                    *aig,
                    set_items(*realized).to_set(),
                    *cone,
                    set_items(*targets),
                    set_items(first.necessary).len() as int,
                    l,
                ) ==> reached(*cone, map_view(*final(count)), l)) && set_items(plan.necessary).len() <= set_items(
                first.necessary,
            ).len(),
        is_lone(*aig, set_items(*realized).to_set(), *cone, set_items(*targets)) && max_level == cone.lvl(
            set_items(*targets)[0],
        ) ==> stands_alone(
            *aig,
            set_items(*realized).to_set(),
            *cone,
            final(hier)@,
            map_view(*final(count)),
            set_items(*targets)[0],
        ),
        grid_ok(*aig, set_items(*realized).to_set(), *cone, final(hier)@, map_view(*final(count)), 1),
        plan.ok(*aig, set_items(*realized).to_set(), *cone, set_items(*targets), map_view(*final(count))),
        taken(final(hier)@) + set_items(plan.necessary).len() < 4096 || (taken(final(hier)@) == 0 && set_items(
            plan.necessary,
        ).len() <= cone.order@.len()),
        max_level < 2 ==> (forall|h: int, j: int| #[trigger] is_slot(h, j) ==> vacant(final(hier)@, h, j)) && (
        forall|v: usize| !#[trigger] map_view(*final(count)).contains_key(v)),
{
    let ghost done = set_items(*realized).to_set();
    let ghost tgt = set_items(*targets);
    proof {
        assert(counted(hier@, map_view(*count))) by {
            assert forall|v: usize| v != usize::MAX implies (#[trigger] map_view(*count).contains_key(v)
                <==> rows_count(hier@, 13, v) > 0) by {
                lemma_empty_counted(hier@, 13, v);
            }
        }
        assert forall|h: int, j: int|
            1 <= h <= 13 && #[trigger] is_slot(h, j) && vacant(hier@, h, j) implies vacant(hier@, h - 1, j) && vacant(
            hier@,
            h - 1,
            j + width(h),
        ) by {
            assert(is_slot(h - 1, j) && is_slot(h - 1, j + width(h)));
        }
        lemma_all_vacant_row(hier@);
        lemma_rooted(*aig, done, *cone, hier@, map_view(*count), 13);
    }
    let mut plan = make_plan(aig, cone, targets, realized, count);
    proof {
        lemma_necessary_len(*aig, done, *cone, tgt, map_view(*count), plan);
    }
    let mut selected_level: usize = if max_level < 13 {
        max_level
    } else {
        13
    };
    let ghost mut accepted = false;
    let ghost first = plan;
    let ghost need = set_items(plan.necessary).len() as int;
    let ghost lone = is_lone(*aig, done, *cone, tgt) && max_level == cone.lvl(tgt[0]);
    proof {
        assert(map_view(*count) =~= Map::empty());
        assert(all_filled(*aig, done, *cone, tgt, need, hier@, map_view(*count), selected_level as int)) by {
            reveal(all_filled);
            reveal(level_filled);
        }
        assert(on_the_way(*aig, done, *cone, tgt, need, map_view(*count), accepted, selected_level as int)) by {
            reveal(on_the_way);
            assert forall|l: int|
                2 <= l <= 12 && #[trigger] goes_deep(*aig, done, *cone, tgt, need, l) implies selected_level >= l by {
                reveal(goes_deep);
            }
        }
        if lone {
            reveal(is_lone);
        }
    }
    while selected_level >= 2
        invariant
            is_rooted(hier@),
            aig.drivers_wf(),
            done == set_items(*realized).to_set(),
            tgt == set_items(*targets),
            cone.graded(*aig, done),
            forall|i: int| 0 <= i < tgt.len() ==> cone.has(#[trigger] tgt[i]),
            selected_level <= 13,
            max_level < 2 ==> selected_level < 2 && !accepted,
            map_view(*count).dom().finite(),
            first.ok(*aig, done, *cone, tgt, Map::empty()),
            need == set_items(first.necessary).len(),
            set_items(plan.necessary).len() <= need,
            lone == (is_lone(*aig, done, *cone, tgt) && max_level == cone.lvl(tgt[0])),
            lone && !accepted ==> selected_level == cone.lvl(tgt[0]),
            lone && accepted ==> stands_alone(*aig, done, *cone, hier@, map_view(*count), tgt[0]),
            all_filled(*aig, done, *cone, tgt, need, hier@, map_view(*count), selected_level as int),
            on_the_way(*aig, done, *cone, tgt, need, map_view(*count), accepted, selected_level as int),
            grid_ok(
                *aig,
                done,
                *cone,
                hier@,
                map_view(*count),
                if selected_level < 1 {
                    1
                } else {
                    selected_level as int
                },
            ),
            plan.ok(*aig, done, *cone, tgt, map_view(*count)),
            accepted ==> taken(hier@) + set_items(plan.necessary).len() < 4096,
            !accepted ==> taken(hier@) == 0 && set_items(plan.necessary).len() <= cone.order@.len() && (forall|
                h: int,
                j: int,
            | #[trigger]
                is_slot(h, j) ==> vacant(hier@, h, j)) && (forall|v: usize| !#[trigger] map_view(*count).contains_key(
                v,
            )),
        decreases selected_level, row_count(hier@[selected_level as int]@, usize::MAX),
    {
        let ghost h0 = hier@;
        let ghost c0 = map_view(*count);
        let ghost top = selected_level as int;
        assert(hier@[top]@.len() == width(top));
        let slot: usize = match find_vacant(&hier[selected_level]) {
            Some(slot) => slot,
            None => {
                proof {
                    lemma_row_done(*aig, done, *cone, tgt, need, h0, c0, accepted, top);
                    if lone && !accepted {
                        assert(is_slot(top, 0));
                    }
                }
                selected_level -= 1;
                continue ;
            },
        };
        let node: usize = match pick_node(cone, &plan.reverse_level, count, selected_level) {
            Some(p) => cone.order[p],
            None => {
                proof {
                    lemma_none_left(*aig, done, *cone, tgt, need, h0, c0, plan, accepted, selected_level);
                    if lone && !accepted {
                        reveal(is_lone);
                        assert(tgt.contains(tgt[0]));
                        assert(cone.order@[cone.pos(tgt[0])] == tgt[0]);
                        assert(is_candidate(*cone, plan.reverse_level@, c0, selected_level, cone.pos(tgt[0])));
                    }
                }
                selected_level -= 1;
                continue ;
            },
        };
        proof {
            let p = choose|p: int|
                is_candidate(*cone, plan.reverse_level@, c0, selected_level, p) && cone.order@[p] == node;
            assert(cone.has(cone.order@[p]) && cone.pos(cone.order@[p]) == p);
            assert(cell(h0, top, slot as int) == usize::MAX);
            if lone && accepted {
                reveal(stands_alone);
                cone.lemma_level_one(*aig, done, node);
            }
        }
        match try_place(aig, cone, targets, realized, selected_level, slot, node, hier, count, Ghost(first)) {
            None => {
                proof {
                    lemma_rooted(*aig, done, *cone, hier@, map_view(*count), top);
                    lemma_no_room(*aig, done, *cone, tgt, need, h0, c0, accepted, top);
                    lemma_filled_grows(*aig, done, *cone, tgt, need, h0, c0, hier@, map_view(*count), top - 1);
                }
                selected_level -= 1;
            },
            Some(update) => {
                plan = update;
                proof {
                    let h1 = hier@;
                    let c1 = map_view(*count);
                    lemma_rooted(*aig, done, *cone, h1, c1, top);
                    lemma_row_update(h0[top]@, slot as int, node, usize::MAX);
                    lemma_kept_pins(*aig, done, *cone, h0, c0, h1, c1);
                    lemma_filled_grows(*aig, done, *cone, tgt, need, h0, c0, h1, c1, top);
                    assert(reached(*cone, c1, top)) by {
                        lemma_counted(h1, c1);
                        assert(c1.contains_key(node));
                    }
                    lemma_way_goes_on(*aig, done, *cone, tgt, need, c0, c1, accepted, top);
                    if lone {
                        assert(tgt.len() == 1) by {
                            reveal(is_lone);
                        }
                        assert(cone.has(tgt[0]));
                        lemma_lone_fits(*aig, done, *cone, tgt, h0, h1, c1, plan, top, slot as int, node);
                    }
                    accepted = true;
                }
            },
        }
    }
    proof {
        assert forall|l: int|
            2 <= l <= 12 && #[trigger] goes_deep(*aig, done, *cone, tgt, need, l) implies reached(
            *cone,
            map_view(*count),
            l,
        ) by {
            reveal(on_the_way);
        }
        if lone {
            reveal(is_lone);
        }
        reveal(all_filled);
        assert(first.ok(*aig, done, *cone, tgt, Map::empty()));
    }
    plan
}

/// Taking out what was placed leaves the hierarchy as it was.
proof fn lemma_purged(
    aig: AIG,
    done: Set<usize>,
    cone: Cone,
    h0: Seq<Vec<usize>>,
    c0: Map<usize, usize>,
    h1: Seq<Vec<usize>>,
    h2: Seq<Vec<usize>>,
    c2: Map<usize, usize>,
    top: int,
    slot: int,
)
    requires
        grid_ok(aig, done, cone, h0, c0, top),
        1 <= top,
        is_slot(top, slot),
        vacant(h0, top, slot),
        same_elsewhere(h0, h1, top, slot),
        same_elsewhere(h1, h2, top, slot),
        vacant_below(h2, top, slot),
        shaped(h2),
        counted(h2, c2),
    ensures
        grid_ok(aig, done, cone, h2, c2, top),
        c0 == c2,
        forall|h: int| 0 <= h <= 13 ==> (#[trigger] h2[h])@ == h0[h]@,
        forall|h: int, j: int| #[trigger] is_slot(h, j) ==> cell(h2, h, j) == cell(h0, h, j),
        taken(h2) == taken(h0),
{
    assert forall|h: int, j: int| #[trigger] is_slot(h, j) implies cell(h2, h, j) == cell(h0, h, j) by {
        if below(top, slot, h, j) {
            assert(vacant(h2, h, j));
            lemma_free_slot(aig, done, cone, h0, c0, top, top, slot);
            assert(vacant(h0, h, j));
        } else {
            assert(cell(h1, h, j) == cell(h0, h, j));
            assert(cell(h2, h, j) == cell(h1, h, j));
        }
    }
    lemma_same_grid(h0, c0, h2, c2);
    assert forall|h: int, j: int| #[trigger] is_slot(h, j) implies slot_ok(aig, done, cone, h2, h, j) by {
        assert(slot_ok(aig, done, cone, h0, h, j));
        if h >= 1 {
            assert(is_slot(h - 1, j) && is_slot(h - 1, j + width(h)));
        }
    }
    assert forall|h: int, j: int| 1 <= h <= top && #[trigger] is_slot(h, j) && vacant(h2, h, j) implies vacant(
        h2,
        h - 1,
        j,
    ) && vacant(h2, h - 1, j + width(h)) by {
        assert(vacant(h0, h, j));
        assert(is_slot(h - 1, j) && is_slot(h - 1, j + width(h)));
    }
    assert(h2[1]@ == h0[1]@);
}

/// A row without vacant slots is filled.
proof fn lemma_row_done(
    aig: AIG,
    done: Set<usize>,
    cone: Cone,
    targets: Seq<usize>,
    need: int,
    hier: Seq<Vec<usize>>,
    placed: Map<usize, usize>,
    accepted: bool,
    top: int,
)
    requires
        2 <= top <= 13,
        shaped(hier),
        forall|k: int| 0 <= k < hier[top]@.len() ==> hier[top]@[k] != usize::MAX,
        !accepted ==> forall|h: int, j: int| #[trigger] is_slot(h, j) ==> vacant(hier, h, j),
        all_filled(aig, done, cone, targets, need, hier, placed, top),
        on_the_way(aig, done, cone, targets, need, placed, accepted, top),
    ensures
        accepted,
        all_filled(aig, done, cone, targets, need, hier, placed, top - 1),
        on_the_way(aig, done, cone, targets, need, placed, accepted, top - 1),
{
    reveal(all_filled);
    reveal(on_the_way);
    assert(hier[top]@.len() == width(top));
    if !accepted {
        assert(is_slot(top, 0));
        assert(vacant(hier, top, 0));
    }
    assert(level_filled(aig, done, cone, targets, need, hier, placed, top)) by {
        reveal(level_filled);
    }
}

/// A level without candidates is done.
proof fn lemma_none_left(
    aig: AIG,
    done: Set<usize>,
    cone: Cone,
    targets: Seq<usize>,
    need: int,
    hier: Seq<Vec<usize>>,
    placed: Map<usize, usize>,
    plan: Plan,
    accepted: bool,
    top: usize,
)
    requires
        2 <= top <= 13,
        aig.drivers_wf(),
        cone.graded(aig, done),
        plan.ok(aig, done, cone, targets, placed),
        forall|q: int| !#[trigger] is_candidate(cone, plan.reverse_level@, placed, top, q),
        !accepted ==> forall|v: usize| !#[trigger] placed.contains_key(v),
        all_filled(aig, done, cone, targets, need, hier, placed, top as int),
        on_the_way(aig, done, cone, targets, need, placed, accepted, top as int),
    ensures
        all_filled(aig, done, cone, targets, need, hier, placed, top - 1),
        on_the_way(aig, done, cone, targets, need, placed, accepted, top - 1),
{
    reveal(all_filled);
    reveal(on_the_way);
    assert(level_filled(aig, done, cone, targets, need, hier, placed, top as int)) by {
        reveal(level_filled);
        assert forall|v: usize| #[trigger]
            cone.has(v) && cone.lvl(v) == top && wanted(aig, done, cone, targets, placed, v)
                implies placed.contains_key(
            v,
        ) by {
            assert(!is_candidate(cone, plan.reverse_level@, placed, top, cone.pos(v)));
            assert(cone.order@[cone.pos(v)] == v);
        }
    }
    if !accepted && goes_deep(aig, done, cone, targets, need, top as int) {
        reveal(goes_deep);
        assert(placed =~= Map::empty());
        let v = choose|v: usize| #[trigger]
            cone.has(v) && cone.lvl(v) >= top && wanted(aig, done, cone, targets, Map::empty(), v);
        let w = lemma_wanted_level(aig, done, cone, targets, v, top as int);
        assert(cone.order@[cone.pos(w)] == w);
        assert(is_candidate(cone, plan.reverse_level@, placed, top, cone.pos(w)));
    }
}

/// A level at which a gate did not fit is done.
proof fn lemma_no_room(
    aig: AIG,
    done: Set<usize>,
    cone: Cone,
    targets: Seq<usize>,
    need: int,
    hier: Seq<Vec<usize>>,
    placed: Map<usize, usize>,
    accepted: bool,
    top: int,
)
    requires
        2 <= top <= 13,
        need + taken(hier) + feet(top) >= 4096 || (need + placed.dom().len() + span(top) >= 4096 && need
            + cone.order@.len() >= 4096),
        !accepted ==> taken(hier) == 0 && forall|v: usize| !#[trigger] placed.contains_key(v),
        all_filled(aig, done, cone, targets, need, hier, placed, top),
        on_the_way(aig, done, cone, targets, need, placed, accepted, top),
    ensures
        all_filled(aig, done, cone, targets, need, hier, placed, top - 1),
        on_the_way(aig, done, cone, targets, need, placed, accepted, top - 1),
{
    reveal(all_filled);
    reveal(on_the_way);
    assert(level_filled(aig, done, cone, targets, need, hier, placed, top)) by {
        reveal(level_filled);
    }
    if !accepted {
        assert(placed.dom() =~= Set::empty());
        reveal(goes_deep);
    }
}

/// With a gate placed, all levels up to its own are reached.
proof fn lemma_way_goes_on(
    aig: AIG,
    done: Set<usize>,
    cone: Cone,
    targets: Seq<usize>,
    need: int,
    c0: Map<usize, usize>,
    c1: Map<usize, usize>,
    accepted: bool,
    top: int,
)
    requires
        forall|x: usize| #[trigger] c0.contains_key(x) ==> c1.contains_key(x),
        reached(cone, c1, top),
        on_the_way(aig, done, cone, targets, need, c0, accepted, top),
    ensures
        on_the_way(aig, done, cone, targets, need, c1, true, top),
{
    reveal(on_the_way);
    assert forall|l: int| 2 <= l <= 12 && #[trigger] goes_deep(aig, done, cone, targets, need, l) implies reached(
        cone,
        c1,
        l,
    ) by {
        if reached(cone, c0, l) {
            let v = choose|v: usize| #[trigger] c0.contains_key(v) && cone.has(v) && cone.lvl(v) >= l;
            assert(c1.contains_key(v));
        } else {
            let v = choose|v: usize| #[trigger] c1.contains_key(v) && cone.has(v) && cone.lvl(v) >= top;
            assert(c1.contains_key(v));
        }
    }
}

/// One target, placed into an empty hierarchy, fits and stands alone.
proof fn lemma_lone_fits(
    aig: AIG,
    done: Set<usize>,
    cone: Cone,
    targets: Seq<usize>,
    h0: Seq<Vec<usize>>,
    h1: Seq<Vec<usize>>,
    c1: Map<usize, usize>,
    plan: Plan,
    top: int,
    slot: int,
    node: usize,
)
    requires
        aig.drivers_wf(),
        cone.graded(aig, done),
        is_lone(aig, done, cone, targets),
        cone.has(targets[0]),
        top == cone.lvl(targets[0]),
        cone.has(node),
        cone.lvl(node) == top,
        forall|h: int, j: int| #[trigger] is_slot(h, j) ==> vacant(h0, h, j),
        taken(h0) == 0,
        shaped(h0),
        is_slot(top, slot),
        cell(h1, top, slot) == node,
        same_elsewhere(h0, h1, top, slot),
        grid_ok(aig, done, cone, h1, c1, 1),
        plan.ok(aig, done, cone, targets, c1),
        taken(h1) <= taken(h0) + feet(top),
    ensures
        taken(h1) <= 2048,
        set_items(plan.necessary).len() == 0,
        stands_alone(aig, done, cone, h1, c1, targets[0]),
{
    let t = targets[0];
    reveal(is_lone);
    if node != t {
        lemma_lone_top(aig, done, cone, targets, node);
    }
    lemma_counted(h1, c1);
    assert(t <= aig.num_aigpins);
    assert(c1.contains_key(t));
    assert forall|v: usize| #[trigger] cone.has(v) && !is_leaf(aig, done, v) implies c1.contains_key(v) by {
        lemma_lone_placed(aig, done, cone, targets, h1, c1, v);
    }
    lemma_lone_enough(aig, done, cone, targets, c1, plan);
    reveal_with_fuel(feet, 13);
    reveal(stands_alone);
    assert forall|h: int, j: int| 1 <= h && #[trigger] is_slot(h, j) && cell(h1, h, j) == t implies h == top && j
        == slot by {
        assert(slot_ok(aig, done, cone, h1, h, j));
        lemma_below_split(top, slot, h, j);
        if !below(top, slot, h, j) {
            assert(cell(h1, h, j) == cell(h0, h, j));
            assert(vacant(h0, h, j));
        }
    }
    assert(is_slot(cone.lvl(t), slot));
}


/// A hierarchy without pins takes no slot of the first row of gates.
proof fn lemma_all_vacant_row(hier: Seq<Vec<usize>>)
    requires
        shaped(hier),
        forall|h: int, j: int| #[trigger] is_slot(h, j) ==> vacant(hier, h, j),
    ensures
        taken(hier) == 0,
{
    let row = hier[1]@;
    assert forall|j: int| 0 <= j < row.len() implies row[j] == usize::MAX by {
        assert(is_slot(1, j));
        assert(vacant(hier, 1, j));
    }
    lemma_row_count(row, usize::MAX);
}

/// No more pins are necessary than there are in the cone.
proof fn lemma_necessary_len(
    aig: AIG,
    done: Set<usize>,
    cone: Cone,
    targets: Seq<usize>,
    placed: Map<usize, usize>,
    plan: Plan,
)
    requires
        aig.drivers_wf(),
        cone.graded(aig, done),
        plan.ok(aig, done, cone, targets, placed),
    ensures
        set_items(plan.necessary).len() <= cone.order@.len(),
{
    let s = set_items(plan.necessary);
    let places = s.map_values(|v: usize| cone.pos(v) as usize);
    assert forall|i: int| 0 <= i < s.len() implies cone.has(#[trigger] s[i]) by {
        assert(s.contains(s[i]));
        lemma_necessary(aig, done, cone, targets, placed, plan.reverse_level@, s[i]);
    }
    assert forall|i: int, k: int| 0 <= i < k < s.len() implies places[i] != places[k] by {
        assert(cone.has(s[i]) && cone.has(s[k]));
        assert(cone.order@[cone.pos(s[i])] == s[i]);
        assert(cone.order@[cone.pos(s[k])] == s[k]);
    }
    assert forall|i: int| 0 <= i < places.len() implies #[trigger] places[i] < cone.order@.len() by {
        assert(cone.has(s[i]));
    }
    lemma_distinct_len(places, cone.order@.len() as int);
}

} // verus!
