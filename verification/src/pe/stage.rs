//! Construction of boomerang stages.

use super::cone::{cone_set, in_cone, in_gate_cone, is_base_gate, is_leaf, leaves, Cone};
use super::fill::{
    all_filled, empty_hierarchy, fill_high_levels, goes_deep, grid_ok, is_rooted, lemma_filled_grows, lemma_free_slot,
    lemma_grid_placed, lemma_lone_enough, reached, stands_alone, taken, Plan,
};
use super::fold::{
    depth, first_row, is_folded, is_solo, lemma_first_row, lemma_is_folded, lemma_solo, lemma_solo_shallow,
    lemma_well_filled, well_filled,
};
use super::grid::{
    below, cell, counted, fed, holds, is_slot, lemma_below_split, lemma_counted, lemma_row_count, lemma_row_update,
    row_count, shaped, vacant, width,
};
use super::levels::{asks_for, lemma_necessary, passes_on};
use super::place::{place_bit, slot_ok};
use crate::aig::{nonzero, DriverType, AIG};
use crate::collections::{
    map_get, map_key_at, map_keys, map_len, map_new, map_view, set_add, set_at, set_contains, set_items, set_len,
    set_new, set_swap_remove,
};
use crate::sorting::{lemma_same_distinct, lemma_same_items, sort_triples};
use indexmap::{IndexMap, IndexSet};
use vstd::prelude::*;

verus! {

/// The most words that a partition can write out.
pub const BOOMERANG_MAX_WRITEOUTS: usize = 256;

/// One Boomerang stage
#[derive(Debug)]
pub struct BoomerangStage {
    /// the boomerang hierarchy, 8192 -> 4096 -> ... -> 1.
    ///
    /// each element is an aigpin index (without iv).
    /// its parent indices should either be a passthrough or an
    /// and gate mapping.
    pub hier: Vec<Vec<usize>>,
    /// the 32-packed elements in the hierarchy where there should be
    /// a pass-through.
    pub write_outs: Vec<usize>,
}

/// Does a slot hold nothing, or a pin that the targets depend on and that is
/// given in the first row and made of the row before in others?
pub open spec fn slot_sound(
    aig: AIG,
    done: Set<usize>,
    targets: Seq<usize>,
    hier: Seq<Vec<usize>>,
    h: int,
    j: int,
) -> bool {
    !vacant(hier, h, j) ==> {
        let v = cell(hier, h, j);
        &&& in_cone(aig, done, targets, v)
        &&& h == 0 ==> is_leaf(aig, done, v)
        &&& h >= 1 ==> fed(aig, hier, h, j)
    }
}

/// The number of the 32-bit word in which a slot is packed.
pub open spec fn word_of(h: int, j: int) -> usize {
    ((j + width(h)) / 32) as usize
}

/// Is the pin in a word that is written out?
pub open spec fn written(hier: Seq<Vec<usize>>, write_outs: Seq<usize>, v: usize) -> bool {
    exists|h: int, j: int|
        1 <= h && is_slot(h, j) && #[trigger] cell(hier, h, j) == v && write_outs.contains(word_of(h, j))
}

impl BoomerangStage {
    /// The stage computes what it holds out of leaves of the targets' cone.
    pub open spec fn sound(self, aig: AIG, done: Set<usize>, targets: Seq<usize>) -> bool {
        &&& shaped(self.hier@)
        &&& forall|h: int, j: int| #[trigger] is_slot(h, j) ==> slot_sound(aig, done, targets, self.hier@, h, j)
    }

    /// The stage leaves the value of the pin behind.
    pub open spec fn realizes(self, v: usize) -> bool {
        v != usize::MAX && holds(self.hier@, v)
    }

    /// The stage writes the pin out.
    pub open spec fn writes(self, v: usize) -> bool {
        written(self.hier@, self.write_outs@, v)
    }
}

/// A word that is written out stays written out.
proof fn lemma_written_grows(h0: Seq<Vec<usize>>, w0: Seq<usize>, h1: Seq<Vec<usize>>, w1: Seq<usize>, v: usize)
    requires
        written(h0, w0, v),
        v != usize::MAX,
        forall|h: int, j: int| #[trigger] is_slot(h, j) && !vacant(h0, h, j) ==> cell(h1, h, j) == cell(h0, h, j),
        w0.is_prefix_of(w1),
    ensures
        written(h1, w1, v),
{
    let (h, j) = choose|h: int, j: int|
        1 <= h && is_slot(h, j) && #[trigger] cell(h0, h, j) == v && w0.contains(word_of(h, j));
    assert(cell(h1, h, j) == v);
    assert(w1[w0.index_of(word_of(h, j))] == word_of(h, j));
}

/// A gate that is placed has its operands placed, but for leaves.
proof fn lemma_placed_operands(
    aig: AIG,
    done: Set<usize>,
    cone: Cone,
    hier: Seq<Vec<usize>>,
    h: int,
    j: int,
    u: usize,
    w: usize,
)
    requires
        cone.graded(aig, done),
        forall|h: int, j: int| #[trigger] is_slot(h, j) ==> slot_ok(aig, done, cone, hier, h, j),
        1 <= h,
        is_slot(h, j),
        cell(hier, h, j) == u,
        u != usize::MAX,
        !is_leaf(aig, done, u),
        aig.drivers@[u as int] matches DriverType::AndGate(a, b) && (w == a / 2 || w == b / 2),
    ensures
        is_leaf(aig, done, w) || holds(hier, w),
    decreases h,
{
    assert(slot_ok(aig, done, cone, hier, h, j));
    assert(is_slot(h - 1, j) && is_slot(h - 1, j + width(h)));
    cone.lemma_level_one(aig, done, u);
    if cell(hier, h - 1, j) == u {
        assert(slot_ok(aig, done, cone, hier, h - 1, j));
        lemma_placed_operands(aig, done, cone, hier, h - 1, j, u, w);
    } else {
        if let DriverType::AndGate(a, b) = aig.drivers@[u as int] {
            cone.lemma_leveled(aig, done, u);
            let k = if w == a / 2 {
                j
            } else {
                j + width(h)
            };
            assert(cell(hier, h - 1, k) == w);
            assert(is_slot(h - 1, k));
            assert(slot_ok(aig, done, cone, hier, h - 1, k));
            if h == 1 {
                cone.lemma_level_one(aig, done, w);
            }
        }
    }
}

/// Everything on a way from a target over gates is a leaf, or is placed, or is
/// wanted.
proof fn lemma_walk_wanted(
    aig: AIG,
    done: Set<usize>,
    cone: Cone,
    targets: Seq<usize>,
    hier: Seq<Vec<usize>>,
    placed: Map<usize, usize>,
    plan: Plan,
    s: Seq<usize>,
    k: int,
)
    requires
        aig.drivers_wf(),
        cone.wf(aig, done, targets),
        grid_ok(aig, done, cone, hier, placed, 1),
        plan.ok(aig, done, cone, targets, placed),
        forall|i: int| 0 <= i < targets.len() ==> cone.has(#[trigger] targets[i]),
        aig.is_walk(leaves(aig, done), s),
        targets.contains(s[0]),
        0 <= k < s.len(),
    ensures
        cone.has(s[k]),
        is_leaf(aig, done, s[k]) || placed.contains_key(s[k]) || plan.reverse_level@[cone.pos(s[k])] != usize::MAX,
        k == 0 ==> plan.reverse_level@[cone.pos(s[k])] != usize::MAX,
        k > 0 && !placed.contains_key(s[k - 1]) ==> plan.reverse_level@[cone.pos(s[k])] != usize::MAX,
    decreases k,
{
    if k == 0 {
        let i = targets.index_of(s[0]);
        assert(cone.has(targets[i]));
    } else {
        lemma_walk_wanted(aig, done, cone, targets, hier, placed, plan, s, k - 1);
        let u = s[k - 1];
        let w = s[k];
        assert(aig.is_step(leaves(aig, done), s, k - 1));
        assert(aig.fanin(u).contains(w));
        assert(!is_leaf(aig, done, u));
        cone.lemma_leveled(aig, done, u);
        assert(passes_on(aig, done, cone, placed, plan.reverse_level@, u));
        if let DriverType::AndGate(a, b) = aig.drivers@[u as int] {
            lemma_gate_fanin(aig, u, w);
            if placed.contains_key(u) {
                lemma_counted(hier, placed);
                let (h, j) = choose|h: int, j: int| 1 <= h && is_slot(h, j) && #[trigger] cell(hier, h, j) == u;
                lemma_placed_operands(aig, done, cone, hier, h, j, u, w);
                if holds(hier, w) {
                    assert(placed.contains_key(w) || w == usize::MAX);
                }
            }
        }
    }
}

/// The fan-in of an and gate.
pub(crate) proof fn lemma_gate_fanin(aig: AIG, u: usize, w: usize)
    requires
        aig.drivers_wf(),
        u <= aig.num_aigpins,
        aig.drivers@[u as int] is AndGate,
    ensures
        aig.drivers@[u as int] matches DriverType::AndGate(a, b) && (aig.fanin(u).contains(w) <==> (w == a / 2 || w
            == b / 2)),
{
    if let DriverType::AndGate(a, b) = aig.drivers@[u as int] {
        let both = seq![(a / 2) as usize, (b / 2) as usize];
        assert(both.drop_last() =~= seq![(a / 2) as usize]);
        assert(seq![(a / 2) as usize].drop_last() =~= Seq::<usize>::empty());
        reveal_with_fuel(nonzero, 3);
        assert(aig.fanin(u) =~= both);
        assert(both[0] == a / 2 && both[1] == b / 2);
    }
}

/// Every gate of two leaves that a target wants is in the stage.
proof fn lemma_progress(
    aig: AIG,
    done: Set<usize>,
    cone: Cone,
    targets: Seq<usize>,
    h0: Seq<Vec<usize>>,
    placed: Map<usize, usize>,
    plan: Plan,
    hier: Seq<Vec<usize>>,
    v: usize,
)
    requires
        aig.drivers_wf(),
        cone.wf(aig, done, targets),
        grid_ok(aig, done, cone, h0, placed, 1),
        plan.ok(aig, done, cone, targets, placed),
        forall|i: int| 0 <= i < targets.len() ==> cone.has(#[trigger] targets[i]),
        forall|x: usize| #[trigger] placed.contains_key(x) ==> holds(hier, x),
        forall|x: usize| #[trigger] set_items(plan.necessary).contains(x) ==> holds(hier, x),
        in_gate_cone(aig, done, targets, v),
        is_base_gate(aig, done, v),
    ensures
        holds(hier, v),
{
    let t = choose|t: usize| #[trigger] targets.contains(t) && aig.reaches(leaves(aig, done), t, v);
    let s = choose|s: Seq<usize>| #[trigger] aig.is_walk(leaves(aig, done), s) && s[0] == t && s.last() == v;
    lemma_walk_wanted(aig, done, cone, targets, h0, placed, plan, s, s.len() - 1);
    if !placed.contains_key(v) {
        cone.lemma_level_one(aig, done, v);
        assert(asks_for(aig, cone, targets, placed, plan.reverse_level@, v, v));
        assert(set_items(plan.necessary).contains(v));
    }
}

/// Every leaf that a remaining target wants is in the stage.
proof fn lemma_carried(
    aig: AIG,
    done: Set<usize>,
    cone: Cone,
    targets: Seq<usize>,
    h0: Seq<Vec<usize>>,
    placed: Map<usize, usize>,
    plan: Plan,
    hier: Seq<Vec<usize>>,
    rest: Seq<usize>,
    next: Set<usize>,
    v: usize,
)
    requires
        aig.drivers_wf(),
        cone.wf(aig, done, targets),
        grid_ok(aig, done, cone, h0, placed, 1),
        plan.ok(aig, done, cone, targets, placed),
        forall|i: int| 0 <= i < targets.len() ==> cone.has(#[trigger] targets[i]),
        forall|x: usize| #[trigger] placed.contains_key(x) ==> holds(hier, x),
        forall|x: usize| #[trigger] set_items(plan.necessary).contains(x) ==> holds(hier, x),
        forall|x: usize| #[trigger] rest.contains(x) ==> targets.contains(x),
        forall|x: usize| #[trigger] next.contains(x) <==> done.contains(x) || (x != usize::MAX && holds(hier, x)),
        in_gate_cone(aig, next, rest, v),
        is_leaf(aig, next, v),
    ensures
        holds(hier, v),
{
    let t = choose|t: usize| #[trigger] rest.contains(t) && aig.reaches(leaves(aig, next), t, v);
    let s = choose|s: Seq<usize>| #[trigger] aig.is_walk(leaves(aig, next), s) && s[0] == t && s.last() == v;
    assert(aig.is_walk(leaves(aig, done), s)) by {
        assert forall|i: int| 0 <= i < s.len() - 1 implies #[trigger] aig.is_step(leaves(aig, done), s, i) by {
            assert(aig.is_step(leaves(aig, next), s, i));
            assert(!leaves(aig, next).contains(s[i]));
            assert(!is_leaf(aig, next, s[i]));
            assert(!next.contains(s[i]));
        }
    }
    assert(targets.contains(t));
    let k = s.len() - 1;
    lemma_walk_wanted(aig, done, cone, targets, h0, placed, plan, s, k);
    cone.lemma_level_one(aig, done, v);
    if !holds(hier, v) {
        assert(!placed.contains_key(v));
        assert(v <= aig.num_aigpins);
        assert(is_leaf(aig, done, v)) by {
            assert(next.contains(v) <==> done.contains(v) || (v != usize::MAX && holds(hier, v)));
        }
        if k == 0 {
            assert(asks_for(aig, cone, targets, placed, plan.reverse_level@, v, v));
            assert(set_items(plan.necessary).contains(v));
        } else {
            let u = s[k - 1];
            lemma_walk_wanted(aig, done, cone, targets, h0, placed, plan, s, k - 1);
            assert(aig.is_step(leaves(aig, next), s, k - 1));
            assert(aig.fanin(u).contains(v));
            assert(!is_leaf(aig, next, u));
            assert(next.contains(u) <==> done.contains(u) || (u != usize::MAX && holds(hier, u)));
            assert(u <= aig.num_aigpins);
            assert(!holds(hier, u));
            assert(!placed.contains_key(u));
            assert(!is_leaf(aig, done, u));
            cone.lemma_level_one(aig, done, u);
            lemma_gate_fanin(aig, u, v);
            if cone.lvl(u) == 1 {
                assert(asks_for(aig, cone, targets, placed, plan.reverse_level@, u, u));
                assert(set_items(plan.necessary).contains(u));
            } else {
                assert(asks_for(aig, cone, targets, placed, plan.reverse_level@, u, v));
                assert(set_items(plan.necessary).contains(v));
            }
        }
    }
}

/// How far the first row of gates is filled: the pins in `placed` came in
/// addition to the hierarchy `h0`.
spec fn filled(
    aig: AIG,
    done: Set<usize>,
    cone: Cone,
    necessary: Seq<usize>,
    h0: Seq<Vec<usize>>,
    c0: Map<usize, usize>,
    hier: Seq<Vec<usize>>,
    count: Map<usize, usize>,
    placed: Seq<usize>,
) -> bool {
    &&& grid_ok(aig, done, cone, hier, count, 1)
    &&& forall|h: int, j: int| #[trigger] is_slot(h, j) && !vacant(h0, h, j) ==> cell(hier, h, j) == cell(h0, h, j)
    &&& placed.no_duplicates()
    &&& forall|x: usize| #[trigger] placed.contains(x) ==> necessary.contains(x)
    &&& forall|x: usize| #[trigger] count.contains_key(x) <==> c0.contains_key(x) || placed.contains(x)
    &&& taken(hier) == taken(h0) + placed.len()
    &&& forall|h: int, j: int| h >= 2 && #[trigger] is_slot(h, j) ==> cell(hier, h, j) == cell(h0, h, j)
}

/// The necessary pins are pins of the cone of level 0 or 1.
spec fn fits_level_one(cone: Cone, necessary: Seq<usize>) -> bool {
    forall|x: usize| #[trigger] necessary.contains(x) ==> cone.has(x) && cone.lvl(x) <= 1
}

/// Places a necessary pin into a vacant slot of the first row of gates.
fn place_level_one(
    aig: &AIG,
    cone: &Cone,
    hier: &mut Vec<Vec<usize>>,
    count: &mut IndexMap<usize, usize>,
    j: usize,
    nd: usize,
    Ghost(done): Ghost<Set<usize>>,
    Ghost(necessary): Ghost<Seq<usize>>,
    Ghost(h0): Ghost<Seq<Vec<usize>>>,
    Ghost(c0): Ghost<Map<usize, usize>>,
    Ghost(placed): Ghost<Seq<usize>>,
)
    requires
        aig.drivers_wf(),
        cone.graded(*aig, done),
        fits_level_one(*cone, necessary),
        filled(*aig, done, *cone, necessary, h0, c0, old(hier)@, map_view(*old(count)), placed),
        j < 4096,
        vacant(old(hier)@, 1, j as int),
        necessary.contains(nd),
        !map_view(*old(count)).contains_key(nd),
    ensures
        filled(*aig, done, *cone, necessary, h0, c0, final(hier)@, map_view(*final(count)), placed.push(nd)),
        final(hier)@[1]@ == old(hier)@[1]@.update(j as int, nd),
        forall|h: int, k: int| #[trigger]
            is_slot(h, k) && !vacant(old(hier)@, h, k) ==> cell(final(hier)@, h, k) == cell(old(hier)@, h, k),
        map_view(*final(count)).contains_key(nd),
        forall|x: usize| #[trigger]
            map_view(*final(count)).contains_key(x) <==> map_view(*old(count)).contains_key(x) || x == nd,
{
    let ghost h1 = hier@;
    let ghost c1 = map_view(*count);
    assert(is_slot(1, j as int));
    proof {
        lemma_free_slot(*aig, done, *cone, h1, c1, 1, 1, j as int);
    }
    place_bit(aig, hier, count, cone, 1, j, nd, Ghost(done));
    proof {
        let h2 = hier@;
        let c2 = map_view(*count);
        lemma_grid_placed(*aig, done, *cone, h1, c1, h2, c2, 1, j as int, nd);
        lemma_row_update(h1[1]@, j as int, nd, usize::MAX);
        lemma_counted(h1, c1);
        lemma_counted(h2, c2);
        assert forall|x: usize| #[trigger] c2.contains_key(x) <==> c1.contains_key(x) || x == nd by {
            if c2.contains_key(x) && x != nd {
                let (h, k) = choose|h: int, k: int| 1 <= h && is_slot(h, k) && #[trigger] cell(h2, h, k) == x;
                lemma_below_split(1, j as int, h, k);
                if below(1, j as int, h, k) {
                    assert(h == 1 && k == j);
                } else {
                    assert(cell(h1, h, k) == x);
                }
            }
            if c1.contains_key(x) {
                let (h, k) = choose|h: int, k: int| 1 <= h && is_slot(h, k) && #[trigger] cell(h1, h, k) == x;
                assert(cell(h2, h, k) == x);
            }
        }
        let after = placed.push(nd);
        assert forall|x: usize| #[trigger] after.contains(x) <==> placed.contains(x) || x == nd by {
            assert(after[placed.len() as int] == nd);
            if placed.contains(x) {
                assert(after[placed.index_of(x)] == x);
            }
            if after.contains(x) && x != nd {
                assert(placed[after.index_of(x)] == x);
            }
        }
        assert(!placed.contains(nd));
        assert forall|h: int, k: int| #[trigger] is_slot(h, k) && !vacant(h0, h, k) implies cell(h2, h, k) == cell(
            h0,
            h,
            k,
        ) by {
            assert(!vacant(h1, h, k));
        }
    }
}

/// The number of slots that are taken in a group of 32.
pub open spec fn group_taken(row: Seq<usize>, at: int) -> int {
    32 - row_count(row.subrange(at, at + 32), usize::MAX)
}

/// Are the groups different?
#[verifier::opaque]
spec fn spaces_apart(spaces: Seq<(usize, usize, usize)>) -> bool {
    forall|i: int, k: int|
        0 <= i < spaces.len() && 0 <= k < spaces.len() && i != k ==> (#[trigger] spaces[i]).1 != (
        #[trigger] spaces[k]).1
}

/// Are these all groups, in order?
spec fn all_spaces(spaces: Seq<(usize, usize, usize)>) -> bool {
    &&& spaces.len() == 128
    &&& forall|k: int| 0 <= k < 128 ==> (#[trigger] spaces[k]).1 == 32 * k
}

/// Groups that come in ascending order and are as many as there are come in
/// order.
proof fn lemma_all_spaces(spaces: Seq<(usize, usize, usize)>, k: int)
    requires
        spaces.len() == 128,
        forall|i: int| 0 <= i < spaces.len() ==> (#[trigger] spaces[i]).1 % 32 == 0 && spaces[i].1 + 32 <= 4096,
        forall|i: int, j: int| 0 <= i < j < spaces.len() ==> (#[trigger] spaces[i]).1 < (#[trigger] spaces[j]).1,
        0 <= k < 128,
    ensures
        spaces[k].1 >= 32 * k,
    decreases k,
{
    if k > 0 {
        lemma_all_spaces(spaces, k - 1);
        assert(spaces[k - 1].1 < spaces[k].1);
    }
}

proof fn lemma_all_spaces_end(spaces: Seq<(usize, usize, usize)>, k: int)
    requires
        spaces.len() == 128,
        forall|i: int| 0 <= i < spaces.len() ==> (#[trigger] spaces[i]).1 % 32 == 0 && spaces[i].1 + 32 <= 4096,
        forall|i: int, j: int| 0 <= i < j < spaces.len() ==> (#[trigger] spaces[i]).1 < (#[trigger] spaces[j]).1,
        0 <= k < 128,
    ensures
        spaces[k].1 <= 32 * k,
    decreases 128 - k,
{
    if k < 127 {
        lemma_all_spaces_end(spaces, k + 1);
        assert(spaces[k].1 < spaces[k + 1].1);
    } else {
        assert(spaces[k].1 + 32 <= 4096);
    }
}

/// Is this the word of group `k`?
spec fn is_group_word(w: usize, spaces: Seq<(usize, usize, usize)>, k: int) -> bool {
    w == (spaces[k].1 + 4096) / 32
}

/// Is this the word of one of the first `n` groups?
spec fn from_groups(w: usize, spaces: Seq<(usize, usize, usize)>, n: int) -> bool {
    exists|k: int| 0 <= k < n && #[trigger] is_group_word(w, spaces, k)
}

/// Are the words those of some of the first `n` groups?
#[verifier::opaque]
spec fn words_of_groups(words: Seq<usize>, spaces: Seq<(usize, usize, usize)>, n: int) -> bool {
    forall|i: int| 0 <= i < words.len() ==> from_groups(#[trigger] words[i], spaces, n)
}

proof fn lemma_groups_further(words: Seq<usize>, spaces: Seq<(usize, usize, usize)>, n: int)
    requires
        words_of_groups(words, spaces, n),
    ensures
        words_of_groups(words, spaces, n + 1),
{
    reveal(words_of_groups);
    assert forall|i: int| 0 <= i < words.len() implies from_groups(#[trigger] words[i], spaces, n + 1) by {
        assert(from_groups(words[i], spaces, n));
        let k = choose|k: int| 0 <= k < n && #[trigger] is_group_word(words[i], spaces, k);
        assert(is_group_word(words[i], spaces, k));
    }
}

/// The groups of 32 slots of a row of which fewer than ten are taken: the
/// number of taken slots and the first slot, the emptiest groups first.
fn find_spaces(row: &Vec<usize>) -> (spaces: Vec<(usize, usize, usize)>)
    requires
        row@.len() == 4096,
    ensures
        forall|k: int|
            0 <= k < spaces@.len() ==> {
                let s = #[trigger] spaces@[k];
                &&& s.1 % 32 == 0
                &&& s.1 + 32 <= 4096
                &&& s.0 < 10
                &&& s.0 == group_taken(row@, s.1 as int)
            },
        forall|g: int|
            0 <= g < 128 && #[trigger] group_taken(row@, g * 32) < 10 ==> exists|k: int|
                0 <= k < spaces@.len() && #[trigger] spaces@[k].1 == g * 32,
        spaces_apart(spaces@),
        (forall|j: int| 0 <= j < 4096 ==> row@[j] == usize::MAX) ==> all_spaces(spaces@),
{
    let mut spaces: Vec<(usize, usize, usize)> = Vec::new();
    let mut g: usize = 0;
    while g < 128
        invariant
            row@.len() == 4096,
            g <= 128,
            forall|x: (usize, usize, usize)| #[trigger]
                spaces@.contains(x) ==> x.1 % 32 == 0 && x.1 + 32 <= 4096 && x.0 < 10 && x.0 == group_taken(
                    row@,
                    x.1 as int,
                ),
            forall|f: int|
                0 <= f < g && #[trigger] group_taken(row@, f * 32) < 10 ==> spaces@.contains(
                    (group_taken(row@, f * 32) as usize, (f * 32) as usize, 0),
                ),
            spaces@.no_duplicates(),
            forall|x: (usize, usize, usize)| #[trigger] spaces@.contains(x) ==> x.1 < g * 32 && x.2 == 0,
            (forall|j: int| 0 <= j < 4096 ==> row@[j] == usize::MAX) ==> spaces@.len() == g,
        decreases 128 - g,
    {
        let at: usize = g * 32;
        let ghost part = row@.subrange(at as int, at + 32);
        let mut num_occupied: usize = 0;
        let mut j: usize = 0;
        while j < 32
            invariant
                row@.len() == 4096,
                at + 32 <= 4096,
                part == row@.subrange(at as int, at + 32),
                j <= 32,
                num_occupied <= j,
                num_occupied == j - row_count(part.take(j as int), usize::MAX),
            decreases 32 - j,
        {
            assert(part.take(j + 1).drop_last() =~= part.take(j as int));
            if row[at + j] != usize::MAX {
                num_occupied += 1;
            }
            j += 1;
        }
        assert(part.take(32) =~= part);
        assert(num_occupied == group_taken(row@, g * 32));
        proof {
            if forall|j: int| 0 <= j < 4096 ==> row@[j] == usize::MAX {
                assert forall|i: int| 0 <= i < 32 implies part[i] == usize::MAX by {
                    assert(row@[at + i] == usize::MAX);
                }
                lemma_row_count(part, usize::MAX);
                assert(num_occupied < 10);
            }
        }
        let ghost before = spaces@;
        if num_occupied < 10 {
            spaces.push((num_occupied, at, 0));
            proof {
                let x: (usize, usize, usize) = (num_occupied, at, 0);
                assert(spaces@[before.len() as int] == x);
                assert forall|y: (usize, usize, usize)| #[trigger] spaces@.contains(y) implies before.contains(y)
                    || y == x by {
                    let k = spaces@.index_of(y);
                    if k < before.len() {
                        assert(before[k] == y);
                    }
                }
                assert forall|y: (usize, usize, usize)| before.contains(y) implies #[trigger] spaces@.contains(y) by {
                    assert(spaces@[before.index_of(y)] == y);
                }
                assert(!before.contains(x));
            }
        }
        g += 1;
    }
    let ghost unsorted = spaces@;
    sort_triples(&mut spaces);
    proof {
        lemma_same_items(spaces@, unsorted);
        assert forall|k: int| 0 <= k < spaces@.len() implies {
            let s = #[trigger] spaces@[k];
            &&& s.1 % 32 == 0
            &&& s.1 + 32 <= 4096
            &&& s.0 < 10
            &&& s.0 == group_taken(row@, s.1 as int)
        } by {
            assert(spaces@.contains(spaces@[k]));
            assert(unsorted.contains(spaces@[k]));
        }
        assert forall|g: int| 0 <= g < 128 && #[trigger] group_taken(row@, g * 32) < 10 implies exists|k: int|
            0 <= k < spaces@.len() && #[trigger] spaces@[k].1 == g * 32 by {
            let x: (usize, usize, usize) = (group_taken(row@, g * 32) as usize, (g * 32) as usize, 0);
            assert(unsorted.contains(x));
            assert(spaces@.contains(x));
            let k = spaces@.index_of(x);
            assert(spaces@[k].1 == g * 32);
        }
        lemma_same_distinct(spaces@, unsorted);
        if forall|j: int| 0 <= j < 4096 ==> row@[j] == usize::MAX {
            assert forall|i: int| 0 <= i < spaces@.len() implies (#[trigger] spaces@[i]).0 == 0 by {
                assert(spaces@.contains(spaces@[i]));
                assert(unsorted.contains(spaces@[i]));
                let at = spaces@[i].1 as int;
                let part = row@.subrange(at, at + 32);
                assert forall|k: int| 0 <= k < 32 implies part[k] == usize::MAX by {
                    assert(row@[at + k] == usize::MAX);
                }
                lemma_row_count(part, usize::MAX);
            }
            assert forall|i: int, j: int| 0 <= i < j < spaces@.len() implies (#[trigger] spaces@[i]).1 < (
            #[trigger] spaces@[j]).1 by {
                assert(crate::sorting::triple_le(spaces@[i], spaces@[j]));
                assert(spaces@.contains(spaces@[i]) && spaces@.contains(spaces@[j]));
                assert(unsorted.contains(spaces@[i]) && unsorted.contains(spaces@[j]));
                assert(spaces@[i] != spaces@[j]);
            }
            assert forall|k: int| 0 <= k < 128 implies (#[trigger] spaces@[k]).1 == 32 * k by {
                lemma_all_spaces(spaces@, k);
                lemma_all_spaces_end(spaces@, k);
            }
        }
        reveal(spaces_apart);
        assert forall|i: int, k: int|
            0 <= i < spaces@.len() && 0 <= k < spaces@.len() && i != k implies (#[trigger] spaces@[i]).1 != (
        #[trigger] spaces@[k]).1 by {
            assert(spaces@.contains(spaces@[i]) && spaces@.contains(spaces@[k]));
            assert(unsorted.contains(spaces@[i]) && unsorted.contains(spaces@[k]));
        }
    }
    spaces
}

/// The level 1 targets from position `e` on are necessary pins that are not
/// placed yet.
spec fn pending_from(
    lvl1: Seq<usize>,
    e: int,
    targets: Seq<usize>,
    necessary: Seq<usize>,
    count: Map<usize, usize>,
) -> bool {
    &&& 0 <= e <= lvl1.len()
    &&& lvl1.no_duplicates()
    &&& forall|k: int|
        0 <= k < lvl1.len() ==> targets.contains(#[trigger] lvl1[k]) && necessary.contains(lvl1[k])
    &&& forall|k: int| e <= k < lvl1.len() ==> !count.contains_key(#[trigger] lvl1[k])
}

/// The positions of an element in a sequence of distinct elements are one.
pub(crate) proof fn lemma_no_dup_pair(s: Seq<usize>, i: int, j: int)
    requires
        s.no_duplicates(),
        0 <= i < s.len(),
        0 <= j < s.len(),
        s[i] == s[j],
    ensures
        i == j,
{
}

/// Targets that are realized are placed, each of them once.
spec fn realized_ok(targets: Seq<usize>, count: Map<usize, usize>, realized: Seq<usize>) -> bool {
    &&& realized.no_duplicates()
    &&& forall|x: usize| #[trigger] realized.contains(x) ==> targets.contains(x) && count.contains_key(x)
}

/// Is the pin in the group of 32 slots of the first row of gates?
spec fn in_group(hier: Seq<Vec<usize>>, at: int, v: usize) -> bool {
    exists|j: int| at <= j < at + 32 && #[trigger] cell(hier, 1, j) == v
}

/// Is the slot vacant, or does it hold a target that is not realized?
spec fn slot_useful(hier: Seq<Vec<usize>>, targets: Seq<usize>, realized: Seq<usize>, j: int) -> bool {
    vacant(hier, 1, j) || (targets.contains(cell(hier, 1, j)) && !realized.contains(cell(hier, 1, j)))
}

/// Is the slot taken, and, where nothing was moved, was it before, and is the
/// target in it realized?
spec fn slot_done(
    hier: Seq<Vec<usize>>,
    before: Seq<Vec<usize>>,
    targets: Seq<usize>,
    realized: Seq<usize>,
    from: usize,
    to: usize,
    k: int,
) -> bool {
    &&& !vacant(hier, 1, k)
    &&& from == to ==> !vacant(before, 1, k) && (targets.contains(cell(before, 1, k)) ==> realized.contains(
        cell(before, 1, k),
    ))
}

/// The row with pins from slot `at` on.
spec fn row_with(row: Seq<usize>, at: int, pins: Seq<usize>) -> Seq<usize> {
    Seq::new(
        row.len(),
        |k: int|
            if at <= k < at + pins.len() {
                pins[k - at]
            } else {
                row[k]
            },
    )
}

/// The first row of gates with the given pins and nothing else.
pub open spec fn packed_row(pins: Seq<usize>) -> Seq<usize> {
    Seq::new(
        4096,
        |k: int|
            if k < pins.len() {
                pins[k]
            } else {
                usize::MAX
            },
    )
}

/// The first words of the results of the first row of gates, as many as `n` pins
/// take.
pub open spec fn packed_words(n: int) -> Seq<usize> {
    Seq::new(((n + 31) / 32) as nat, |g: int| (128 + g) as usize)
}

/// Moves targets of level 1 into the vacant slots of a group, and collects the
/// targets in that group.
fn fill_group(
    aig: &AIG,
    cone: &Cone,
    targets: &IndexSet<usize>,
    lvl1: &Vec<usize>,
    at: usize,
    e: usize,
    hier: &mut Vec<Vec<usize>>,
    count: &mut IndexMap<usize, usize>,
    realized: &mut IndexSet<usize>,
    Ghost(done): Ghost<Set<usize>>,
    Ghost(necessary): Ghost<Seq<usize>>,
    Ghost(h0): Ghost<Seq<Vec<usize>>>,
    Ghost(c0): Ghost<Map<usize, usize>>,
    Ghost(placed): Ghost<Seq<usize>>,
) -> (r: (usize, Ghost<Seq<usize>>))
    requires
        aig.drivers_wf(),
        cone.graded(*aig, done),
        fits_level_one(*cone, necessary),
        filled(*aig, done, *cone, necessary, h0, c0, old(hier)@, map_view(*old(count)), placed),
        at + 32 <= 4096,
        pending_from(lvl1@, e as int, set_items(*targets), necessary, map_view(*old(count))),
        realized_ok(set_items(*targets), map_view(*old(count)), set_items(*old(realized))),
    ensures
        filled(*aig, done, *cone, necessary, h0, c0, final(hier)@, map_view(*final(count)), r.1@),
        e <= r.0,
        pending_from(lvl1@, r.0 as int, set_items(*targets), necessary, map_view(*final(count))),
        realized_ok(set_items(*targets), map_view(*final(count)), set_items(*final(realized))),
        set_items(*old(realized)).is_prefix_of(set_items(*final(realized))),
        forall|k: int| e <= k < r.0 ==> set_items(*final(realized)).contains(#[trigger] lvl1@[k]),
        forall|x: usize| #[trigger]
            set_items(*final(realized)).contains(x) ==> set_items(*old(realized)).contains(x) || in_group(
                final(hier)@,
                at as int,
                x,
            ),
        forall|h: int, k: int| #[trigger]
            is_slot(h, k) && !vacant(old(hier)@, h, k) ==> cell(final(hier)@, h, k) == cell(old(hier)@, h, k),
        r.0 < lvl1@.len() ==> forall|j: int| at <= j < at + 32 ==> !#[trigger] vacant(final(hier)@, 1, j),
        forall|k: int|
            0 <= k < 4096 && !(at <= k < at + 32) ==> #[trigger] cell(final(hier)@, 1, k) == cell(old(hier)@, 1, k),
        r.0 == lvl1@.len() || r.0 - e == row_count(
            old(hier)@[1]@.subrange(at as int, at + 32),
            usize::MAX,
        ),
        e <= lvl1@.len() ==> r.0 <= lvl1@.len(),
        e < lvl1@.len() && (exists|j: int|
            at <= j < at + 32 && #[trigger] slot_useful(
                old(hier)@,
                set_items(*targets),
                set_items(*old(realized)),
                j,
            )) ==> set_items(*final(realized)).len() > set_items(*old(realized)).len(),
        (forall|k: int| at <= k < at + 32 ==> old(hier)@[1]@[k] == usize::MAX) ==> r.0 == (if lvl1@.len() - e < 32 {
            lvl1@.len() as int
        } else {
            e + 32
        }) && final(hier)@[1]@ == row_with(old(hier)@[1]@, at as int, lvl1@.subrange(e as int, r.0 as int)),
{
    let ghost tgt = set_items(*targets);
    let ghost r0 = set_items(*realized);
    let ghost hs = hier@;
    let ghost mut now = placed;
    let mut cur: usize = e;
    let mut j: usize = at;
    proof {
        assert(hier@[1]@.len() == width(1));
        assert(lvl1@.subrange(e as int, e as int) =~= Seq::<usize>::empty());
        assert(row_with(hs[1]@, at as int, Seq::empty()) =~= hs[1]@);
        assert(hs[1]@.subrange(at as int, at as int) =~= Seq::<usize>::empty());
    }
    while j < at + 32 && cur < lvl1.len()
        invariant
            aig.drivers_wf(),
            cone.graded(*aig, done),
            fits_level_one(*cone, necessary),
            at + 32 <= 4096,
            at <= j <= at + 32,
            e <= cur,
            tgt == set_items(*targets),
            hs == old(hier)@,
            r0 == set_items(*old(realized)),
            shaped(hs),
            filled(*aig, done, *cone, necessary, h0, c0, hier@, map_view(*count), now),
            pending_from(lvl1@, cur as int, tgt, necessary, map_view(*count)),
            realized_ok(tgt, map_view(*count), set_items(*realized)),
            r0.is_prefix_of(set_items(*realized)),
            forall|k: int| e <= k < cur ==> set_items(*realized).contains(#[trigger] lvl1@[k]),
            forall|x: usize| #[trigger]
                set_items(*realized).contains(x) ==> r0.contains(x) || in_group(hier@, at as int, x),
            forall|h: int, k: int| #[trigger] is_slot(h, k) && !vacant(hs, h, k) ==> cell(hier@, h, k) == cell(hs, h,
                k),
            forall|k: int| j <= k < 4096 ==> #[trigger] cell(hier@, 1, k) == cell(hs, 1, k),
            forall|k: int|
                at <= k < j ==> #[trigger] slot_done(hier@, hs, tgt, set_items(*realized), e, cur, k),
            cur > e ==> set_items(*realized).len() > r0.len(),
            e <= lvl1@.len(),
            cur <= lvl1@.len(),
            hs[1]@.len() == 4096,
            cur - e == row_count(hs[1]@.subrange(at as int, j as int), usize::MAX),
            forall|k: int| 0 <= k < at ==> #[trigger] cell(hier@, 1, k) == cell(hs, 1, k),
            (forall|k: int| at <= k < at + 32 ==> hs[1]@[k] == usize::MAX) ==> cur == e + (j - at) && hier@[1]@
                == row_with(hs[1]@, at as int, lvl1@.subrange(e as int, cur as int)),
        decreases at + 32 - j,
    {
        let ghost h1 = hier@;
        let ghost r1 = set_items(*realized);
        let ghost cur1 = cur;
        assert(hier@[1]@.len() == width(1));
        assert(is_slot(1, j as int));
        assert(cell(hier@, 1, j as int) == cell(hs, 1, j as int));
        let held = hier[1][j];
        assert(hs[1]@.subrange(at as int, j + 1).drop_last() =~= hs[1]@.subrange(at as int, j as int));
        if held == usize::MAX {
            let nd = lvl1[cur];
            assert(!r1.contains(nd));
            place_level_one(
                aig,
                cone,
                hier,
                count,
                j,
                nd,
                Ghost(done),
                Ghost(necessary),
                Ghost(h0),
                Ghost(c0),
                Ghost(now),
            );
            proof {
                now = now.push(nd);
                assert(cell(hier@, 1, j as int) == nd);
                assert(nd <= aig.num_aigpins);
                lemma_counted(hier@, map_view(*count));
                if forall|k: int| at <= k < at + 32 ==> hs[1]@[k] == usize::MAX {
                    assert(row_with(hs[1]@, at as int, lvl1@.subrange(e as int, cur + 1)) =~= row_with(
                        hs[1]@,
                        at as int,
                        lvl1@.subrange(e as int, cur as int),
                    ).update(j as int, nd));
                }
            }
            set_add(realized, nd);
            cur += 1;
        } else if set_contains(targets, held) {
            set_add(realized, held);
            proof {
                lemma_counted(hier@, map_view(*count));
                assert(holds(hier@, held)) by {
                    assert(cell(hier@, 1, j as int) == held);
                }
            }
        }
        proof {
            assert forall|x: usize| #[trigger] set_items(*realized).contains(x) implies r0.contains(x) || in_group(
                hier@,
                at as int,
                x,
            ) by {
                if r1.contains(x) {
                    if !r0.contains(x) {
                        let k = choose|k: int| at <= k < at + 32 && #[trigger] cell(h1, 1, k) == x;
                        lemma_in_tree_pin(*aig, done, *cone, tgt, map_view(*count), set_items(*realized), x);
                        assert(is_slot(1, k));
                        assert(!vacant(h1, 1, k));
                        assert(cell(hier@, 1, k) == x);
                    }
                } else {
                    assert(cell(hier@, 1, j as int) == x);
                }
            }
            assert forall|h: int, k: int| #[trigger] is_slot(h, k) && !vacant(hs, h, k) implies cell(hier@, h,
                k) == cell(
                hs,
                h,
                k,
            ) by {
                assert(!vacant(h1, h, k));
            }
            assert forall|k: int| 0 <= k < at implies #[trigger] cell(hier@, 1, k) == cell(hs, 1, k) by {
                assert(cell(h1, 1, k) == cell(hs, 1, k));
            }
            assert forall|k: int| j + 1 <= k < 4096 implies #[trigger] cell(hier@, 1, k) == cell(hs, 1, k) by {
                assert(cell(h1, 1, k) == cell(hs, 1, k));
            }
            assert forall|k: int| at <= k < j + 1 implies #[trigger] slot_done(
                hier@,
                hs,
                tgt,
                set_items(*realized),
                e,
                cur,
                k,
            ) by {
                if k < j {
                    assert(is_slot(1, k));
                    assert(slot_done(h1, hs, tgt, r1, e, cur1, k));
                }
            }
        }
        j += 1;
    }
    proof {
        if e < lvl1@.len() && (exists|j: int| at <= j < at + 32 && #[trigger] slot_useful(hs, tgt, r0, j)) {
            let k = choose|j: int| at <= j < at + 32 && #[trigger] slot_useful(hs, tgt, r0, j);
            if cur == e {
                assert(slot_done(hier@, hs, tgt, set_items(*realized), e, cur, k));
                assert(set_items(*realized).contains(cell(hs, 1, k)));
                if set_items(*realized).len() == r0.len() {
                    assert(set_items(*realized) =~= r0);
                }
            }
        }
        if cur < lvl1@.len() {
            assert forall|j: int| at <= j < at + 32 implies !#[trigger] vacant(hier@, 1, j) by {
                assert(slot_done(hier@, hs, tgt, set_items(*realized), e, cur, j));
            }
        }
    }
    (cur, Ghost(now))
}

/// Pins are not the vacancy mark.
proof fn lemma_in_tree_pin(
    aig: AIG,
    done: Set<usize>,
    cone: Cone,
    targets: Seq<usize>,
    count: Map<usize, usize>,
    realized: Seq<usize>,
    x: usize,
)
    requires
        realized_ok(targets, count, realized),
        !count.contains_key(usize::MAX),
        realized.contains(x),
    ensures
        x != usize::MAX,
{
}

/// None of them is.
proof fn lemma_in_tree_pins(
    aig: AIG,
    done: Set<usize>,
    cone: Cone,
    targets: Seq<usize>,
    count: Map<usize, usize>,
    realized: Seq<usize>,
)
    requires
        realized_ok(targets, count, realized),
        !count.contains_key(usize::MAX),
    ensures
        !realized.contains(usize::MAX),
{
}

/// Is there a slot in the group that is vacant, or that holds a target that is
/// not realized?
fn group_useful(
    row: &Vec<usize>,
    targets: &IndexSet<usize>,
    realized: &IndexSet<usize>,
    at: usize,
    Ghost(hier): Ghost<Seq<Vec<usize>>>,
) -> (b: bool)
    requires
        shaped(hier),
        row@ == hier[1]@,
        at + 32 <= 4096,
    ensures
        b == exists|j: int|
            at <= j < at + 32 && #[trigger] slot_useful(hier, set_items(*targets), set_items(*realized), j),
{
    let mut j: usize = at;
    assert(hier[1]@.len() == width(1));
    while j < at + 32
        invariant
            shaped(hier),
            row@ == hier[1]@,
            row@.len() == 4096,
            at + 32 <= 4096,
            at <= j <= at + 32,
            forall|k: int|
                at <= k < j ==> !#[trigger] slot_useful(hier, set_items(*targets), set_items(*realized), k),
        decreases at + 32 - j,
    {
        let held = row[j];
        assert(cell(hier, 1, j as int) == held);
        if held == usize::MAX || (set_contains(targets, held) && !set_contains(realized, held)) {
            assert(slot_useful(hier, set_items(*targets), set_items(*realized), j as int));
            return true;
        }
        j += 1;
    }
    false
}

/// Are all slots of the group taken?
spec fn group_full(hier: Seq<Vec<usize>>, at: int) -> bool {
    forall|j: int| at <= j < at + 32 ==> !#[trigger] vacant(hier, 1, j)
}

/// The targets that a stage writes out, and the words in which they are.
struct Packed {
    realized: IndexSet<usize>,
    write_outs: Vec<usize>,
}

/// Does the word hold one of the pins?
pub open spec fn word_holds(hier: Seq<Vec<usize>>, pins: Seq<usize>, w: usize) -> bool {
    exists|h: int, j: int|
        1 <= h && is_slot(h, j) && word_of(h, j) == w && pins.contains(#[trigger] cell(hier, h, j))
}

/// Are the words different, and does each of them hold one of the pins?
#[verifier::opaque]
pub open spec fn words_useful(hier: Seq<Vec<usize>>, pins: Seq<usize>, words: Seq<usize>) -> bool {
    &&& words.no_duplicates()
    &&& forall|i: int| 0 <= i < words.len() ==> word_holds(hier, pins, #[trigger] words[i])
}

/// Words stay useful when vacant slots are filled and further pins are added.
proof fn lemma_useful_grows(
    h0: Seq<Vec<usize>>,
    p0: Seq<usize>,
    h1: Seq<Vec<usize>>,
    p1: Seq<usize>,
    words: Seq<usize>,
)
    requires
        words_useful(h0, p0, words),
        !p0.contains(usize::MAX),
        forall|x: usize| #[trigger] p0.contains(x) ==> p1.contains(x),
        forall|h: int, j: int| #[trigger] is_slot(h, j) && !vacant(h0, h, j) ==> cell(h1, h, j) == cell(h0, h, j),
    ensures
        words_useful(h1, p1, words),
{
    reveal(words_useful);
    assert forall|i: int| 0 <= i < words.len() implies word_holds(h1, p1, #[trigger] words[i]) by {
        assert(word_holds(h0, p0, words[i]));
        let (h, j) = choose|h: int, j: int|
            1 <= h && is_slot(h, j) && word_of(h, j) == words[i] && p0.contains(#[trigger] cell(h0, h, j));
        assert(!vacant(h0, h, j));
        assert(p1.contains(cell(h1, h, j)));
    }
}

/// The word of a group in which targets become realized is a further useful
/// one.
proof fn lemma_group_packed(
    h0: Seq<Vec<usize>>,
    h1: Seq<Vec<usize>>,
    r0: Seq<usize>,
    r1: Seq<usize>,
    spaces: Seq<(usize, usize, usize)>,
    n: int,
    w0: Seq<usize>,
    w1: Seq<usize>,
)
    requires
        0 <= n < spaces.len(),
        forall|k: int| 0 <= k < spaces.len() ==> (#[trigger] spaces[k]).1 % 32 == 0 && spaces[k].1 + 32 <= 4096,
        spaces_apart(spaces),
        words_of_groups(w0, spaces, n),
        words_useful(h0, r0, w0),
        r0.is_prefix_of(r1),
        r1.len() > r0.len(),
        r1.no_duplicates(),
        !r1.contains(usize::MAX),
        w1 == w0.push(((spaces[n].1 + 4096) / 32) as usize),
        forall|x: usize| #[trigger] r1.contains(x) ==> r0.contains(x) || in_group(h1, spaces[n].1 as int, x),
        forall|h: int, j: int| #[trigger] is_slot(h, j) && !vacant(h0, h, j) ==> cell(h1, h, j) == cell(h0, h, j),
    ensures
        words_useful(h1, r1, w1),
        words_of_groups(w1, spaces, n + 1),
{
    let at = spaces[n].1;
    let word: usize = ((at + 4096) / 32) as usize;
    assert forall|x: usize| #[trigger] r0.contains(x) implies r1.contains(x) by {
        assert(r1[r0.index_of(x)] == x);
    }
    lemma_useful_grows(h0, r0, h1, r1, w0);
    let x = r1[r0.len() as int];
    assert(r1.contains(x));
    if r0.contains(x) {
        assert(r1[r0.index_of(x)] == x);
        lemma_no_dup_pair(r1, r0.index_of(x), r0.len() as int);
    }
    let j = choose|j: int| at <= j < at + 32 && #[trigger] cell(h1, 1, j) == x;
    assert(is_slot(1, j));
    assert(word_of(1, j) == word);
    assert(word_holds(h1, r1, word)) by {
        assert(r1.contains(cell(h1, 1, j)));
    }
    reveal(words_of_groups);
    reveal(spaces_apart);
    reveal(words_useful);
    assert(!w0.contains(word)) by {
        if w0.contains(word) {
            let i = w0.index_of(word);
            assert(from_groups(w0[i], spaces, n));
            let k = choose|k: int| 0 <= k < n && #[trigger] is_group_word(w0[i], spaces, k);
            assert(spaces[k].1 % 32 == 0 && spaces[n].1 % 32 == 0);
            assert(spaces[k].1 == spaces[n].1);
        }
    }
    assert forall|i: int| 0 <= i < w1.len() implies word_holds(h1, r1, #[trigger] w1[i]) by {
        if i < w0.len() {
            assert(w1[i] == w0[i]);
        }
    }
    lemma_groups_further(w0, spaces, n);
    assert forall|i: int| 0 <= i < w1.len() implies from_groups(#[trigger] w1[i], spaces, n + 1) by {
        if i < w0.len() {
            assert(from_groups(w0[i], spaces, n + 1));
        } else {
            assert(is_group_word(w1[i], spaces, n));
        }
    }
}

impl Packed {
    /// The words exist, and there are no more of them than targets in them.
    spec fn ok(
        self,
        targets: Seq<usize>,
        hier: Seq<Vec<usize>>,
        count: Map<usize, usize>,
    ) -> bool {
        &&& realized_ok(targets, count, set_items(self.realized))
        &&& forall|x: usize| #[trigger]
            set_items(self.realized).contains(x) ==> written(hier, self.write_outs@, x)
        &&& self.write_outs@.len() <= set_items(self.realized).len()
        &&& words_useful(hier, set_items(self.realized), self.write_outs@)
        &&& forall|i: int| 0 <= i < self.write_outs@.len() ==> #[trigger] self.write_outs@[i] < 256
    }
}

/// Are the groups from the given one on as they were?
#[verifier::opaque]
spec fn groups_kept(h0: Seq<Vec<usize>>, hier: Seq<Vec<usize>>, spaces: Seq<(usize, usize, usize)>, from: int) -> bool {
    forall|k: int|
        from <= k < spaces.len() ==> hier[1]@.subrange((#[trigger] spaces[k]).1 as int, spaces[k].1 + 32)
            == h0[1]@.subrange(spaces[k].1 as int, spaces[k].1 + 32)
}

/// Filling a group keeps the ones behind it.
proof fn lemma_groups_kept(
    h0: Seq<Vec<usize>>,
    a: Seq<Vec<usize>>,
    b: Seq<Vec<usize>>,
    spaces: Seq<(usize, usize, usize)>,
    at: int,
)
    requires
        groups_kept(h0, a, spaces, at),
        0 <= at < spaces.len(),
        spaces_apart(spaces),
        a[1]@.len() == 4096,
        b[1]@.len() == 4096,
        forall|k: int| 0 <= k < spaces.len() ==> (#[trigger] spaces[k]).1 % 32 == 0 && spaces[k].1 + 32 <= 4096,
        forall|k: int|
            0 <= k < 4096 && !(spaces[at].1 <= k < spaces[at].1 + 32) ==> #[trigger] cell(b, 1, k) == cell(a, 1, k),
    ensures
        groups_kept(h0, b, spaces, at + 1),
{
    reveal(groups_kept);
    reveal(spaces_apart);
    assert forall|k: int| at + 1 <= k < spaces.len() implies b[1]@.subrange(
        (#[trigger] spaces[k]).1 as int,
        spaces[k].1 + 32,
    ) == h0[1]@.subrange(spaces[k].1 as int, spaces[k].1 + 32) by {
        let x = spaces[k].1 as int;
        assert(spaces[at].1 != x);
        assert(b[1]@.subrange(x, x + 32) =~= a[1]@.subrange(x, x + 32)) by {
            assert forall|y: int| x <= y < x + 32 implies b[1]@[y] == a[1]@[y] by {
                assert(cell(b, 1, y) == cell(a, 1, y));
            }
        }
    }
}

/// Is no group of 32 slots of the first row of gates almost empty?
#[verifier::opaque]
pub open spec fn is_busy(hier: Seq<Vec<usize>>) -> bool {
    forall|g: int| 0 <= g < 128 ==> #[trigger] group_taken(hier[1]@, g * 32) >= 10
}

/// Is the pin behind the first row of gates, or in a slot of that row below one
/// that is taken?
pub open spec fn is_woven(hier: Seq<Vec<usize>>, v: usize) -> bool {
    exists|h: int, j: int|
        1 <= h && is_slot(h, j) && #[trigger] cell(hier, h, j) == v && (h >= 2 || !vacant(
            hier,
            2,
            if j < 2048 {
                j
            } else {
                j - 2048
            },
        ))
}

/// Are these pins in the first row of gates, with nothing above them?
pub open spec fn all_spare(hier: Seq<Vec<usize>>, pins: Seq<usize>) -> bool {
    forall|x: usize| #[trigger] pins.contains(x) ==> holds(hier, x) && !is_woven(hier, x)
}

/// Are these some of the targets that are not finished?
pub open spec fn all_open(pins: Seq<usize>, targets: Seq<usize>, finished: Seq<usize>) -> bool {
    forall|x: usize| #[trigger] pins.contains(x) ==> targets.contains(x) && !finished.contains(x)
}

/// Are fewer pins than a group has slots left, of the given targets?
#[verifier::opaque]
spec fn few_open(targets: Seq<usize>, finished: Seq<usize>) -> bool {
    forall|s: Seq<usize>| s.no_duplicates() && #[trigger] all_open(s, targets, finished) ==> s.len() < 32
}

/// Of the unfinished targets in the first row of gates with nothing above them,
/// are there fewer than a group has slots, unless no group is almost empty?
#[verifier::opaque]
spec fn few_spare(hier: Seq<Vec<usize>>, targets: Seq<usize>, finished: Seq<usize>) -> bool {
    is_busy(hier) || forall|s: Seq<usize>|
        s.no_duplicates() && #[trigger] all_open(s, targets, finished) && all_spare(hier, s) ==> s.len() < 32
}

/// Were targets written out early, group by group: are there fewer than 32 that are
/// left over in the first row of gates with nothing above them, unless no group of
/// the row is almost empty?
#[verifier::opaque]
pub open spec fn is_early(hier: Seq<Vec<usize>>, rest: Seq<usize>) -> bool {
    is_busy(hier) || forall|s: Seq<usize>|
        s.no_duplicates() && s.to_set().subset_of(rest.to_set()) && #[trigger] all_spare(hier, s) ==> s.len() < 32
}

/// A row stays busy when more is placed.
proof fn lemma_busy_more(h1: Seq<Vec<usize>>, h2: Seq<Vec<usize>>)
    requires
        is_busy(h1),
        shaped(h1),
        shaped(h2),
        forall|h: int, k: int| #[trigger] is_slot(h, k) && !vacant(h1, h, k) ==> cell(h2, h, k) == cell(h1, h, k),
    ensures
        is_busy(h2),
{
    reveal(is_busy);
    assert(h1[1]@.len() == width(1) && h2[1]@.len() == width(1));
    assert forall|g: int| 0 <= g < 128 implies #[trigger] group_taken(h2[1]@, g * 32) >= 10 by {
        let a = h1[1]@.subrange(g * 32, g * 32 + 32);
        let b = h2[1]@.subrange(g * 32, g * 32 + 32);
        assert(group_taken(h1[1]@, g * 32) >= 10);
        assert forall|i: int| 0 <= i < 32 && a[i] != usize::MAX implies b[i] == a[i] by {
            assert(is_slot(1, g * 32 + i));
            assert(!vacant(h1, 1, g * 32 + i));
            assert(cell(h2, 1, g * 32 + i) == cell(h1, 1, g * 32 + i));
        }
        super::fill::lemma_row_fewer(a, b);
    }
}

/// Packs targets of level 1 into groups of 32 slots, which are written out.
///
/// Unless all targets are about to be finished, a group is filled only if
/// there are enough targets for all its vacant slots.
fn pack_level_one(
    aig: &AIG,
    cone: &Cone,
    targets: &IndexSet<usize>,
    lvl1: &Vec<usize>,
    exhaust: bool,
    hier: &mut Vec<Vec<usize>>,
    count: &mut IndexMap<usize, usize>,
    Ghost(done): Ghost<Set<usize>>,
    Ghost(necessary): Ghost<Seq<usize>>,
) -> (r: (Packed, Ghost<Seq<usize>>))
    requires
        aig.drivers_wf(),
        cone.graded(*aig, done),
        fits_level_one(*cone, necessary),
        grid_ok(*aig, done, *cone, old(hier)@, map_view(*old(count)), 1),
        pending_from(lvl1@, 0, set_items(*targets), necessary, map_view(*old(count))),
    ensures
        filled(
            *aig,
            done,
            *cone,
            necessary,
            old(hier)@,
            map_view(*old(count)),
            final(hier)@,
            map_view(*final(count)),
            r.1@,
        ),
        r.0.ok(set_items(*targets), final(hier)@, map_view(*final(count))),
        23 * r.0.write_outs@.len() <= lvl1@.len() + 22,
        exhaust ==> (forall|k: int|
            0 <= k < lvl1@.len() ==> set_items(r.0.realized).contains(#[trigger] lvl1@[k])) || is_busy(final(hier)@),
        few_open(lvl1@, set_items(r.0.realized)) || is_busy(final(hier)@),
        !exhaust ==> 23 * r.0.write_outs@.len() <= set_items(r.0.realized).len(),
        exhaust && (forall|j: int| 0 <= j < 4096 ==> #[trigger] vacant(old(hier)@, 1, j)) ==> (forall|k: int|
            0 <= k < lvl1@.len() ==> set_items(r.0.realized).contains(#[trigger] lvl1@[k])) || (forall|j: int|
            0 <= j < 4096 ==> !#[trigger] vacant(final(hier)@, 1, j)),
        exhaust && lvl1@.len() <= 4096 && old(hier)@[1]@ == packed_row(Seq::empty()) ==> final(hier)@[1]@ == packed_row(
            lvl1@,
        ) && r.0.write_outs@ == packed_words(lvl1@.len() as int),
{
    let ghost tgt = set_items(*targets);
    let ghost h0 = hier@;
    let ghost c0 = map_view(*count);
    let ghost mut placed = Seq::<usize>::empty();
    assert(hier@[1]@.len() == width(1));
    let spaces = find_spaces(&hier[1]);
    let mut packed = Packed { realized: set_new(), write_outs: Vec::new() };
    proof {
        reveal(words_of_groups);
        reveal(words_useful);
    }
    let mut e: usize = 0;
    let mut spaces_j: usize = 0;
    assert(groups_kept(h0, hier@, spaces@, 0)) by {
        reveal(groups_kept);
    }
    let ghost whole = exhaust && lvl1@.len() <= 4096 && h0[1]@ == packed_row(Seq::empty());
    proof {
        assert(lvl1@.take(0) =~= Seq::<usize>::empty());
        assert(packed.write_outs@ =~= packed_words(0));
    }
    while spaces_j < spaces.len() && (exhaust || lvl1.len() - e >= 32 - spaces[spaces_j].0)
        invariant
            aig.drivers_wf(),
            cone.graded(*aig, done),
            fits_level_one(*cone, necessary),
            tgt == set_items(*targets),
            spaces_j <= spaces@.len(),
            forall|k: int|
                0 <= k < spaces@.len() ==> {
                    let s = #[trigger] spaces@[k];
                    &&& s.1 % 32 == 0
                    &&& s.1 + 32 <= 4096
                    &&& s.0 < 10
                    &&& s.0 == group_taken(h0[1]@, s.1 as int)
                },
            e <= lvl1@.len(),
            e < lvl1@.len() ==> 23 * packed.write_outs@.len() <= e,
            23 * packed.write_outs@.len() <= e + 22,
            !exhaust ==> 23 * packed.write_outs@.len() <= e,
            groups_kept(h0, hier@, spaces@, spaces_j as int),
            filled(*aig, done, *cone, necessary, h0, c0, hier@, map_view(*count), placed),
            pending_from(lvl1@, e as int, tgt, necessary, map_view(*count)),
            packed.ok(tgt, hier@, map_view(*count)),
            forall|k: int| 0 <= k < e ==> set_items(packed.realized).contains(#[trigger] lvl1@[k]),
            e < lvl1@.len() ==> forall|k: int|
                0 <= k < spaces_j ==> group_full(hier@, #[trigger] spaces@[k].1 as int),
            whole == (exhaust && lvl1@.len() <= 4096 && h0[1]@ == packed_row(Seq::empty())),
            whole ==> all_spaces(spaces@) && e == (if 32 * spaces_j < lvl1@.len() {
                32 * spaces_j
            } else {
                lvl1@.len() as int
            }) && hier@[1]@ == packed_row(lvl1@.take(e as int)) && packed.write_outs@ == packed_words(e as int),
            spaces_apart(spaces@),
            words_of_groups(packed.write_outs@, spaces@, spaces_j as int),
        decreases spaces@.len() - spaces_j,
    {
        let at = spaces[spaces_j].1;
        let ghost h1 = hier@;
        let ghost w1 = packed.write_outs@;
        let ghost r1 = set_items(packed.realized);
        let ghost e1 = e;
        let useful = group_useful(&hier[1], targets, &packed.realized, at, Ghost(hier@));
        proof {
            if whole {
                assert(at == 32 * spaces_j);
                if e < lvl1@.len() {
                    assert(e == at);
                    assert forall|k: int| at <= k < at + 32 implies hier@[1]@[k] == usize::MAX by {}
                    assert(cell(hier@, 1, at as int) == usize::MAX);
                    assert(slot_useful(hier@, tgt, r1, at as int));
                }
            }
        }
        if e >= lvl1.len() || !useful {
            proof {
                if e < lvl1@.len() {
                    assert forall|j: int| at <= j < at + 32 implies !#[trigger] vacant(hier@, 1, j) by {
                        assert(!slot_useful(hier@, tgt, r1, j));
                    }
                }
            }
            proof {
                lemma_groups_further(packed.write_outs@, spaces@, spaces_j as int);
                assert(groups_kept(h0, hier@, spaces@, spaces_j + 1)) by {
                    reveal(groups_kept);
                }
            }
            spaces_j += 1;
            continue ;
        }
        let (next, Ghost(now)) = fill_group(
            aig,
            cone,
            targets,
            lvl1,
            at,
            e,
            hier,
            count,
            &mut packed.realized,
            Ghost(done),
            Ghost(necessary),
            Ghost(h0),
            Ghost(c0),
            Ghost(placed),
        );
        e = next;
        proof {
            assert(h1[1]@.len() == width(1) && hier@[1]@.len() == width(1));
            assert(h1[1]@.subrange(at as int, at + 32) == h0[1]@.subrange(at as int, at + 32)) by {
                reveal(groups_kept);
                assert(spaces@[spaces_j as int].1 == at);
            }
            lemma_groups_kept(h0, h1, hier@, spaces@, spaces_j as int);
        }
        packed.write_outs.push((at + 4096) / 32);
        proof {
            if whole {
                assert(row_with(h1[1]@, at as int, lvl1@.subrange(e1 as int, e as int)) =~= packed_row(
                    lvl1@.take(e as int),
                ));
                assert(packed.write_outs@ =~= packed_words(e as int));
            }
            placed = now;
            lemma_in_tree_pins(*aig, done, *cone, tgt, map_view(*count), set_items(packed.realized));
            lemma_group_packed(
                h1,
                hier@,
                r1,
                set_items(packed.realized),
                spaces@,
                spaces_j as int,
                w1,
                packed.write_outs@,
            );
            assert(packed.write_outs@[w1.len() as int] == (at + 4096) / 32);
            assert forall|x: usize| #[trigger] set_items(packed.realized).contains(x) implies written(
                hier@,
                packed.write_outs@,
                x,
            ) by {
                lemma_in_tree_pin(*aig, done, *cone, tgt, map_view(*count), set_items(packed.realized), x);
                if r1.contains(x) {
                    lemma_written_grows(h1, w1, hier@, packed.write_outs@, x);
                } else {
                    let j = choose|j: int| at <= j < at + 32 && #[trigger] cell(hier@, 1, j) == x;
                    assert(is_slot(1, j));
                    assert(word_of(1, j) == (at + 4096) / 32);
                    assert(cell(hier@, 1, j) == x && packed.write_outs@.contains(word_of(1, j)));
                }
            }
            assert forall|i: int| 0 <= i < packed.write_outs@.len() implies #[trigger] packed.write_outs@[i] < 256 by {
                if i < w1.len() {
                    assert(w1[i] < 256);
                }
            }
            if e < lvl1@.len() {
                assert forall|k: int| 0 <= k < spaces_j + 1 implies group_full(hier@,
                    #[trigger] spaces@[k].1 as int) by {
                    if k < spaces_j {
                        assert(group_full(h1, spaces@[k].1 as int));
                        assert forall|j: int| spaces@[k].1 <= j < spaces@[k].1 + 32 implies !#[trigger] vacant(
                            hier@,
                            1,
                            j,
                        ) by {
                            assert(!vacant(h1, 1, j));
                            assert(is_slot(1, j));
                        }
                    }
                }
            }
            assert forall|k: int| 0 <= k < e implies set_items(packed.realized).contains(#[trigger] lvl1@[k]) by {
                if k < e1 {
                    assert(r1.contains(lvl1@[k]));
                    assert(set_items(packed.realized)[r1.index_of(lvl1@[k])] == lvl1@[k]);
                }
            }
        }
        spaces_j += 1;
    }
    proof {
        if whole {
            assert(spaces_j == 128);
            assert(lvl1@.take(e as int) =~= lvl1@);
        }
        if exhaust && (forall|j: int| 0 <= j < 4096 ==> #[trigger] vacant(h0, 1, j)) && e < lvl1@.len() {
            assert(spaces_j == spaces@.len());
            assert forall|j: int| 0 <= j < 4096 implies !#[trigger] vacant(hier@, 1, j) by {
                let g = j / 32;
                let part = h0[1]@.subrange(g * 32, g * 32 + 32);
                assert forall|i: int| 0 <= i < 32 implies part[i] == usize::MAX by {
                    assert(vacant(h0, 1, g * 32 + i));
                }
                lemma_row_count(part, usize::MAX);
                assert(group_taken(h0[1]@, g * 32) < 10);
                let k = choose|k: int| 0 <= k < spaces@.len() && #[trigger] spaces@[k].1 == g * 32;
                assert(group_full(hier@, spaces@[k].1 as int));
            }
        }
    }
    proof {
        assert forall|x: usize| #[trigger] lvl1@.take(e as int).contains(x) implies set_items(
            packed.realized,
        ).contains(x) by {
            let k = lvl1@.take(e as int).index_of(x);
            assert(lvl1@[k] == x);
        }
        lemma_sub_len(lvl1@.take(e as int), set_items(packed.realized));
        if spaces_j < spaces@.len() || e == lvl1@.len() {
            reveal(few_open);
            let gone = set_items(packed.realized);
            assert forall|s: Seq<usize>| s.no_duplicates() && #[trigger] all_open(s, lvl1@, gone) implies s.len()
                < 32 by {
                assert forall|x: usize| #[trigger] s.contains(x) implies lvl1@.skip(e as int).contains(x) by {
                    let k = lvl1@.index_of(x);
                    assert(lvl1@[k] == x);
                    assert(lvl1@.skip(e as int)[k - e] == x);
                }
                lemma_sub_len(s, lvl1@.skip(e as int));
            }
        }
        if e < lvl1@.len() && spaces_j == spaces@.len() {
            reveal(is_busy);
            assert(h0[1]@.len() == width(1) && hier@[1]@.len() == width(1));
            assert forall|g: int| 0 <= g < 128 implies #[trigger] group_taken(hier@[1]@, g * 32) >= 10 by {
                let a = h0[1]@.subrange(g * 32, g * 32 + 32);
                let b = hier@[1]@.subrange(g * 32, g * 32 + 32);
                if group_taken(h0[1]@, g * 32) < 10 {
                    let k = choose|k: int| 0 <= k < spaces@.len() && #[trigger] spaces@[k].1 == g * 32;
                    assert(group_full(hier@, spaces@[k].1 as int));
                    lemma_row_count(b, usize::MAX);
                    if b.contains(usize::MAX) {
                        let i = b.index_of(usize::MAX);
                        assert(vacant(hier@, 1, g * 32 + i));
                    }
                } else {
                    assert forall|i: int| 0 <= i < 32 && a[i] != usize::MAX implies b[i] == a[i] by {
                        assert(is_slot(1, g * 32 + i));
                        assert(!vacant(h0, 1, g * 32 + i));
                        assert(cell(hier@, 1, g * 32 + i) == cell(h0, 1, g * 32 + i));
                    }
                    super::fill::lemma_row_fewer(a, b);
                }
            }
        }
    }
    (packed, Ghost(placed))
}

/// Distinct elements of a sequence are no more than its elements.
pub(crate) proof fn lemma_sub_len(a: Seq<usize>, b: Seq<usize>)
    requires
        a.no_duplicates(),
        forall|x: usize| #[trigger] a.contains(x) ==> b.contains(x),
    ensures
        a.len() <= b.len(),
{
    a.unique_seq_to_set();
    vstd::seq_lib::seq_to_set_is_finite(b);
    assert forall|x: usize| a.to_set().contains(x) implies b.to_set().contains(x) by {
        assert(a.contains(x));
    }
    vstd::set_lib::lemma_len_subset(a.to_set(), b.to_set());
    b.lemma_cardinality_of_set();
}

/// A full row takes as many pins as it has slots.
proof fn lemma_row_full(
    aig: AIG,
    done: Set<usize>,
    cone: Cone,
    necessary: Seq<usize>,
    h0: Seq<Vec<usize>>,
    c0: Map<usize, usize>,
    hier: Seq<Vec<usize>>,
    count: Map<usize, usize>,
    placed: Seq<usize>,
)
    requires
        filled(aig, done, cone, necessary, h0, c0, hier, count, placed),
        forall|j: int| 0 <= j < 4096 ==> !#[trigger] vacant(hier, 1, j),
    ensures
        taken(h0) + necessary.len() >= 4096,
{
    let row = hier[1]@;
    assert(row.len() == width(1));
    lemma_row_count(row, usize::MAX);
    if row.contains(usize::MAX) {
        let j = row.index_of(usize::MAX);
        assert(vacant(hier, 1, j));
    }
    lemma_sub_len(placed, necessary);
}

/// The next vacant slot of the first row of gates, from `from` on.
fn next_vacant(row: &Vec<usize>, from: usize) -> (r: Option<usize>)
    requires
        from <= row@.len(),
        forall|k: int| 0 <= k < from ==> row@[k] != usize::MAX,
    ensures
        match r {
            Some(i) => from <= i < row@.len() && row@[i as int] == usize::MAX && forall|k: int|
                0 <= k < i ==> row@[k] != usize::MAX,
            None => forall|k: int| 0 <= k < row@.len() ==> row@[k] != usize::MAX,
        },
{
    let mut i: usize = from;
    while i < row.len()
        invariant
            from <= i <= row@.len(),
            forall|k: int| 0 <= k < i ==> row@[k] != usize::MAX,
        decreases row@.len() - i,
    {
        if row[i] == usize::MAX {
            return Some(i);
        }
        i += 1;
    }
    None
}

/// Places the necessary pins that are not placed yet into any vacant slots,
/// and makes sure that a vacant slot is left for a constant. There is `None`
/// if the row is full.
fn place_rest(
    aig: &AIG,
    cone: &Cone,
    necessary: &IndexSet<usize>,
    hier: &mut Vec<Vec<usize>>,
    count: &mut IndexMap<usize, usize>,
    Ghost(done): Ghost<Set<usize>>,
    Ghost(h0): Ghost<Seq<Vec<usize>>>,
    Ghost(c0): Ghost<Map<usize, usize>>,
    Ghost(placed): Ghost<Seq<usize>>,
) -> (r: Option<Ghost<Seq<usize>>>)
    requires
        aig.drivers_wf(),
        cone.graded(*aig, done),
        fits_level_one(*cone, set_items(*necessary)),
        filled(*aig, done, *cone, set_items(*necessary), h0, c0, old(hier)@, map_view(*old(count)), placed),
    ensures
        r matches Some(p) ==> filled(
            *aig,
            done,
            *cone,
            set_items(*necessary),
            h0,
            c0,
            final(hier)@,
            map_view(*final(count)),
            p@,
        ),
        r is Some ==> forall|x: usize| #[trigger]
            set_items(*necessary).contains(x) ==> map_view(*final(count)).contains_key(x),
        r is Some ==> exists|j: int| 0 <= j < 4096 && #[trigger] vacant(final(hier)@, 1, j),
        forall|h: int, k: int| #[trigger]
            is_slot(h, k) && !vacant(old(hier)@, h, k) ==> cell(final(hier)@, h, k) == cell(old(hier)@, h, k),
        r is None ==> taken(h0) + set_items(*necessary).len() >= 4096,
        (forall|x: usize| #[trigger]
            set_items(*necessary).contains(x) ==> map_view(*old(count)).contains_key(x)) ==> final(hier)@ == old(
            hier,
        )@,
{
    let ghost nec = set_items(*necessary);
    let ghost hs = hier@;
    let ghost mut now = placed;
    let n = set_len(necessary);
    let mut hier1_j: usize = 0;
    let mut i: usize = 0;
    while i < n
        invariant
            aig.drivers_wf(),
            cone.graded(*aig, done),
            nec == set_items(*necessary),
            hs == old(hier)@,
            fits_level_one(*cone, nec),
            n == nec.len(),
            i <= n,
            filled(*aig, done, *cone, nec, h0, c0, hier@, map_view(*count), now),
            hier1_j <= 4096,
            forall|k: int| 0 <= k < hier1_j ==> hier@[1]@[k] != usize::MAX,
            forall|k: int| 0 <= k < i ==> map_view(*count).contains_key(#[trigger] nec[k]),
            forall|h: int, k: int| #[trigger] is_slot(h, k) && !vacant(hs, h, k) ==> cell(hier@, h, k) == cell(hs, h,
                k),
            (forall|x: usize| #[trigger] nec.contains(x) ==> map_view(*old(count)).contains_key(x)) ==> hier@ == hs
                && map_view(*count) == map_view(*old(count)),
        decreases n - i,
    {
        let nd = set_at(necessary, i);
        assert(nec.contains(nd));
        assert(hier@[1]@.len() == width(1));
        if map_get(count, nd).is_none() {
            match next_vacant(&hier[1], hier1_j) {
                None => {
                    proof {
                        assert forall|j: int| 0 <= j < 4096 implies !#[trigger] vacant(hier@, 1, j) by {
                            assert(hier@[1]@[j] != usize::MAX);
                        }
                        lemma_row_full(*aig, done, *cone, nec, h0, c0, hier@, map_view(*count), now);
                    }
                    return None;
                },
                Some(j) => {
                    let ghost h1 = hier@;
                    hier1_j = j;
                    place_level_one(
                        aig,
                        cone,
                        hier,
                        count,
                        j,
                        nd,
                        Ghost(done),
                        Ghost(nec),
                        Ghost(h0),
                        Ghost(c0),
                        Ghost(now),
                    );
                    proof {
                        now = now.push(nd);
                        assert forall|h: int, k: int| #[trigger] is_slot(h, k) && !vacant(hs, h, k) implies cell(
                            hier@,
                            h,
                            k,
                        ) == cell(hs, h, k) by {
                            assert(!vacant(h1, h, k));
                        }
                    }
                },
            }
        }
        i += 1;
    }
    assert(hier@[1]@.len() == width(1));
    match next_vacant(&hier[1], hier1_j) {
        None => {
            proof {
                assert forall|j: int| 0 <= j < 4096 implies !#[trigger] vacant(hier@, 1, j) by {
                    assert(hier@[1]@[j] != usize::MAX);
                }
                lemma_row_full(*aig, done, *cone, nec, h0, c0, hier@, map_view(*count), now);
            }
            None
        },
        Some(j) => {
            proof {
                assert(vacant(hier@, 1, j as int));
                assert forall|x: usize| #[trigger] nec.contains(x) implies map_view(*count).contains_key(x) by {
                    assert(map_view(*count).contains_key(nec[nec.index_of(x)]));
                }
            }
            Some(Ghost(now))
        },
    }
}

/// Does the slot hold a target that is placed but not realized?
pub open spec fn is_late(hier: Seq<Vec<usize>>, late: Seq<usize>, realized: Seq<usize>, h: int, j: int) -> bool {
    late.contains(cell(hier, h, j)) && !realized.contains(cell(hier, h, j))
}

/// Is there such a target in the word?
pub open spec fn is_late_word(hier: Seq<Vec<usize>>, late: Seq<usize>, realized: Seq<usize>, w: usize) -> bool {
    exists|h: int, j: int|
        1 <= h && #[trigger] is_slot(h, j) && is_late(hier, late, realized, h, j) && word_of(h, j) == w
}

/// Is the word in the list?
fn has_word(words: &Vec<usize>, w: usize) -> (b: bool)
    ensures
        b == words@.contains(w),
{
    let mut i: usize = 0;
    while i < words.len()
        invariant
            i <= words@.len(),
            !words@.take(i as int).contains(w),
        decreases words@.len() - i,
    {
        if words[i] == w {
            assert(words@[i as int] == w);
            return true;
        }
        assert(words@.take(i + 1) =~= words@.take(i as int).push(words@[i as int]));
        proof {
            lemma_push_contains(words@.take(i as int), words@[i as int]);
        }
        i += 1;
    }
    assert(words@.take(words@.len() as int) =~= words@);
    false
}

/// The words that hold targets which are placed but not realized, apart from
/// those that are written out already, unless they are more than `room`.
fn late_words(
    hier: &Vec<Vec<usize>>,
    late: &IndexSet<usize>,
    realized: &IndexSet<usize>,
    written: &Vec<usize>,
    room: usize,
) -> (r: Option<IndexSet<usize>>)
    requires
        shaped(hier@),
    ensures
        r matches Some(words) ==> set_items(words).len() <= room && set_items(words).no_duplicates() && forall|w: usize|
         #[trigger]
            set_items(words).contains(w) <==> is_late_word(hier@, set_items(*late), set_items(*realized), w)
                && !written@.contains(w),
        r is None ==> exists|words: Seq<usize>| #[trigger]
            words.no_duplicates() && words.len() > room && forall|w: usize| #[trigger]
                words.contains(w) ==> is_late_word(hier@, set_items(*late), set_items(*realized), w)
                    && !written@.contains(w),
{
    let ghost lt = set_items(*late);
    let ghost rz = set_items(*realized);
    let mut words = set_new();
    let mut hi: usize = 1;
    while hi <= 13
        invariant
            shaped(hier@),
            lt == set_items(*late),
            rz == set_items(*realized),
            1 <= hi <= 14,
            set_items(words).len() <= room,
            set_items(words).no_duplicates(),
            forall|w: usize| #[trigger] set_items(words).contains(w) ==> is_late_word(hier@, lt, rz, w)
                && !written@.contains(
                w,
            ),
            forall|h: int, j: int|
                1 <= h < hi && #[trigger] is_slot(h, j) && is_late(hier@, lt, rz, h, j) ==> set_items(words).contains(
                    word_of(h, j),
                ) || written@.contains(word_of(h, j)),
        decreases 14 - hi,
    {
        let len = hier[hi].len();
        assert(hier@[hi as int]@.len() == width(hi as int));
        let mut j: usize = 0;
        while j < len
            invariant
                shaped(hier@),
                lt == set_items(*late),
                rz == set_items(*realized),
                1 <= hi <= 13,
                len == width(hi as int),
                hier@[hi as int]@.len() == len,
                j <= len,
                set_items(words).len() <= room,
                set_items(words).no_duplicates(),
                forall|w: usize| #[trigger] set_items(words).contains(w) ==> is_late_word(hier@, lt, rz, w)
                    && !written@.contains(
                w,
            ),
                forall|h: int, j: int|
                    1 <= h < hi && #[trigger] is_slot(h, j) && is_late(hier@, lt, rz, h, j) ==> set_items(
                        words,
                    ).contains(word_of(h, j)) || written@.contains(word_of(h, j)),
                forall|k: int|
                    0 <= k < j && is_late(hier@, lt, rz, hi as int, k) ==> set_items(words).contains(
                        #[trigger] word_of(hi as int, k),
                    ) || written@.contains(word_of(hi as int, k)),
            decreases len - j,
        {
            let nd = hier[hi][j];
            if set_contains(late, nd) && !set_contains(realized, nd) {
                let w: usize = (j + len) / 32;
                let known = has_word(written, w);
                if !known {
                    set_add(&mut words, w);
                }
                proof {
                    assert(is_slot(hi as int, j as int));
                    assert(is_late(hier@, lt, rz, hi as int, j as int));
                    assert(word_of(hi as int, j as int) == w);
                    assert(is_late_word(hier@, lt, rz, w));
                }
                if set_len(&words) > room {
                    assert(set_items(words).no_duplicates());
                    return None;
                }
            }
            j += 1;
        }
        hi += 1;
    }
    proof {
        assert forall|w: usize| is_late_word(hier@, lt, rz, w) && !written@.contains(w) implies #[trigger] set_items(
            words,
        ).contains(w) by {
            let (h, j) = choose|h: int, j: int|
                1 <= h && #[trigger] is_slot(h, j) && is_late(hier@, lt, rz, h, j) && word_of(h, j) == w;
            assert(set_items(words).contains(word_of(h, j)));
        }
    }
    Some(words)
}

/// Is everything that the targets depend on a leaf or a gate of two leaves?
pub open spec fn shallow(aig: AIG, done: Set<usize>, targets: Seq<usize>) -> bool {
    forall|v: usize| #[trigger] in_cone(aig, done, targets, v) ==> is_leaf(aig, done, v) || is_base_gate(aig, done, v)
}

/// Are the targets shallow, and all gates that they depend on targets?
#[verifier::opaque]
pub open spec fn flat(aig: AIG, done: Set<usize>, targets: Seq<usize>) -> bool {
    &&& shallow(aig, done, targets)
    &&& forall|v: usize| #[trigger]
        in_cone(aig, done, targets, v) && is_base_gate(aig, done, v) ==> targets.contains(v)
}

/// Do the targets, in order, and nothing else fill the first row of gates from
/// its first slot on, and are the words that they take written out in order?
#[verifier::opaque]
pub open spec fn is_packed(hier: Seq<Vec<usize>>, write_outs: Seq<usize>, targets: Seq<usize>) -> bool {
    &&& hier[1]@ == packed_row(targets)
    &&& forall|h: int, j: int| h >= 2 && #[trigger] is_slot(h, j) ==> vacant(hier, h, j)
    &&& write_outs == packed_words(targets.len() as int)
}

/// The targets, sorted by where they are placed.
struct Sorted {
    /// placed behind the first row of gates or passed through it.
    hier: IndexSet<usize>,
    /// to be placed in the first row of gates.
    lvl1: Vec<usize>,
    /// are there others?
    untouched: bool,
}

/// Sorts the targets.
fn sort_targets(
    targets: &IndexSet<usize>,
    necessary: &IndexSet<usize>,
    count: &IndexMap<usize, usize>,
) -> (r: Sorted)
    ensures
        pending_from(r.lvl1@, 0, set_items(*targets), set_items(*necessary), map_view(*count)),
        forall|x: usize| #[trigger]
            set_items(r.hier).contains(x) <==> set_items(*targets).contains(x) && map_view(*count).contains_key(x),
        forall|x: usize| #[trigger]
            set_items(*targets).contains(x) && !map_view(*count).contains_key(x) && set_items(
                *necessary,
            ).contains(x) ==> r.lvl1@.contains(x),
        !r.untouched ==> forall|x: usize| #[trigger]
            set_items(*targets).contains(x) ==> map_view(*count).contains_key(x) || set_items(
                *necessary,
            ).contains(x),
        r.untouched ==> exists|x: usize| #[trigger]
            set_items(*targets).contains(x) && !map_view(*count).contains_key(x) && !set_items(
                *necessary,
            ).contains(x),
        (forall|x: usize| #[trigger]
            set_items(*targets).contains(x) ==> !map_view(*count).contains_key(x) && set_items(*necessary).contains(
                x,
            )) ==> r.lvl1@ == set_items(*targets),
{
    let ghost tgt = set_items(*targets);
    let ghost nec = set_items(*necessary);
    let ghost c = map_view(*count);
    let n = set_len(targets);
    let mut r = Sorted { hier: set_new(), lvl1: Vec::new(), untouched: false };
    let mut i: usize = 0;
    while i < n
        invariant
            tgt == set_items(*targets),
            nec == set_items(*necessary),
            c == map_view(*count),
            tgt.no_duplicates(),
            n == tgt.len(),
            i <= n,
            r.lvl1@.no_duplicates(),
            forall|x: usize| #[trigger]
                r.lvl1@.contains(x) <==> tgt.take(i as int).contains(x) && !c.contains_key(x) && nec.contains(x),
            forall|x: usize| #[trigger]
                set_items(r.hier).contains(x) <==> tgt.take(i as int).contains(x) && c.contains_key(x),
            !r.untouched ==> forall|x: usize| #[trigger]
                tgt.take(i as int).contains(x) ==> c.contains_key(x) || nec.contains(x),
            r.untouched ==> exists|x: usize| #[trigger] tgt.contains(x) && !c.contains_key(x) && !nec.contains(x),
            (forall|x: usize| #[trigger] tgt.contains(x) ==> !c.contains_key(x) && nec.contains(x)) ==> r.lvl1@
                == tgt.take(i as int),
        decreases n - i,
    {
        let t = set_at(targets, i);
        let ghost seen = tgt.take(i as int);
        let ghost lvl1 = r.lvl1@;
        proof {
            assert(tgt.take(i + 1) =~= seen.push(t));
            lemma_push_contains(seen, t);
            lemma_push_contains(lvl1, t);
            assert(tgt.contains(t));
            assert(!seen.contains(t)) by {
                if seen.contains(t) {
                    let k = seen.index_of(t);
                    assert(tgt[k] == tgt[i as int]);
                }
            }
            assert(!lvl1.contains(t));
        }
        if map_get(count, t).is_some() {
            set_add(&mut r.hier, t);
        } else if set_contains(necessary, t) {
            r.lvl1.push(t);
        } else {
            r.untouched = true;
        }
        i += 1;
    }
    proof {
        assert(tgt.take(n as int) =~= tgt);
        assert forall|k: int| 0 <= k < r.lvl1@.len() implies tgt.contains(#[trigger] r.lvl1@[k]) && nec.contains(
            r.lvl1@[k],
        ) && !c.contains_key(r.lvl1@[k]) by {
            assert(r.lvl1@.contains(r.lvl1@[k]));
        }
    }
    r
}

/// What a sequence with one more element contains.
pub(crate) proof fn lemma_push_contains(s: Seq<usize>, v: usize)
    ensures
        forall|x: usize| #[trigger] s.push(v).contains(x) <==> s.contains(x) || x == v,
{
    let t = s.push(v);
    assert forall|x: usize| #[trigger] t.contains(x) <==> s.contains(x) || x == v by {
        assert(t[s.len() as int] == v);
        if s.contains(x) {
            assert(t[s.index_of(x)] == x);
        }
        if t.contains(x) && x != v {
            assert(s[t.index_of(x)] == x);
        }
    }
}

/// Adds the keys of a map to a set.
fn add_keys(s: &mut IndexSet<usize>, m: &IndexMap<usize, usize>)
    ensures
        set_items(*old(s)).is_prefix_of(set_items(*final(s))),
        forall|x: usize| #[trigger]
            set_items(*final(s)).contains(x) <==> set_items(*old(s)).contains(x) || map_view(*m).contains_key(x),
{
    let n = map_len(m);
    let ghost keys = map_keys(*m);
    let ghost s0 = set_items(*s);
    let mut i: usize = 0;
    while i < n
        invariant
            keys == map_keys(*m),
            n == keys.len(),
            i <= n,
            s0.is_prefix_of(set_items(*s)),
            forall|x: usize| #[trigger] set_items(*s).contains(x) <==> s0.contains(x)
                || keys.take(i as int).contains(x),
        decreases n - i,
    {
        let k = map_key_at(m, i);
        proof {
            assert(keys.take(i + 1) =~= keys.take(i as int).push(k));
            lemma_push_contains(keys.take(i as int), k);
        }
        set_add(s, k);
        i += 1;
    }
    proof {
        assert forall|x: usize| #[trigger]
            set_items(*s).contains(x) <==> s0.contains(x) || map_view(*m).contains_key(x) by {
            assert(keys.take(n as int).to_set().contains(x) <==> keys.take(n as int).contains(x));
            assert(map_view(*m).dom().contains(x) <==> map_view(*m).contains_key(x));
        }
    }
}

/// Takes elements out of a set.
pub(crate) fn remove_all(s: &mut IndexSet<usize>, gone: &IndexSet<usize>)
    ensures
        set_items(*final(s)).no_duplicates(),
        forall|x: usize| #[trigger]
            set_items(*final(s)).contains(x) <==> set_items(*old(s)).contains(x) && !set_items(*gone).contains(x),
        set_items(*gone).len() == 0 ==> set_items(*final(s)) == set_items(*old(s)),
{
    let _ = set_len(s);
    let n = set_len(gone);
    let ghost g = set_items(*gone);
    let ghost s0 = set_items(*s);
    let mut i: usize = 0;
    while i < n
        invariant
            g == set_items(*gone),
            n == g.len(),
            i <= n,
            set_items(*s).no_duplicates(),
            n == 0 ==> set_items(*s) == s0,
            forall|x: usize| #[trigger] set_items(*s).contains(x) <==> s0.contains(x) && !g.take(i as int).contains(x),
        decreases n - i,
    {
        let v = set_at(gone, i);
        let ghost s1 = set_items(*s);
        proof {
            assert(g.take(i + 1) =~= g.take(i as int).push(v));
            lemma_push_contains(g.take(i as int), v);
        }
        let found = set_swap_remove(s, v);
        proof {
            if found {
                let k = choose|k: int|
                    0 <= k < s1.len() && #[trigger] s1[k] == v && set_items(*s) == crate::collections::swap_out(s1, k);
                crate::collections::lemma_swap_out(s1, k);
                assert(s1[k] == v);
                assert(forall|x: usize| #[trigger] set_items(*s).contains(x) <==> s1.contains(x) && x != v);
            }
            assert forall|x: usize| #[trigger]
                set_items(*s).contains(x) <==> s0.contains(x) && !g.take(i + 1).contains(x) by {
                assert(s1.contains(x) <==> s0.contains(x) && !g.take(i as int).contains(x));
            }
        }
        i += 1;
    }
    assert(g.take(n as int) =~= g);
}

/// Writes out the words that hold targets which are placed but not realized.
fn finish_targets(
    late: &IndexSet<usize>,
    words: &IndexSet<usize>,
    packed: &mut Packed,
    Ghost(hier): Ghost<Seq<Vec<usize>>>,
    Ghost(tgt): Ghost<Seq<usize>>,
    Ghost(count): Ghost<Map<usize, usize>>,
)
    requires
        shaped(hier),
        counted(hier, count),
        forall|x: usize| #[trigger] set_items(*late).contains(x) ==> tgt.contains(x) && count.contains_key(x),
        forall|x: usize| #[trigger]
            set_items(old(packed).realized).contains(x) ==> tgt.contains(x) && written(hier, old(packed).write_outs@,
                x),
        forall|i: int| 0 <= i < old(packed).write_outs@.len() ==> #[trigger] old(packed).write_outs@[i] < 256,
        forall|w: usize| #[trigger]
            set_items(*words).contains(w) <==> is_late_word(hier, set_items(*late), set_items(old(packed).realized), w)
                && !old(packed).write_outs@.contains(w),
        set_items(*words).no_duplicates(),
        words_useful(hier, set_items(old(packed).realized), old(packed).write_outs@),
    ensures
        words_useful(hier, set_items(final(packed).realized), final(packed).write_outs@),
        forall|x: usize| #[trigger]
            set_items(final(packed).realized).contains(x) <==> set_items(old(packed).realized).contains(x)
                || set_items(*late).contains(x),
        forall|x: usize| #[trigger]
            set_items(final(packed).realized).contains(x) ==> tgt.contains(x) && written(
                hier,
                final(packed).write_outs@,
                x,
            ),
        final(packed).write_outs@ == old(packed).write_outs@ + set_items(*words),
        forall|i: int| 0 <= i < final(packed).write_outs@.len() ==> #[trigger] final(packed).write_outs@[i] < 256,
{
    let ghost w0 = packed.write_outs@;
    let ghost r0 = set_items(packed.realized);
    let ghost ws = set_items(*words);
    let ghost lt = set_items(*late);
    let n = set_len(words);
    let mut i: usize = 0;
    while i < n
        invariant
            ws == set_items(*words),
            n == ws.len(),
            i <= n,
            packed.write_outs@ == w0 + ws.take(i as int),
            set_items(packed.realized) == r0,
        decreases n - i,
    {
        packed.write_outs.push(set_at(words, i));
        assert(packed.write_outs@ =~= w0 + ws.take(i + 1));
        i += 1;
    }
    assert(ws.take(n as int) =~= ws);
    let m = set_len(late);
    let mut k: usize = 0;
    while k < m
        invariant
            lt == set_items(*late),
            m == lt.len(),
            k <= m,
            packed.write_outs@ == w0 + ws,
            forall|x: usize| #[trigger]
                set_items(packed.realized).contains(x) <==> r0.contains(x) || lt.take(k as int).contains(x),
        decreases m - k,
    {
        let v = set_at(late, k);
        proof {
            assert(lt.take(k + 1) =~= lt.take(k as int).push(v));
            lemma_push_contains(lt.take(k as int), v);
        }
        set_add(&mut packed.realized, v);
        k += 1;
    }
    proof {
        assert(lt.take(m as int) =~= lt);
        lemma_counted(hier, count);
        let w1 = packed.write_outs@;
        assert forall|x: usize| #[trigger] set_items(packed.realized).contains(x) implies tgt.contains(x) && written(
            hier,
            w1,
            x,
        ) by {
            if r0.contains(x) {
                let (h, j) = choose|h: int, j: int|
                    1 <= h && is_slot(h, j) && #[trigger] cell(hier, h, j) == x && w0.contains(word_of(h, j));
                assert(w1[w0.index_of(word_of(h, j))] == word_of(h, j));
                assert(cell(hier, h, j) == x && w1.contains(word_of(h, j)));
            } else {
                assert(lt.contains(x));
                let (h, j) = choose|h: int, j: int| 1 <= h && is_slot(h, j) && #[trigger] cell(hier, h, j) == x;
                let w = word_of(h, j);
                assert(is_slot(h, j) && is_late(hier, lt, r0, h, j));
                assert(is_late_word(hier, lt, r0, w));
                if w0.contains(w) {
                    assert(w1[w0.index_of(w)] == w);
                } else {
                    assert(ws.contains(w));
                    assert(w1[w0.len() + ws.index_of(w)] == w);
                }
                assert(cell(hier, h, j) == x && w1.contains(word_of(h, j)));
            }
        }
        let r2 = set_items(packed.realized);
        reveal(words_useful);
        assert forall|i: int| 0 <= i < w1.len() implies word_holds(hier, r2, #[trigger] w1[i]) by {
            if i < w0.len() {
                assert(word_holds(hier, r0, w0[i]));
                let (h, j) = choose|h: int, j: int|
                    1 <= h && is_slot(h, j) && word_of(h, j) == w0[i] && r0.contains(#[trigger] cell(hier, h, j));
                assert(r2.contains(cell(hier, h, j)));
            } else {
                let w = ws[i - w0.len()];
                assert(ws.contains(w));
                let (h, j) = choose|h: int, j: int|
                    1 <= h && #[trigger] is_slot(h, j) && is_late(hier, lt, r0, h, j) && word_of(h, j) == w;
                assert(r2.contains(cell(hier, h, j)));
            }
        }
        assert(w1.no_duplicates()) by {
            assert forall|i: int, j: int| 0 <= i < j < w1.len() implies w1[i] != w1[j] by {
                if i < w0.len() && j >= w0.len() {
                    assert(ws.contains(ws[j - w0.len()]));
                    assert(w0.contains(w0[i]));
                }
            }
        }
        assert forall|i: int| 0 <= i < w1.len() implies #[trigger] w1[i] < 256 by {
            if i < w0.len() {
                assert(w0[i] < 256);
            } else {
                let w = ws[i - w0.len()];
                assert(ws.contains(w));
                let (h, j) = choose|h: int, j: int|
                    1 <= h && #[trigger] is_slot(h, j) && is_late(hier, lt, r0, h, j) && word_of(h, j) == w;
                assert(j + width(h) < 8192);
            }
        }
    }
}

/// Is every target that is left, and every leaf that it wants, left behind by
/// the stage?
pub open spec fn carries(
    aig: AIG,
    hier: Seq<Vec<usize>>,
    rest: Seq<usize>,
    next: Set<usize>,
) -> bool {
    forall|v: usize| #[trigger] in_gate_cone(aig, next, rest, v) && is_leaf(aig, next, v) ==> holds(hier, v)
}

/// Do the pins realized by the stage come to those that were before?
spec fn extends(hier: Seq<Vec<usize>>, done: Set<usize>, next: Set<usize>) -> bool {
    forall|x: usize| #[trigger] next.contains(x) <==> done.contains(x) || (x != usize::MAX && holds(hier, x))
}

/// Are these some of the targets?
spec fn is_rest(rest: Seq<usize>, targets: Seq<usize>) -> bool {
    forall|x: usize| #[trigger] rest.contains(x) ==> targets.contains(x)
}

/// Does the stage provide every gate of two leaves that the targets want, and
/// every leaf that the targets left behind want?
#[verifier::opaque]
spec fn provides(aig: AIG, done: Set<usize>, targets: Seq<usize>, hier: Seq<Vec<usize>>) -> bool {
    &&& forall|v: usize| #[trigger]
        in_gate_cone(aig, done, targets, v) && is_base_gate(aig, done, v) ==> holds(hier, v)
    &&& forall|rest: Seq<usize>, next: Set<usize>|
        #![trigger is_rest(rest, targets), extends(hier, done, next)]
        is_rest(rest, targets) && extends(hier, done, next) ==> carries(aig, hier, rest, next)
}

/// What a stage holds and writes out.
struct Layout {
    hier: Vec<Vec<usize>>,
    count: IndexMap<usize, usize>,
    packed: Packed,
}

impl Layout {
    spec fn ok(self, aig: AIG, done: Set<usize>, cone: Cone, targets: Seq<usize>) -> bool {
        &&& grid_ok(aig, done, cone, self.hier@, map_view(self.count), 1)
        &&& forall|x: usize| #[trigger]
            set_items(self.packed.realized).contains(x) ==> targets.contains(x) && written(
                self.hier@,
                self.packed.write_outs@,
                x,
            )
        &&& forall|i: int| 0 <= i < self.packed.write_outs@.len() ==> #[trigger] self.packed.write_outs@[i] < 256
        &&& words_useful(self.hier@, set_items(self.packed.realized), self.packed.write_outs@)
        &&& provides(aig, done, targets, self.hier@)
        &&& shallow(aig, done, targets) ==> self.packed.write_outs@.len() <= targets.len() && forall|x: usize|
         #[trigger]
            targets.contains(x) ==> set_items(self.packed.realized).contains(x)
        &&& flat(aig, done, targets) && targets.len() <= 4096 ==> is_packed(
            self.hier@,
            self.packed.write_outs@,
            targets,
        )
        &&& well_filled(aig, done, targets, self.hier@)
        &&& is_folded(aig, done, targets, self.hier@)
        &&& few_spare(self.hier@, targets, set_items(self.packed.realized))
    }
}

/// What is left over in the first row of gates stems from packing.
proof fn lemma_few_spare(
    targets: Seq<usize>,
    nec: Seq<usize>,
    lvl1: Seq<usize>,
    h0: Seq<Vec<usize>>,
    c0: Map<usize, usize>,
    h2: Seq<Vec<usize>>,
    c2: Map<usize, usize>,
    gone: Seq<usize>,
)
    requires
        shaped(h0),
        shaped(h2),
        counted(h0, c0),
        counted(h2, c2),
        is_rooted(h0),
        forall|h: int, j: int| #[trigger] is_slot(h, j) && !vacant(h0, h, j) ==> cell(h2, h, j) == cell(h0, h, j),
        forall|x: usize| #[trigger] c2.contains_key(x) ==> c0.contains_key(x) || nec.contains(x),
        forall|x: usize| #[trigger]
            targets.contains(x) && !c0.contains_key(x) && nec.contains(x) ==> lvl1.contains(x),
        forall|x: usize| #[trigger] targets.contains(x) ==> x != usize::MAX,
        few_open(lvl1, gone) || is_busy(h2),
    ensures
        few_spare(h2, targets, gone),
{
    reveal(few_spare);
    reveal(few_open);
    reveal(is_rooted);
    lemma_counted(h0, c0);
    lemma_counted(h2, c2);
    if !is_busy(h2) {
        assert forall|s: Seq<usize>|
            s.no_duplicates() && #[trigger] all_open(s, targets, gone) && all_spare(h2, s) implies s.len() < 32 by {
            assert(all_open(s, lvl1, gone)) by {
                assert forall|x: usize| #[trigger] s.contains(x) implies lvl1.contains(x) && !gone.contains(x) by {
                    assert(targets.contains(x) && holds(h2, x));
                    assert(c2.contains_key(x));
                    if c0.contains_key(x) {
                        assert(holds(h0, x));
                        let (h, j) = choose|h: int, j: int|
                            1 <= h && is_slot(h, j) && #[trigger] cell(h0, h, j) == x;
                        assert(!vacant(h0, h, j));
                        assert(cell(h2, h, j) == x);
                        if h == 1 {
                            let k = if j < 2048 {
                                j
                            } else {
                                j - 2048
                            };
                            assert(is_slot(2, k));
                            assert(!vacant(h0, 2, k));
                            assert(cell(h2, 2, k) == cell(h0, 2, k));
                        }
                        assert(is_woven(h2, x));
                    }
                }
            }
        }
    }
}

/// Fewer targets are open when more are finished.
proof fn lemma_spare_fewer(hier: Seq<Vec<usize>>, targets: Seq<usize>, a: Seq<usize>, b: Seq<usize>)
    requires
        few_spare(hier, targets, a),
        forall|x: usize| #[trigger] a.contains(x) ==> b.contains(x),
    ensures
        few_spare(hier, targets, b),
{
    reveal(few_spare);
    if !is_busy(hier) {
        assert forall|s: Seq<usize>|
            s.no_duplicates() && #[trigger] all_open(s, targets, b) && all_spare(hier, s) implies s.len() < 32 by {
            assert(all_open(s, targets, a));
        }
    }
}

/// Does the pin stand in one slot behind the first row, at most?
#[verifier::opaque]
spec fn stands_once(hier: Seq<Vec<usize>>, t: usize) -> bool {
    exists|g: int, s: int|
        #![trigger is_slot(g, s)]
        is_slot(g, s) && forall|h: int, j: int|
            1 <= h && #[trigger] is_slot(h, j) && cell(hier, h, j) == t ==> h == g && j == s
}

/// What follows once all necessary pins are placed.
proof fn lemma_laid_out(
    aig: AIG,
    done: Set<usize>,
    cone: Cone,
    targets: Seq<usize>,
    h0: Seq<Vec<usize>>,
    c0: Map<usize, usize>,
    plan: Plan,
    hier: Seq<Vec<usize>>,
    count: Map<usize, usize>,
)
    requires
        aig.drivers_wf(),
        cone.wf(aig, done, targets),
        grid_ok(aig, done, cone, h0, c0, 1),
        plan.ok(aig, done, cone, targets, c0),
        forall|i: int| 0 <= i < targets.len() ==> cone.has(#[trigger] targets[i]),
        shaped(hier),
        counted(hier, count),
        forall|x: usize| #[trigger] c0.contains_key(x) ==> count.contains_key(x),
        forall|x: usize| #[trigger] set_items(plan.necessary).contains(x) ==> count.contains_key(x),
    ensures
        provides(aig, done, targets, hier),
{
    reveal(provides);
    lemma_counted(hier, count);
    assert forall|x: usize| #[trigger] c0.contains_key(x) implies holds(hier, x) by {
        assert(count.contains_key(x));
    }
    assert forall|x: usize| #[trigger] set_items(plan.necessary).contains(x) implies holds(hier, x) by {
        assert(count.contains_key(x));
    }
    assert forall|v: usize| #[trigger]
        in_gate_cone(aig, done, targets, v) && is_base_gate(aig, done, v) implies holds(hier, v) by {
        lemma_progress(aig, done, cone, targets, h0, c0, plan, hier, v);
    }
    assert forall|rest: Seq<usize>, next: Set<usize>|
        #![trigger is_rest(rest, targets), extends(hier, done, next)]
        is_rest(rest, targets) && extends(hier, done, next) implies carries(aig, hier, rest, next) by {
        assert forall|v: usize| #[trigger] in_gate_cone(aig, next, rest, v) && is_leaf(aig, next, v) implies holds(
            hier,
            v,
        ) by {
            lemma_carried(aig, done, cone, targets, h0, c0, plan, hier, rest, next, v);
        }
    }
}

/// Shallow targets make a cone of level 1 at most, and all of them are
/// necessary.
proof fn lemma_shallow(
    aig: AIG,
    done: Set<usize>,
    cone: Cone,
    targets: Seq<usize>,
    c0: Map<usize, usize>,
    plan: Plan,
)
    requires
        aig.drivers_wf(),
        cone.wf(aig, done, targets),
        plan.ok(aig, done, cone, targets, c0),
        forall|i: int| 0 <= i < targets.len() ==> cone.has(#[trigger] targets[i]),
        shallow(aig, done, targets),
        forall|v: usize| !#[trigger] c0.contains_key(v),
    ensures
        forall|x: usize| #[trigger] targets.contains(x) ==> set_items(plan.necessary).contains(x),
{
    assert forall|x: usize| #[trigger] targets.contains(x) implies set_items(plan.necessary).contains(x) by {
        let i = targets.index_of(x);
        assert(cone.has(targets[i]));
        cone.lemma_spans(aig, done, targets, x);
        assert(in_cone(aig, done, targets, x));
        cone.lemma_level_one(aig, done, x);
        assert(asks_for(aig, cone, targets, c0, plan.reverse_level@, x, x));
    }
}

/// Flat targets are all that the first row of gates has to provide.
proof fn lemma_flat(aig: AIG, done: Set<usize>, cone: Cone, targets: Seq<usize>, c0: Map<usize, usize>, plan: Plan)
    requires
        cone.wf(aig, done, targets),
        plan.ok(aig, done, cone, targets, c0),
        flat(aig, done, targets),
    ensures
        forall|x: usize| #[trigger] set_items(plan.necessary).contains(x) ==> targets.contains(x),
{
    reveal(flat);
    assert forall|x: usize| #[trigger] set_items(plan.necessary).contains(x) implies targets.contains(x) by {
        let u = choose|u: usize| #[trigger] asks_for(aig, cone, targets, c0, plan.reverse_level@, u, x);
        cone.lemma_spans(aig, done, targets, u);
        assert(in_cone(aig, done, targets, u));
        cone.lemma_level_one(aig, done, u);
    }
}

/// In a stage for shallow targets, which are all packed unless the row is
/// full, all targets are realized.
proof fn lemma_shallow_realized(
    aig: AIG,
    done: Set<usize>,
    cone: Cone,
    targets: Seq<usize>,
    h0: Seq<Vec<usize>>,
    c0: Map<usize, usize>,
    plan: Plan,
    lvl1: Seq<usize>,
    h1: Seq<Vec<usize>>,
    h2: Seq<Vec<usize>>,
    realized: Seq<usize>,
)
    requires
        aig.drivers_wf(),
        cone.wf(aig, done, targets),
        plan.ok(aig, done, cone, targets, c0),
        forall|i: int| 0 <= i < targets.len() ==> cone.has(#[trigger] targets[i]),
        shallow(aig, done, targets),
        forall|v: usize| !#[trigger] c0.contains_key(v),
        forall|h: int, j: int| #[trigger] is_slot(h, j) ==> vacant(h0, h, j),
        forall|x: usize| #[trigger]
            targets.contains(x) && !c0.contains_key(x) && set_items(plan.necessary).contains(x) ==> lvl1.contains(x),
        (forall|j: int| 0 <= j < 4096 ==> #[trigger] vacant(h0, 1, j)) ==> (forall|k: int|
            0 <= k < lvl1.len() ==> realized.contains(#[trigger] lvl1[k])) || (forall|j: int|
            0 <= j < 4096 ==> !#[trigger] vacant(h1, 1, j)),
        exists|j: int| 0 <= j < 4096 && #[trigger] vacant(h2, 1, j),
        forall|h: int, j: int| #[trigger] is_slot(h, j) && !vacant(h1, h, j) ==> cell(h2, h, j) == cell(h1, h, j),
    ensures
        forall|x: usize| #[trigger] targets.contains(x) ==> realized.contains(x),
{
    lemma_shallow(aig, done, cone, targets, c0, plan);
    let j = choose|j: int| 0 <= j < 4096 && #[trigger] vacant(h2, 1, j);
    assert(is_slot(1, j));
    assert(vacant(h1, 1, j));
    assert forall|j: int| 0 <= j < 4096 implies #[trigger] vacant(h0, 1, j) by {
        assert(is_slot(1, j));
    }
    assert forall|x: usize| #[trigger] targets.contains(x) implies realized.contains(x) by {
        assert(lvl1.contains(x));
        let k = lvl1.index_of(x);
        assert(realized.contains(lvl1[k]));
    }
}

/// If all targets are placed, then each of them is finished already or stands
/// behind the first row of gates, or no group of the first row is almost empty.
spec fn all_sorted(targets: Seq<usize>, layout: Layout, ends: Sorted) -> bool {
    (forall|x: usize| #[trigger] targets.contains(x) ==> map_view(layout.count).contains_key(x)) ==> !ends.untouched
        && (is_busy(layout.hier@) || forall|x: usize| #[trigger]
        targets.contains(x) ==> set_items(ends.hier).contains(x) || set_items(layout.packed.realized).contains(x))
}

/// The pins that are placed are finitely many.
proof fn lemma_placed_finite(aig: AIG, done: Set<usize>, cone: Cone, hier: Seq<Vec<usize>>, count: Map<usize, usize>)
    requires
        cone.graded(aig, done),
        grid_ok(aig, done, cone, hier, count, 1),
    ensures
        count.dom().finite(),
{
    lemma_counted(hier, count);
    vstd::seq_lib::seq_to_set_is_finite(cone.order@);
    assert forall|x: usize| count.dom().contains(x) implies cone.order@.to_set().contains(x) by {
        assert(count.contains_key(x));
        let (h, j) = choose|h: int, j: int| 1 <= h && is_slot(h, j) && #[trigger] cell(hier, h, j) == x;
        assert(is_slot(h, j));
        assert(slot_ok(aig, done, cone, hier, h, j));
        assert(cone.order@[cone.pos(x)] == x);
    }
    vstd::set_lib::lemma_set_subset_finite(cone.order@.to_set(), count.dom());
}

/// A pin of level 2 or more that stands alone stays so when the first row of
/// gates is filled.
proof fn lemma_solo_once(
    aig: AIG,
    done: Set<usize>,
    cone: Cone,
    h0: Seq<Vec<usize>>,
    c0: Map<usize, usize>,
    h2: Seq<Vec<usize>>,
    c2: Map<usize, usize>,
    t: usize,
)
    requires
        grid_ok(aig, done, cone, h2, c2, 1),
        stands_alone(aig, done, cone, h0, c0, t),
        cone.lvl(t) >= 2,
        t != usize::MAX,
        forall|h: int, j: int| h >= 2 && #[trigger] is_slot(h, j) ==> cell(h2, h, j) == cell(h0, h, j),
    ensures
        stands_once(h2, t),
{
    reveal(stands_alone);
    reveal(stands_once);
    let g = cone.lvl(t);
    let s = choose|s: int|
        #![trigger is_slot(cone.lvl(t), s)]
        is_slot(cone.lvl(t), s) && forall|h: int, j: int|
            1 <= h && #[trigger] is_slot(h, j) && cell(h0, h, j) == t ==> h == cone.lvl(t) && j == s;
    assert forall|h: int, j: int| 1 <= h && #[trigger] is_slot(h, j) && cell(h2, h, j) == t implies h == g && j
        == s by {
        assert(slot_ok(aig, done, cone, h2, h, j));
        if h >= 2 {
            assert(cell(h0, h, j) == t);
        }
    }
    assert(is_slot(g, s));
}

/// Lays out a stage, without the write-outs of targets behind the first row of
/// gates. There is `None` if the room for write-outs or the slots of the first
/// row of gates do not suffice.
fn lay_gates(
    aig: &AIG,
    cone: &Cone,
    targets: &IndexSet<usize>,
    realized: &IndexSet<usize>,
    room: usize,
) -> (r: Option<(Layout, Sorted)>)
    requires
        aig.drivers_wf(),
        cone.wf(*aig, set_items(*realized).to_set(), set_items(*targets)),
        forall|i: int| 0 <= i < set_items(*targets).len() ==> cone.has(#[trigger] set_items(*targets)[i]),
        cone.order@.to_set() == cone_set(*aig, set_items(*realized).to_set(), set_items(*targets)),
    ensures
        r matches Some(l) ==> all_sorted(set_items(*targets), l.0, l.1),
        r matches Some(l) ==> is_thrifty(set_items(*targets), l.0),
        r matches Some(l) ==> !l.1.untouched ==> forall|x: usize| #[trigger]
            set_items(*targets).contains(x) ==> map_view(l.0.count).contains_key(x),
        r matches Some(l) ==> is_solo(*aig, set_items(*realized).to_set(), set_items(*targets)) && depth(
            *aig,
            set_items(*realized).to_set(),
            set_items(*targets)[0],
        ) >= 2 ==> map_view(l.0.count).contains_key(set_items(*targets)[0]) && l.0.packed.write_outs@.len() == 0
            && stands_once(l.0.hier@, set_items(*targets)[0]) && set_items(l.1.hier).contains(set_items(*targets)[0]),
        r matches Some(l) ==> l.0.ok(*aig, set_items(*realized).to_set(), *cone, set_items(*targets))
            && l.0.packed.write_outs@.len() <= room && forall|x: usize| #[trigger]
            set_items(l.1.hier).contains(x) ==> set_items(*targets).contains(x) && map_view(
                l.0.count,
            ).contains_key(x) && !shallow(*aig, set_items(*realized).to_set(), set_items(*targets)),
        r is None ==> set_items(*targets).len() + 22 >= 23 * (room + 1) || first_row(
            *aig,
            set_items(*realized).to_set(),
            set_items(*targets),
        ).len() >= 4096,
        r is None ==> set_items(*targets).len() > room || cone.order@.len() >= 4096,
{
    let ghost done = set_items(*realized).to_set();
    let ghost tgt = set_items(*targets);
    let mut hier = empty_hierarchy();
    let max_level = cone.max_level();
    let mut count = map_new();
    let plan = fill_high_levels(aig, cone, targets, realized, max_level, &mut hier, &mut count);
    let ghost h0 = hier@;
    let ghost c0 = map_view(count);
    let ghost nec = set_items(plan.necessary);
    let ghost first = choose|first: Plan| #[trigger]
        first.ok(*aig, done, *cone, tgt, Map::empty()) && all_filled(
            *aig,
            done,
            *cone,
            tgt,
            set_items(first.necessary).len() as int,
            h0,
            c0,
            1,
        ) && (forall|l: int|
            2 <= l <= 12 && #[trigger] goes_deep(*aig, done, *cone, tgt, set_items(first.necessary).len() as int, l)
                ==> reached(*cone, c0, l)) && nec.len() <= set_items(first.necessary).len();
    let ghost solo = is_solo(*aig, done, tgt) && depth(*aig, done, tgt[0]) >= 2;
    proof {
        lemma_first_row(*aig, done, *cone, tgt, first);
        cone.order@.unique_seq_to_set();
        if solo {
            lemma_solo(*aig, done, *cone, tgt, max_level);
            assert(tgt.len() == 1) by {
                reveal(is_solo);
            }
            assert(cone.has(tgt[0]));
            assert(c0.contains_key(tgt[0]) && forall|v: usize| #[trigger]
                cone.has(v) && !is_leaf(*aig, done, v) ==> c0.contains_key(v)) by {
                reveal(stands_alone);
            }
            lemma_lone_enough(*aig, done, *cone, tgt, c0, plan);
        }
    }
    assert(fits_level_one(*cone, nec)) by {
        assert forall|x: usize| #[trigger] nec.contains(x) implies cone.has(x) && cone.lvl(x) <= 1 by {
            lemma_necessary(*aig, done, *cone, tgt, c0, plan.reverse_level@, x);
        }
    }
    let ends = sort_targets(targets, &plan.necessary, &count);
    proof {
        if flat(*aig, done, tgt) {
            assert(shallow(*aig, done, tgt)) by {
                reveal(flat);
            }
            lemma_shallow_packed(*aig, done, *cone, tgt, max_level);
            lemma_shallow(*aig, done, *cone, tgt, c0, plan);
            lemma_flat(*aig, done, *cone, tgt, c0, plan);
            assert(!ends.untouched);
            assert(h0[1]@.len() == width(1));
            assert forall|j: int| 0 <= j < 4096 implies h0[1]@[j] == usize::MAX by {
                assert(is_slot(1, j));
                assert(vacant(h0, 1, j));
            }
            assert(h0[1]@ =~= packed_row(Seq::empty()));
        }
    }
    let (packed, Ghost(placed1)) = pack_level_one(
        aig,
        cone,
        targets,
        &ends.lvl1,
        !ends.untouched,
        &mut hier,
        &mut count,
        Ghost(done),
        Ghost(nec),
    );
    let ghost h1 = hier@;
    let ghost c1 = map_view(count);
    proof {
        lemma_sub_len(set_items(packed.realized), tgt);
        lemma_sub_len(ends.lvl1@, tgt);
        if solo {
            if ends.lvl1@.len() > 0 {
                assert(nec.contains(ends.lvl1@[0]));
                assert(nec[nec.index_of(ends.lvl1@[0])] == ends.lvl1@[0]);
            }
        }
        if flat(*aig, done, tgt) && tgt.len() <= 4096 {
            lemma_counted(h1, c1);
            assert forall|x: usize| #[trigger] nec.contains(x) implies c1.contains_key(x) by {
                let k = tgt.index_of(x);
                assert(tgt.contains(x));
                assert(h1[1]@[k] == x);
                assert(is_slot(1, k));
                assert(cell(h1, 1, k) == x);
                assert(cone.has(tgt[k]));
                cone.lemma_spans(*aig, done, tgt, x);
            }
        }
    }
    if packed.write_outs.len() > room {
        return None;
    }
    if place_rest(
        aig,
        cone,
        &plan.necessary,
        &mut hier,
        &mut count,
        Ghost(done),
        Ghost(h0),
        Ghost(c0),
        Ghost(placed1),
    ).is_none() {
        return None;
    }
    proof {
        let h2 = hier@;
        let c2 = map_view(count);
        assert forall|x: usize| #[trigger] set_items(packed.realized).contains(x) implies tgt.contains(x) && written(
            h2,
            packed.write_outs@,
            x,
        ) by {
            lemma_in_tree_pin(*aig, done, *cone, tgt, c1, set_items(packed.realized), x);
            lemma_written_grows(h1, packed.write_outs@, h2, packed.write_outs@, x);
        }
        lemma_in_tree_pins(*aig, done, *cone, tgt, c1, set_items(packed.realized));
        lemma_useful_grows(h1, set_items(packed.realized), h2, set_items(packed.realized), packed.write_outs@);
        lemma_laid_out(*aig, done, *cone, tgt, h0, c0, plan, h2, c2);
        if flat(*aig, done, tgt) && tgt.len() <= 4096 {
            reveal(is_packed);
            assert forall|h: int, j: int| h >= 2 && #[trigger] is_slot(h, j) implies vacant(h2, h, j) by {
                assert(vacant(h0, h, j));
            }
        }
        lemma_placed_finite(*aig, done, *cone, h2, c2);
        lemma_filled_grows(
            *aig,
            done,
            *cone,
            tgt,
            set_items(first.necessary).len() as int,
            h0,
            c0,
            h2,
            c2,
            1,
        );
        if is_busy(h1) {
            lemma_busy_more(h1, h2);
        }
        lemma_few_spare(tgt, nec, ends.lvl1@, h0, c0, h2, c2, set_items(packed.realized));
        lemma_well_filled(*aig, done, *cone, tgt, first, h2, c2);
        lemma_is_folded(*aig, done, *cone, tgt, first, c0, h2, c2);
        if solo {
            assert(tgt.contains(tgt[0]));
            lemma_solo_once(*aig, done, *cone, h0, c0, h2, c2, tgt[0]);
        }
        if forall|x: usize| #[trigger] tgt.contains(x) ==> c2.contains_key(x) {
            assert(!ends.untouched) by {
                if ends.untouched {
                    let x = choose|x: usize| #[trigger]
                        tgt.contains(x) && !c0.contains_key(x) && !nec.contains(x);
                    assert(c2.contains_key(x));
                }
            }
            if is_busy(h1) {
                lemma_busy_more(h1, h2);
            } else {
                assert forall|x: usize| #[trigger] tgt.contains(x) implies set_items(ends.hier).contains(x)
                    || set_items(packed.realized).contains(x) by {
                    if !c0.contains_key(x) {
                        assert(ends.lvl1@.contains(x));
                        let k = ends.lvl1@.index_of(x);
                        assert(set_items(packed.realized).contains(ends.lvl1@[k]));
                    }
                }
            }
        }
        if shallow(*aig, done, tgt) {
            lemma_shallow_packed(*aig, done, *cone, tgt, max_level);
            lemma_shallow(*aig, done, *cone, tgt, c0, plan);
            assert(!ends.untouched);
            lemma_shallow_realized(
                *aig,
                done,
                *cone,
                tgt,
                h0,
                c0,
                plan,
                ends.lvl1@,
                h1,
                h2,
                set_items(packed.realized),
            );
        }
    }
    let layout = Layout { hier, count, packed };
    assert(is_thrifty(tgt, layout)) by {
        reveal(is_thrifty);
    }
    Some((layout, ends))
}

/// Are there more words with targets that are left over than can be written out
/// in addition to `n` others?
#[verifier::opaque]
pub open spec fn words_lack(
    hier: Seq<Vec<usize>>,
    n: int,
    targets: Seq<usize>,
    finished: Seq<usize>,
    room: int,
) -> bool {
    exists|words: Seq<usize>| #[trigger]
        words.no_duplicates() && words.len() + n > room && forall|w: usize| #[trigger]
            words.contains(w) ==> is_late_word(hier, targets, finished, w)
}

/// If some target is not placed, does every word finish 23 targets or more?
#[verifier::opaque]
spec fn is_thrifty(targets: Seq<usize>, layout: Layout) -> bool {
    (exists|x: usize| #[trigger] targets.contains(x) && !map_view(layout.count).contains_key(x)) ==> 23
        * layout.packed.write_outs@.len() <= set_items(layout.packed.realized).len() && set_items(
        layout.packed.realized,
    ).no_duplicates()
}

/// If all targets are placed, then all are finished, or the words to write them
/// out lack, or no group of the first row of gates is almost empty.
#[verifier::opaque]
spec fn ends_met(targets: Seq<usize>, layout: Layout, room: int) -> bool {
    (forall|x: usize| #[trigger] targets.contains(x) ==> map_view(layout.count).contains_key(x)) ==> {
        ||| is_busy(layout.hier@)
        ||| forall|x: usize| #[trigger] targets.contains(x) ==> set_items(layout.packed.realized).contains(x)
        ||| words_lack(
            layout.hier@,
            layout.packed.write_outs@.len() as int,
            targets,
            set_items(layout.packed.realized),
            room,
        )
    }
}

/// A pin that stands in one slot stands in one word.
proof fn lemma_one_word(hier: Seq<Vec<usize>>, targets: Seq<usize>, finished: Seq<usize>, words: Seq<usize>)
    requires
        targets.len() == 1,
        stands_once(hier, targets[0]),
        words.no_duplicates(),
        forall|w: usize| #[trigger] words.contains(w) ==> is_late_word(hier, targets, finished, w),
    ensures
        words.len() <= 1,
{
    reveal(stands_once);
    let (g, s) = choose|g: int, s: int|
        #![trigger is_slot(g, s)]
        is_slot(g, s) && forall|h: int, j: int|
            1 <= h && #[trigger] is_slot(h, j) && cell(hier, h, j) == targets[0] ==> h == g && j == s;
    assert forall|i: int| 0 <= i < words.len() implies #[trigger] words[i] == word_of(g, s) by {
        assert(words.contains(words[i]));
        let (h, j) = choose|h: int, j: int|
            1 <= h && #[trigger] is_slot(h, j) && is_late(hier, targets, finished, h, j) && word_of(h, j) == words[i];
        assert(targets.contains(cell(hier, h, j)));
    }
    if words.len() > 1 {
        assert(words[0] == words[1]);
    }
}

/// Lays out a stage.
fn lay_out(
    aig: &AIG,
    cone: &Cone,
    targets: &IndexSet<usize>,
    realized: &IndexSet<usize>,
    room: usize,
) -> (r: Option<Layout>)
    requires
        aig.drivers_wf(),
        cone.wf(*aig, set_items(*realized).to_set(), set_items(*targets)),
        forall|i: int| 0 <= i < set_items(*targets).len() ==> cone.has(#[trigger] set_items(*targets)[i]),
        cone.order@.to_set() == cone_set(*aig, set_items(*realized).to_set(), set_items(*targets)),
    ensures
        r is None ==> set_items(*targets).len() + 22 >= 23 * (room + 1) || first_row(
            *aig,
            set_items(*realized).to_set(),
            set_items(*targets),
        ).len() >= 4096,
        r matches Some(l) ==> ends_met(set_items(*targets), l, room as int),
        r matches Some(l) ==> is_thrifty(set_items(*targets), l),
        r matches Some(l) ==> is_solo(*aig, set_items(*realized).to_set(), set_items(*targets)) && room >= 1 ==>
            set_items(l.packed.realized).contains(set_items(*targets)[0]),
        r matches Some(l) ==> l.ok(*aig, set_items(*realized).to_set(), *cone, set_items(*targets))
            && l.packed.write_outs@.len() <= room,
        r is None ==> set_items(*targets).len() > room || cone.order@.len() >= 4096,
{
    let (mut layout, ends) = match lay_gates(aig, cone, targets, realized, room) {
        None => {
            return None;
        },
        Some(l) => l,
    };
    let ghost done = set_items(*realized).to_set();
    let ghost tgt = set_items(*targets);
    let ghost gone0 = set_items(layout.packed.realized);
    let ghost wo0 = layout.packed.write_outs@;
    proof {
        if is_solo(*aig, done, tgt) {
            assert(tgt.len() == 1) by {
                reveal(is_solo);
            }
            assert(tgt.contains(tgt[0]));
            if depth(*aig, done, tgt[0]) <= 1 {
                lemma_solo_shallow(*aig, done, *cone, tgt);
            }
        }
    }
    if !ends.untouched {
        let left: usize = room - layout.packed.write_outs.len();
        if let Some(words) = late_words(
            &layout.hier,
            &ends.hier,
            &layout.packed.realized,
            &layout.packed.write_outs,
            left,
        ) {
            proof {
                if shallow(*aig, set_items(*realized).to_set(), set_items(*targets)) && set_items(words).len() > 0 {
                    let w = set_items(words)[0];
                    assert(set_items(words).contains(w));
                    let (h, j) = choose|h: int, j: int|
                        1 <= h && #[trigger] is_slot(h, j) && is_late(
                            layout.hier@,
                            set_items(ends.hier),
                            set_items(layout.packed.realized),
                            h,
                            j,
                        ) && word_of(h, j) == w;
                    assert(set_items(ends.hier).contains(cell(layout.hier@, h, j)));
                }
            }
            let ghost w0 = layout.packed.write_outs@;
            let ghost g0 = set_items(layout.packed.realized);
            finish_targets(
                &ends.hier,
                &words,
                &mut layout.packed,
                Ghost(layout.hier@),
                Ghost(set_items(*targets)),
                Ghost(map_view(layout.count)),
            );
            proof {
                lemma_spare_fewer(layout.hier@, tgt, g0, set_items(layout.packed.realized));
                assert(is_thrifty(tgt, layout)) by {
                    reveal(is_thrifty);
                }
                if flat(*aig, set_items(*realized).to_set(), set_items(*targets)) {
                    assert(shallow(*aig, set_items(*realized).to_set(), set_items(*targets))) by {
                        reveal(flat);
                    }
                    assert(layout.packed.write_outs@ =~= w0);
                }
                assert(ends_met(tgt, layout, room as int)) by {
                    reveal(ends_met);
                }
            }
        } else {
            proof {
                let words = choose|words: Seq<usize>| #[trigger]
                    words.no_duplicates() && words.len() > left && forall|w: usize| #[trigger]
                        words.contains(w) ==> is_late_word(layout.hier@, set_items(ends.hier), gone0, w)
                            && !wo0.contains(w);
                assert forall|w: usize| #[trigger] words.contains(w) implies is_late_word(
                    layout.hier@,
                    tgt,
                    gone0,
                    w,
                ) by {
                    let (h, j) = choose|h: int, j: int|
                        1 <= h && #[trigger] is_slot(h, j) && is_late(layout.hier@, set_items(ends.hier), gone0, h, j)
                            && word_of(h, j) == w;
                    assert(is_late(layout.hier@, tgt, gone0, h, j));
                }
                assert(words_lack(layout.hier@, wo0.len() as int, tgt, gone0, room as int)) by {
                    reveal(words_lack);
                    assert(words.no_duplicates());
                }
                assert(ends_met(tgt, layout, room as int)) by {
                    reveal(ends_met);
                }
                if is_solo(*aig, done, tgt) && room >= 1 && depth(*aig, done, tgt[0]) >= 2 {
                    lemma_one_word(layout.hier@, tgt, gone0, words);
                }
            }
        }
    } else {
        assert(ends_met(tgt, layout, room as int)) by {
            reveal(ends_met);
        }
    }
    Some(layout)
}

/// The cone of shallow targets has level 1 at most.
proof fn lemma_shallow_packed(aig: AIG, done: Set<usize>, cone: Cone, targets: Seq<usize>, max_level: usize)
    requires
        cone.wf(aig, done, targets),
        shallow(aig, done, targets),
        max_level == 0 || exists|v: usize| #[trigger] cone.has(v) && cone.lvl(v) == max_level,
    ensures
        max_level < 2,
{
    if max_level != 0 {
        let v = choose|v: usize| #[trigger] cone.has(v) && cone.lvl(v) == max_level;
        cone.lemma_level_one(aig, done, v);
        cone.lemma_spans(aig, done, targets, v);
        assert(in_cone(aig, done, targets, v));
    }
}

/// Does the word hold a target that the stage finishes?
pub open spec fn word_finishes(stage: BoomerangStage, targets: Seq<usize>, rest: Seq<usize>, w: usize) -> bool {
    exists|h: int, j: int|
        1 <= h && is_slot(h, j) && word_of(h, j) == w && targets.contains(#[trigger] cell(stage.hier@, h, j))
            && !rest.contains(cell(stage.hier@, h, j))
}

/// Does every word that is written out hold a target that the stage finishes,
/// and is none written out twice?
#[verifier::opaque]
pub open spec fn words_finish(stage: BoomerangStage, targets: Seq<usize>, rest: Seq<usize>) -> bool {
    &&& stage.write_outs@.no_duplicates()
    &&& forall|i: int|
        0 <= i < stage.write_outs@.len() ==> word_finishes(stage, targets, rest, #[trigger] stage.write_outs@[i])
}

/// What a stage makes of the pins that were realized before it and of its
/// targets: `after` are the realized pins behind it, and `rest` the targets
/// that it did not write out.
pub open spec fn stage_built(
    aig: AIG,
    before: Seq<usize>,
    after: Seq<usize>,
    targets: Seq<usize>,
    rest: Seq<usize>,
    stage: BoomerangStage,
) -> bool {
    // The stage computes what it holds.
    &&& stage.sound(aig, before.to_set(), targets)
    &&& forall|i: int| 0 <= i < stage.write_outs@.len() ==> #[trigger] stage.write_outs@[i] < 256
    // Exactly the pins that it holds become realized.
    &&& before.is_prefix_of(after)
    &&& forall|v: usize| #[trigger] after.contains(v) <==> before.contains(v) || stage.realizes(v)
    // A target is finished only if it is written out.
    &&& rest.no_duplicates()
    &&& forall|v: usize| #[trigger] rest.contains(v) ==> targets.contains(v)
    &&& forall|v: usize| #[trigger] targets.contains(v) && !rest.contains(v) ==> stage.writes(v)
    &&& stage.write_outs@.len() == 0 ==> rest == targets
    // Every word that is written out holds a target that is finished, and none
    // is written out twice.
    &&& words_finish(stage, targets, rest)
    // Every gate of leaves that a target wants is realized.
    &&& forall|v: usize| #[trigger]
        in_gate_cone(aig, before.to_set(), targets, v) && is_base_gate(aig, before.to_set(), v) ==> stage.realizes(v)
    // Every leaf that a remaining target wants is left behind by the stage.
    &&& forall|v: usize| #[trigger]
        in_gate_cone(aig, after.to_set(), rest, v) && is_leaf(aig, after.to_set(), v) ==> stage.realizes(v)
    // Targets without deep logic are all finished.
    &&& shallow(aig, before.to_set(), targets) ==> rest.len() == 0 && stage.write_outs@.len() <= targets.len()
    // Nothing stands below a vacant slot of the first row of gates.
    &&& forall|j: int| #[trigger]
        is_slot(1, j) && vacant(stage.hier@, 1, j) ==> vacant(stage.hier@, 0, j) && vacant(stage.hier@, 0, j + 4096)
    // Logic of several levels is folded into the stage.
    &&& well_filled(aig, before.to_set(), targets, stage.hier@)
    &&& is_folded(aig, before.to_set(), targets, stage.hier@)
    // Targets are written out early.
    &&& is_early(stage.hier@, rest)
    // If all gates are gates of two leaves, and targets, the stage holds the
    // targets in order.
    &&& flat(aig, before.to_set(), targets) && targets.len() <= 4096 ==> is_packed(
        stage.hier@,
        stage.write_outs@,
        targets,
    )
}

/// Are there more words with targets that are left over than can be written
/// out?
#[verifier::opaque]
pub open spec fn rest_lacks_words(stage: BoomerangStage, rest: Seq<usize>, room: int) -> bool {
    exists|words: Seq<usize>| #[trigger]
        words.no_duplicates() && words.len() + stage.write_outs@.len() > room && forall|w: usize| #[trigger]
            words.contains(w) ==> word_holds(stage.hier@, rest, w)
}

/// Does a stage, which can write out `room` words, finish what it should?
///
/// If it realizes all targets, it finishes them as far as words suffice. As long
/// as it does not, every word that it writes out finishes 23 targets or more. A
/// single target that is not too deep is finished if there is a word for it.
#[verifier::opaque]
pub open spec fn has_finished(
    aig: AIG,
    before: Set<usize>,
    targets: Seq<usize>,
    rest: Seq<usize>,
    stage: BoomerangStage,
    room: int,
) -> bool {
    &&& stage.write_outs@.len() <= room
    &&& (forall|t: usize| #[trigger] targets.contains(t) ==> stage.realizes(t)) ==> rest.len() == 0 || is_busy(
        stage.hier@,
    ) || rest_lacks_words(stage, rest, room)
    &&& (exists|t: usize| #[trigger] targets.contains(t) && !stage.realizes(t)) ==> rest.len() + 23
        * stage.write_outs@.len() <= targets.len()
    &&& is_solo(aig, before, targets) && room >= 1 ==> rest.len() == 0
}

/// May a stage for the targets not fit: are there too few words for the targets,
/// at 23 of them in a word, or too few slots in the first row of gates for what
/// it has to provide?
pub open spec fn no_fit(aig: AIG, realized: Set<usize>, targets: Seq<usize>, total: int, reserved: int) -> bool {
    ||| total + (targets.len() + 22) / 23 > BOOMERANG_MAX_WRITEOUTS - reserved
    ||| first_row(aig, realized, targets).len() >= 4096
}

/// Builds a single boomerang stage, given the pins that are realized and the
/// targets that are not written out yet. Pins that the stage realizes are
/// added to the former, and targets that it writes out are taken from the
/// latter.
///
/// There is `None` if the write-outs or the slots of the stage do not suffice.
/// Targets without logic among them fill the first row of gates in order. Deeper
/// logic is folded into the rows behind it as long as there is room; which slot
/// of its row a gate gets is up to where the search for room finds one.
pub fn build_one_boomerang_stage(
    aig: &AIG,
    unrealized_comb_outputs: &mut IndexSet<usize>,
    realized_inputs: &mut IndexSet<usize>,
    total_write_outs: &mut usize,
    num_reserved_writeouts: usize,
) -> (r: Option<BoomerangStage>)
    requires
        aig.walkable(),
        aig.drivers_wf(),
        aig.acyclic(set_items(*old(realized_inputs)).to_set()),
        set_items(*old(unrealized_comb_outputs)).len() > 0,
        forall|i: int|
            0 <= i < set_items(*old(unrealized_comb_outputs)).len() ==> #[trigger] set_items(
                *old(unrealized_comb_outputs),
            )[i] <= aig.num_aigpins,
        num_reserved_writeouts <= BOOMERANG_MAX_WRITEOUTS,
    ensures
        *old(total_write_outs) > BOOMERANG_MAX_WRITEOUTS - num_reserved_writeouts ==> r is None,
        r matches Some(stage) ==> has_finished(
            *aig,
            set_items(*old(realized_inputs)).to_set(),
            set_items(*old(unrealized_comb_outputs)),
            set_items(*final(unrealized_comb_outputs)),
            stage,
            BOOMERANG_MAX_WRITEOUTS - num_reserved_writeouts - *old(total_write_outs),
        ),
        r is None ==> no_fit(
            *aig,
            set_items(*old(realized_inputs)).to_set(),
            set_items(*old(unrealized_comb_outputs)),
            *old(total_write_outs) as int,
            num_reserved_writeouts as int,
        ),
        r matches Some(stage) ==> stage_built(
            *aig,
            set_items(*old(realized_inputs)),
            set_items(*final(realized_inputs)),
            set_items(*old(unrealized_comb_outputs)),
            set_items(*final(unrealized_comb_outputs)),
            stage,
        ),
        r matches Some(stage) ==> *final(total_write_outs) == *old(total_write_outs) + stage.write_outs@.len()
            && *final(total_write_outs) <= BOOMERANG_MAX_WRITEOUTS - num_reserved_writeouts,
        r is None ==> *old(total_write_outs) + set_items(*old(unrealized_comb_outputs)).len()
            > BOOMERANG_MAX_WRITEOUTS - num_reserved_writeouts || cone_set(
            *aig,
            set_items(*old(realized_inputs)).to_set(),
            set_items(*old(unrealized_comb_outputs)),
        ).len() >= 4096,
        r is None ==> *final(realized_inputs) == *old(realized_inputs) && *final(unrealized_comb_outputs) == *old(
            unrealized_comb_outputs,
        ) && *final(total_write_outs) == *old(total_write_outs),
{
    let ghost before = set_items(*realized_inputs);
    let ghost done = before.to_set();
    let ghost tgt = set_items(*unrealized_comb_outputs);
    if *total_write_outs > BOOMERANG_MAX_WRITEOUTS - num_reserved_writeouts {
        return None;
    }
    let cone = Cone::build(aig, unrealized_comb_outputs, realized_inputs);
    proof {
        assert forall|i: int| 0 <= i < tgt.len() implies cone.has(#[trigger] tgt[i]) by {
            assert(tgt.contains(tgt[i]));
            aig.lemma_reaches_self(done, tgt[i]);
            assert(in_cone(*aig, done, tgt, tgt[i]));
            cone.lemma_spans(*aig, done, tgt, tgt[i]);
        }
        cone.order@.unique_seq_to_set();
    }
    let room: usize = BOOMERANG_MAX_WRITEOUTS - num_reserved_writeouts - *total_write_outs;
    let layout = match lay_out(aig, &cone, unrealized_comb_outputs, realized_inputs, room) {
        None => {
            return None;
        },
        Some(l) => l,
    };
    *total_write_outs = *total_write_outs + layout.packed.write_outs.len();
    add_keys(realized_inputs, &layout.count);
    remove_all(unrealized_comb_outputs, &layout.packed.realized);
    proof {
        lemma_stage_built(
            *aig,
            cone,
            before,
            set_items(*realized_inputs),
            tgt,
            set_items(*unrealized_comb_outputs),
            layout,
        );
        lemma_finished(*aig, done, tgt, set_items(*unrealized_comb_outputs), layout, room as int);
    }
    Some(BoomerangStage { hier: layout.hier, write_outs: layout.packed.write_outs })
}

/// What should be finished is finished.
proof fn lemma_finished(
    aig: AIG,
    done: Set<usize>,
    targets: Seq<usize>,
    rest: Seq<usize>,
    layout: Layout,
    room: int,
)
    requires
        shaped(layout.hier@),
        counted(layout.hier@, map_view(layout.count)),
        ends_met(targets, layout, room),
        is_thrifty(targets, layout),
        is_solo(aig, done, targets) && room >= 1 ==> set_items(layout.packed.realized).contains(targets[0]),
        layout.packed.write_outs@.len() <= room,
        rest.no_duplicates(),
        forall|x: usize| #[trigger] set_items(layout.packed.realized).contains(x) ==> targets.contains(x),
        forall|x: usize| #[trigger]
            rest.contains(x) <==> targets.contains(x) && !set_items(layout.packed.realized).contains(x),
    ensures
        has_finished(
            aig,
            done,
            targets,
            rest,
            (BoomerangStage { hier: layout.hier, write_outs: layout.packed.write_outs }),
            room,
        ),
{
    let stage = BoomerangStage { hier: layout.hier, write_outs: layout.packed.write_outs };
    let gone = set_items(layout.packed.realized);
    reveal(has_finished);
    lemma_rest(targets, rest, layout, room);
    lemma_counted(layout.hier@, map_view(layout.count));
    if exists|t: usize| #[trigger] targets.contains(t) && !stage.realizes(t) {
        reveal(is_thrifty);
        let t = choose|t: usize| #[trigger] targets.contains(t) && !stage.realizes(t);
        assert(!map_view(layout.count).contains_key(t));
        let both = rest + gone;
        assert(both.no_duplicates()) by {
            assert forall|i: int, j: int| 0 <= i < both.len() && 0 <= j < both.len() && i < j implies both[i]
                != both[j] by {
                if i < rest.len() {
                    assert(rest.contains(rest[i]));
                }
                if j >= rest.len() {
                    assert(gone.contains(gone[j - rest.len()]));
                }
            }
        }
        assert forall|x: usize| #[trigger] both.contains(x) implies targets.contains(x) by {
            let i = both.index_of(x);
            if i < rest.len() {
                assert(rest.contains(rest[i]));
            } else {
                assert(gone.contains(gone[i - rest.len()]));
            }
        }
        lemma_sub_len(both, targets);
    }
    if is_solo(aig, done, targets) && room >= 1 && rest.len() > 0 {
        assert(targets.len() == 1) by {
            reveal(is_solo);
        }
        assert(rest.contains(rest[0]));
        assert(targets.contains(rest[0]));
    }
}

/// What is left over when all targets are placed.
proof fn lemma_rest(targets: Seq<usize>, rest: Seq<usize>, layout: Layout, room: int)
    requires
        shaped(layout.hier@),
        counted(layout.hier@, map_view(layout.count)),
        ends_met(targets, layout, room),
        forall|x: usize| #[trigger]
            rest.contains(x) <==> targets.contains(x) && !set_items(layout.packed.realized).contains(x),
    ensures
        ({
            let stage = BoomerangStage { hier: layout.hier, write_outs: layout.packed.write_outs };
            (forall|t: usize| #[trigger] targets.contains(t) ==> stage.realizes(t)) ==> rest.len() == 0 || is_busy(
                stage.hier@,
            ) || rest_lacks_words(stage, rest, room)
        }),
{
    let stage = BoomerangStage { hier: layout.hier, write_outs: layout.packed.write_outs };
    let hier = layout.hier@;
    let gone = set_items(layout.packed.realized);
    if forall|t: usize| #[trigger] targets.contains(t) ==> stage.realizes(t) {
        lemma_counted(hier, map_view(layout.count));
        reveal(ends_met);
        if rest.len() > 0 {
            assert(rest.contains(rest[0]));
        }
        if words_lack(hier, layout.packed.write_outs@.len() as int, targets, gone, room) {
            reveal(words_lack);
            reveal(rest_lacks_words);
            let words = choose|words: Seq<usize>| #[trigger]
                words.no_duplicates() && words.len() + layout.packed.write_outs@.len() > room && forall|w: usize|
                    #[trigger] words.contains(w) ==> is_late_word(hier, targets, gone, w);
            assert forall|w: usize| #[trigger] words.contains(w) implies word_holds(hier, rest, w) by {
                let (h, j) = choose|h: int, j: int|
                    1 <= h && #[trigger] is_slot(h, j) && is_late(hier, targets, gone, h, j) && word_of(h, j) == w;
                assert(rest.contains(cell(hier, h, j)));
            }
            assert(words.no_duplicates());
        }
    }
}

proof fn lemma_stage_built(
    aig: AIG,
    cone: Cone,
    before: Seq<usize>,
    after: Seq<usize>,
    targets: Seq<usize>,
    rest: Seq<usize>,
    layout: Layout,
)
    requires
        aig.drivers_wf(),
        cone.wf(aig, before.to_set(), targets),
        layout.ok(aig, before.to_set(), cone, targets),
        before.is_prefix_of(after),
        forall|x: usize| #[trigger]
            after.contains(x) <==> before.contains(x) || map_view(layout.count).contains_key(x),
        rest.no_duplicates(),
        forall|x: usize| #[trigger]
            rest.contains(x) <==> targets.contains(x) && !set_items(layout.packed.realized).contains(x),
        set_items(layout.packed.realized).len() == 0 ==> rest == targets,
    ensures
        stage_built(
            aig,
            before,
            after,
            targets,
            rest,
            (BoomerangStage { hier: layout.hier, write_outs: layout.packed.write_outs }),
        ),
{
    let done = before.to_set();
    let next = after.to_set();
    let stage = BoomerangStage { hier: layout.hier, write_outs: layout.packed.write_outs };
    let hier = layout.hier@;
    let gone = set_items(layout.packed.realized);
    lemma_counted(hier, map_view(layout.count));
    assert(stage.sound(aig, done, targets)) by {
        assert forall|h: int, j: int| #[trigger] is_slot(h, j) implies slot_sound(aig, done, targets, hier, h, j) by {
            assert(slot_ok(aig, done, cone, hier, h, j));
            if !vacant(hier, h, j) {
                let v = cell(hier, h, j);
                cone.lemma_spans(aig, done, targets, v);
                cone.lemma_level_one(aig, done, v);
                cone.lemma_leveled(aig, done, v);
            }
        }
    }
    assert(extends(hier, done, next));
    assert(is_rest(rest, targets));
    reveal(provides);
    assert(carries(aig, hier, rest, next));
    assert forall|v: usize| #[trigger] targets.contains(v) && !rest.contains(v) implies stage.writes(v) by {
        assert(gone.contains(v));
    }
    if stage.write_outs@.len() == 0 && gone.len() > 0 {
        let v = gone[0];
        assert(gone.contains(v));
        assert(written(hier, stage.write_outs@, v));
    }
    reveal(words_useful);
    reveal(words_finish);
    assert forall|i: int| 0 <= i < stage.write_outs@.len() implies word_finishes(
        stage,
        targets,
        rest,
        #[trigger] stage.write_outs@[i],
    ) by {
        let w = stage.write_outs@[i];
        assert(word_holds(hier, gone, w));
        let (h, j) = choose|h: int, j: int|
            1 <= h && is_slot(h, j) && word_of(h, j) == w && gone.contains(#[trigger] cell(hier, h, j));
        assert(targets.contains(cell(stage.hier@, h, j)) && !rest.contains(cell(stage.hier@, h, j)));
    }
    assert forall|v: usize| #[trigger]
        in_gate_cone(aig, done, targets, v) && is_base_gate(aig, done, v) implies stage.realizes(v) by {
        lemma_cone_pin(aig, done, cone, targets, v);
    }
    assert forall|v: usize| #[trigger] in_gate_cone(aig, next, rest, v) && is_leaf(aig, next, v) implies stage.realizes(
        v,
    ) by {
        assert(in_gate_cone(aig, done, targets, v)) by {
            let t = choose|t: usize| #[trigger] rest.contains(t) && aig.reaches(leaves(aig, next), t, v);
            assert(targets.contains(t));
            lemma_reach_more(aig, leaves(aig, next), leaves(aig, done), t, v);
        }
        lemma_cone_pin(aig, done, cone, targets, v);
    }
    if shallow(aig, done, targets) && rest.len() > 0 {
        assert(rest.contains(rest[0]));
        assert(targets.contains(rest[0]));
    }
    assert(is_early(hier, rest)) by {
        reveal(is_early);
        reveal(few_spare);
        assert forall|s: Seq<usize>|
            s.no_duplicates() && s.to_set().subset_of(rest.to_set()) && #[trigger] all_spare(hier, s) && !is_busy(
                hier,
            ) implies s.len() < 32 by {
            assert forall|x: usize| #[trigger] s.contains(x) implies targets.contains(x) && !gone.contains(x) by {
                assert(s.to_set().contains(x));
                assert(rest.to_set().contains(x));
            }
            assert(all_open(s, targets, gone));
        }
    }
}

/// Below a gate that is yet to be realized there is one of two leaves.
proof fn lemma_base_gate_below(aig: AIG, done: Set<usize>, u: usize) -> (v: usize)
    requires
        aig.drivers_wf(),
        u <= aig.num_aigpins,
        !is_leaf(aig, done, u),
    ensures
        is_base_gate(aig, done, v),
        aig.reaches(leaves(aig, done), u, v),
    decreases u,
{
    if is_base_gate(aig, done, u) {
        aig.lemma_reaches_self(leaves(aig, done), u);
        u
    } else {
        let (a, b) = match aig.drivers@[u as int] {
            DriverType::AndGate(a, b) => (a, b),
            _ => (0, 0),
        };
        let s = seq![(a / 2) as usize, (b / 2) as usize];
        let k: int = if is_leaf(aig, done, s[0]) {
            1
        } else {
            0
        };
        let w = s[k];
        assert(w < u && w != 0);
        assert(nonzero(s).contains(w)) by {
            reveal_with_fuel(nonzero, 3);
            assert(s.drop_last().drop_last() =~= Seq::<usize>::empty());
            assert(nonzero(s) =~= s);
            assert(nonzero(s)[k] == w);
        }
        let v = lemma_base_gate_below(aig, done, w);
        aig.lemma_reaches_step(leaves(aig, done), u, w, v);
        v
    }
}

/// Every stage makes progress: it finishes a target or realizes a pin.
pub(crate) proof fn lemma_stage_progress(
    aig: AIG,
    before: Seq<usize>,
    after: Seq<usize>,
    targets: Seq<usize>,
    rest: Seq<usize>,
    stage: BoomerangStage,
)
    requires
        aig.drivers_wf(),
        targets.len() > 0,
        forall|i: int| 0 <= i < targets.len() ==> #[trigger] targets[i] <= aig.num_aigpins,
        stage_built(aig, before, after, targets, rest, stage),
    ensures
        after != before || exists|v: usize| #[trigger] targets.contains(v) && !rest.contains(v),
{
    let done = before.to_set();
    if after == before && (forall|v: usize| #[trigger] targets.contains(v) ==> rest.contains(v)) {
        if exists|t: usize| #[trigger] targets.contains(t) && !done.contains(t) {
            let t = choose|t: usize| #[trigger] targets.contains(t) && !done.contains(t);
            assert(targets[targets.index_of(t)] <= aig.num_aigpins);
            assert(rest.contains(t));
            if is_leaf(aig, done, t) {
                aig.lemma_reaches_self(leaves(aig, done), t);
                assert(in_gate_cone(aig, done, rest, t));
                assert(stage.realizes(t));
                assert(after.contains(t));
            } else {
                let v = lemma_base_gate_below(aig, done, t);
                assert(in_gate_cone(aig, done, targets, v));
                assert(stage.realizes(v));
                assert(after.contains(v));
                assert(done.contains(v));
            }
        } else {
            assert forall|v: usize| #[trigger] in_cone(aig, done, targets, v) implies is_leaf(aig, done, v) by {
                let t = choose|t: usize| #[trigger] targets.contains(t) && aig.reaches(done, t, v);
                let w = choose|w: Seq<usize>| #[trigger] aig.is_walk(done, w) && w[0] == t && w.last() == v;
                if w.len() > 1 {
                    assert(aig.is_step(done, w, 0));
                }
            }
            assert(shallow(aig, done, targets));
            assert(targets.contains(targets[0]));
            assert(rest.contains(targets[0]));
        }
    }
}

/// A stage that writes out something finishes a target.
pub(crate) proof fn lemma_writes_finish(
    aig: AIG,
    before: Seq<usize>,
    after: Seq<usize>,
    targets: Seq<usize>,
    rest: Seq<usize>,
    stage: BoomerangStage,
)
    requires
        stage_built(aig, before, after, targets, rest, stage),
        stage.write_outs@.len() > 0,
    ensures
        exists|v: usize| #[trigger] targets.contains(v) && !rest.contains(v),
{
    let w = stage.write_outs@[0];
    reveal(words_finish);
    assert(word_finishes(stage, targets, rest, w));
    let (h, j) = choose|h: int, j: int|
        1 <= h && is_slot(h, j) && word_of(h, j) == w && targets.contains(#[trigger] cell(stage.hier@, h, j))
            && !rest.contains(cell(stage.hier@, h, j));
    assert(targets.contains(cell(stage.hier@, h, j)));
}

/// A walk that stops at more pins is a walk that stops at fewer.
pub(crate) proof fn lemma_reach_more(aig: AIG, more: Set<usize>, fewer: Set<usize>, u: usize, v: usize)
    requires
        aig.reaches(more, u, v),
        fewer.subset_of(more),
    ensures
        aig.reaches(fewer, u, v),
{
    let s = choose|s: Seq<usize>| #[trigger] aig.is_walk(more, s) && s[0] == u && s.last() == v;
    assert(aig.is_walk(fewer, s)) by {
        assert forall|i: int| 0 <= i < s.len() - 1 implies #[trigger] aig.is_step(fewer, s, i) by {
            assert(aig.is_step(more, s, i));
        }
    }
}

/// A pin in the cone of gates is a pin.
proof fn lemma_cone_pin(aig: AIG, done: Set<usize>, cone: Cone, targets: Seq<usize>, v: usize)
    requires
        cone.wf(aig, done, targets),
        in_gate_cone(aig, done, targets, v),
    ensures
        v <= aig.num_aigpins,
{
    let t = choose|t: usize| #[trigger] targets.contains(t) && aig.reaches(leaves(aig, done), t, v);
    lemma_reach_more(aig, leaves(aig, done), done, t, v);
    assert(in_cone(aig, done, targets, v));
    cone.lemma_spans(aig, done, targets, v);
    assert(cone.has(v));
}

} // verus!
