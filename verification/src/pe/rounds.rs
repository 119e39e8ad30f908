//! Driving boomerang stages until what is wanted is there.

use super::cone::{cone_set, in_cone, in_gate_cone, is_base_gate, is_leaf, leaves};
use super::grid::{cell, fed, is_slot, shaped, vacant};
use super::stage::{
    build_one_boomerang_stage, has_finished, lemma_no_dup_pair, lemma_push_contains, lemma_reach_more,
    lemma_stage_progress, lemma_sub_len, lemma_writes_finish, no_fit, shallow, slot_sound, stage_built, word_finishes,
    word_of, words_finish, BoomerangStage, BOOMERANG_MAX_WRITEOUTS,
};
use crate::aig::{lemma_distinct_len, ranks, AIG};
use crate::collections::{set_add, set_at, set_contains, set_items, set_len};
use indexmap::IndexSet;
use vstd::prelude::*;

verus! {

/// Are these pins of the graph?
pub open spec fn are_pins(aig: AIG, s: Seq<usize>) -> bool {
    forall|i: int| 0 <= i < s.len() ==> #[trigger] s[i] <= aig.num_aigpins
}

/// Does one of the stages leave the value of the pin behind?
pub open spec fn realized_in(stages: Seq<BoomerangStage>, v: usize) -> bool {
    exists|k: int| 0 <= k < stages.len() && (#[trigger] stages[k]).realizes(v)
}

/// Does one of the stages write the pin out?
pub open spec fn written_in(stages: Seq<BoomerangStage>, v: usize) -> bool {
    exists|k: int| 0 <= k < stages.len() && (#[trigger] stages[k]).writes(v)
}

/// Can a slot of a stage be computed?
///
/// A pin in the first row is an and gate only if it is there from the start or
/// an earlier stage realizes it. A pin in any other row is passed on or
/// conjoined from the row before.
pub open spec fn slot_backed(
    aig: AIG,
    seeds: Set<usize>,
    earlier: Seq<BoomerangStage>,
    hier: Seq<Vec<usize>>,
    h: int,
    j: int,
) -> bool {
    !vacant(hier, h, j) ==> {
        let v = cell(hier, h, j);
        &&& v <= aig.num_aigpins
        &&& h == 0 ==> is_leaf(aig, seeds, v) || realized_in(earlier, v)
        &&& h >= 1 ==> fed(aig, hier, h, j)
    }
}

/// Does the stage hold something in the word?
pub open spec fn word_used(stage: BoomerangStage, w: usize) -> bool {
    exists|h: int, j: int| 1 <= h && #[trigger] is_slot(h, j) && word_of(h, j) == w && !vacant(stage.hier@, h, j)
}

/// Does the stage write out words that hold something, none of them twice?
#[verifier::opaque]
pub open spec fn words_used(stage: BoomerangStage) -> bool {
    &&& stage.write_outs@.no_duplicates()
    &&& forall|i: int| 0 <= i < stage.write_outs@.len() ==> word_used(stage, #[trigger] stage.write_outs@[i])
}

/// Does the stage write out something, or hold a pin that was not there before?
#[verifier::opaque]
pub open spec fn moves_on(seeds: Set<usize>, earlier: Seq<BoomerangStage>, stage: BoomerangStage) -> bool {
    stage.write_outs@.len() > 0 || exists|v: usize| #[trigger]
        stage.realizes(v) && !seeds.contains(v) && !realized_in(earlier, v)
}

/// Is the stage one that is built, for some targets, upon what is there before
/// it?
#[verifier::opaque]
pub open spec fn is_built(
    aig: AIG,
    seeds: Set<usize>,
    earlier: Seq<BoomerangStage>,
    stage: BoomerangStage,
) -> bool {
    exists|before: Seq<usize>, after: Seq<usize>, targets: Seq<usize>, rest: Seq<usize>| #[trigger]
        stage_built(aig, before, after, targets, rest, stage) && targets.len() > 0 && forall|v: usize| #[trigger]
            before.contains(v) <==> seeds.contains(v) || realized_in(earlier, v)
}

/// Can everything in a stage be computed from what is there before it, and is
/// the stage of use?
pub open spec fn stage_backed(
    aig: AIG,
    seeds: Set<usize>,
    earlier: Seq<BoomerangStage>,
    stage: BoomerangStage,
) -> bool {
    &&& shaped(stage.hier@)
    &&& forall|h: int, j: int| #[trigger] is_slot(h, j) ==> slot_backed(aig, seeds, earlier, stage.hier@, h, j)
    &&& forall|i: int| 0 <= i < stage.write_outs@.len() ==> #[trigger] stage.write_outs@[i] < 256
    &&& words_used(stage)
    &&& moves_on(seeds, earlier, stage)
    &&& is_built(aig, seeds, earlier, stage)
}

/// Can everything in all stages be computed, one stage after the other?
pub open spec fn stages_backed(aig: AIG, seeds: Set<usize>, stages: Seq<BoomerangStage>) -> bool {
    forall|k: int|
        0 <= k < stages.len() ==> stage_backed(aig, seeds, stages.take(k), #[trigger] stages[k])
}

/// The number of words that some stages write out.
pub open spec fn count_write_outs(stages: Seq<BoomerangStage>) -> nat
    decreases stages.len(),
{
    if stages.len() == 0 {
        0
    } else {
        count_write_outs(stages.drop_last()) + stages.last().write_outs@.len()
    }
}

/// Does every stage but the first take only what the stage before it leaves
/// behind?
pub open spec fn stages_linked(stages: Seq<BoomerangStage>) -> bool {
    forall|k: int, j: int|
        0 < k < stages.len() && #[trigger] is_slot(0, j) && !vacant((#[trigger] stages[k]).hier@, 0, j)
            ==> stages[k - 1].realizes(cell(stages[k].hier@, 0, j))
}

/// The stages so far, and what is realized by them.
pub open spec fn stages_ok(
    aig: AIG,
    seeds: Set<usize>,
    stages: Seq<BoomerangStage>,
    realized: Seq<usize>,
    total: usize,
) -> bool {
    &&& stages_backed(aig, seeds, stages)
    &&& are_pins(aig, realized)
    &&& forall|v: usize| #[trigger] realized.contains(v) <==> seeds.contains(v) || realized_in(stages, v)
    &&& total == count_write_outs(stages)
}

/// A stage that is built is of use.
proof fn lemma_stage_of_use(
    aig: AIG,
    seeds: Set<usize>,
    stages: Seq<BoomerangStage>,
    stage: BoomerangStage,
    before: Seq<usize>,
    after: Seq<usize>,
    targets: Seq<usize>,
    rest: Seq<usize>,
    total: usize,
)
    requires
        stages_ok(aig, seeds, stages, before, total),
        aig.drivers_wf(),
        are_pins(aig, targets),
        targets.len() > 0,
        after.no_duplicates(),
        stage_built(aig, before, after, targets, rest, stage),
    ensures
        words_used(stage),
        moves_on(seeds, stages, stage),
{
    assert(words_used(stage)) by {
        reveal(words_used);
        reveal(words_finish);
        assert forall|i: int| 0 <= i < stage.write_outs@.len() implies word_used(
            stage,
            #[trigger] stage.write_outs@[i],
        ) by {
            let w = stage.write_outs@[i];
            assert(word_finishes(stage, targets, rest, w));
            let (h, j) = choose|h: int, j: int|
                1 <= h && is_slot(h, j) && word_of(h, j) == w && targets.contains(#[trigger] cell(stage.hier@, h, j))
                    && !rest.contains(cell(stage.hier@, h, j));
            let v = cell(stage.hier@, h, j);
            assert(targets[targets.index_of(v)] <= aig.num_aigpins);
            assert(is_slot(h, j) && !vacant(stage.hier@, h, j));
        }
    }
    assert(moves_on(seeds, stages, stage)) by {
        reveal(moves_on);
        lemma_stage_progress(aig, before, after, targets, rest, stage);
        if stage.write_outs@.len() == 0 {
            assert(rest == targets);
            assert(after != before);
            assert(after.len() > before.len()) by {
                if after.len() == before.len() {
                    assert(after =~= before);
                }
            }
            let v = lemma_new_element(before, after);
            assert(stage.realizes(v));
        }
    }
}

/// A longer sequence of distinct elements that begins with another one has one
/// that the other has not.
proof fn lemma_new_element(a: Seq<usize>, b: Seq<usize>) -> (v: usize)
    requires
        a.is_prefix_of(b),
        a.len() < b.len(),
        b.no_duplicates(),
    ensures
        b.contains(v),
        !a.contains(v),
{
    let v = b[a.len() as int];
    if a.contains(v) {
        lemma_no_dup_pair(b, a.index_of(v), a.len() as int);
    }
    v
}

/// A further stage built upon what is realized keeps the stages right.
proof fn lemma_stage_added(
    aig: AIG,
    seeds: Set<usize>,
    stages: Seq<BoomerangStage>,
    stage: BoomerangStage,
    before: Seq<usize>,
    after: Seq<usize>,
    targets: Seq<usize>,
    rest: Seq<usize>,
    total: usize,
    next_total: usize,
)
    requires
        stages_ok(aig, seeds, stages, before, total),
        aig.walkable(),
        aig.drivers_wf(),
        are_pins(aig, targets),
        targets.len() > 0,
        after.no_duplicates(),
        stage_built(aig, before, after, targets, rest, stage),
        next_total == total + stage.write_outs@.len(),
    ensures
        stages_ok(aig, seeds, stages.push(stage), after, next_total),
        forall|v: usize| #[trigger]
            after.contains(v) ==> before.contains(v) || in_cone(aig, before.to_set(), targets, v),
{
    let all = stages.push(stage);
    let done = before.to_set();
    assert(all.drop_last() =~= stages);
    lemma_stage_pins(aig, done, targets, stage);
    lemma_stage_of_use(aig, seeds, stages, stage, before, after, targets, rest, total);
    assert forall|k: int| 0 <= k < all.len() implies stage_backed(aig, seeds, all.take(k), #[trigger] all[k]) by {
        if k < stages.len() {
            assert(all.take(k) =~= stages.take(k));
            assert(all[k] == stages[k]);
        } else {
            assert(all.take(k) =~= stages);
            assert(is_built(aig, seeds, stages, stage)) by {
                reveal(is_built);
            }
            assert forall|h: int, j: int| #[trigger] is_slot(h, j) implies slot_backed(
                aig,
                seeds,
                stages,
                stage.hier@,
                h,
                j,
            ) by {
                assert(slot_sound(aig, done, targets, stage.hier@, h, j));
                let v = cell(stage.hier@, h, j);
                if !vacant(stage.hier@, h, j) && h == 0 && done.contains(v) {
                    assert(before.contains(v));
                }
            }
        }
    }
    assert forall|v: usize| #[trigger] realized_in(all, v) <==> realized_in(stages, v) || stage.realizes(v) by {
        if realized_in(stages, v) {
            let k = choose|k: int| 0 <= k < stages.len() && (#[trigger] stages[k]).realizes(v);
            assert(all[k].realizes(v));
        }
        if stage.realizes(v) {
            assert(all[stages.len() as int].realizes(v));
        }
        if realized_in(all, v) && !stage.realizes(v) {
            let k = choose|k: int| 0 <= k < all.len() && (#[trigger] all[k]).realizes(v);
            assert(stages[k].realizes(v));
        }
    }
    assert forall|v: usize| #[trigger] after.contains(v) implies before.contains(v) || in_cone(aig, done, targets,
        v) by {
        if stage.realizes(v) {
            let (h, j) = choose|h: int, j: int| 1 <= h && is_slot(h, j) && #[trigger] cell(stage.hier@, h, j) == v;
            assert(slot_sound(aig, done, targets, stage.hier@, h, j));
        }
    }
    assert forall|i: int| 0 <= i < after.len() implies #[trigger] after[i] <= aig.num_aigpins by {
        let v = after[i];
        assert(after.contains(v));
        if before.contains(v) {
            assert(before[before.index_of(v)] <= aig.num_aigpins);
        } else {
            let (h, j) = choose|h: int, j: int| 1 <= h && is_slot(h, j) && #[trigger] cell(stage.hier@, h, j) == v;
            assert(is_slot(h, j));
        }
    }
}

/// What a stage holds are pins of the graph.
proof fn lemma_stage_pins(aig: AIG, done: Set<usize>, targets: Seq<usize>, stage: BoomerangStage)
    requires
        aig.walkable(),
        are_pins(aig, targets),
        stage.sound(aig, done, targets),
    ensures
        forall|h: int, j: int| #[trigger]
            is_slot(h, j) && !vacant(stage.hier@, h, j) ==> cell(stage.hier@, h, j) <= aig.num_aigpins,
{
    assert forall|h: int, j: int| #[trigger] is_slot(h, j) && !vacant(stage.hier@, h, j) implies cell(
        stage.hier@,
        h,
        j,
    ) <= aig.num_aigpins by {
        assert(slot_sound(aig, done, targets, stage.hier@, h, j));
        lemma_cone_pins(aig, done, targets, cell(stage.hier@, h, j));
    }
}

/// What pins depend on are pins.
pub(crate) proof fn lemma_cone_pins(aig: AIG, done: Set<usize>, targets: Seq<usize>, v: usize)
    requires
        aig.closed_fanin(),
        are_pins(aig, targets),
        in_cone(aig, done, targets, v),
    ensures
        v <= aig.num_aigpins,
{
    let t = choose|t: usize| #[trigger] targets.contains(t) && aig.reaches(done, t, v);
    assert(targets[targets.index_of(t)] <= aig.num_aigpins);
    let s = choose|s: Seq<usize>| #[trigger] aig.is_walk(done, s) && s[0] == t && s.last() == v;
    lemma_walk_pins(aig, done, s, s.len() - 1);
}

proof fn lemma_walk_pins(aig: AIG, done: Set<usize>, s: Seq<usize>, k: int)
    requires
        aig.closed_fanin(),
        aig.is_walk(done, s),
        s[0] <= aig.num_aigpins,
        0 <= k < s.len(),
    ensures
        s[k] <= aig.num_aigpins,
    decreases k,
{
    if k > 0 {
        lemma_walk_pins(aig, done, s, k - 1);
        assert(aig.is_step(done, s, k - 1));
        assert(aig.fanin(s[k - 1]).contains(s[k]));
    }
}

/// Less is to be ordered where traversal stops earlier.
pub(crate) proof fn lemma_acyclic_more(aig: AIG, fewer: Set<usize>, more: Set<usize>)
    requires
        aig.acyclic(fewer),
        fewer.subset_of(more),
    ensures
        aig.acyclic(more),
{
    let rank = choose|rank: spec_fn(usize) -> nat| #[trigger] ranks(aig, fewer, rank);
    assert(ranks(aig, more, rank));
}

/// Is every element of one set in the other?
pub(crate) fn all_contained(a: &IndexSet<usize>, b: &IndexSet<usize>) -> (r: bool)
    ensures
        r == forall|x: usize| #[trigger] set_items(*a).contains(x) ==> set_items(*b).contains(x),
{
    let n = set_len(a);
    let ghost s = set_items(*a);
    let mut i: usize = 0;
    while i < n
        invariant
            s == set_items(*a),
            n == s.len(),
            i <= n,
            forall|k: int| 0 <= k < i ==> set_items(*b).contains(#[trigger] s[k]),
        decreases n - i,
    {
        let v = set_at(a, i);
        if !set_contains(b, v) {
            assert(s.contains(v));
            return false;
        }
        i += 1;
    }
    assert forall|x: usize| #[trigger] s.contains(x) implies set_items(*b).contains(x) by {
        assert(set_items(*b).contains(s[s.index_of(x)]));
    }
    true
}

/// Makes pins that are realized targets again.
fn rearm(targets: &mut IndexSet<usize>, keep_live: &IndexSet<usize>, realized: &IndexSet<usize>)
    ensures
        set_items(*old(targets)).is_prefix_of(set_items(*final(targets))),
        set_items(*final(targets)).no_duplicates(),
        forall|x: usize| #[trigger]
            set_items(*final(targets)).contains(x) <==> set_items(*old(targets)).contains(x) || (set_items(
                *keep_live,
            ).contains(x) && set_items(*realized).contains(x)),
{
    let n = set_len(keep_live);
    let _ = set_len(targets);
    let ghost s = set_items(*keep_live);
    let ghost t0 = set_items(*targets);
    let mut i: usize = 0;
    while i < n
        invariant
            set_items(*targets).no_duplicates(),
            s == set_items(*keep_live),
            n == s.len(),
            i <= n,
            t0.is_prefix_of(set_items(*targets)),
            forall|x: usize| #[trigger]
                set_items(*targets).contains(x) <==> t0.contains(x) || (s.take(i as int).contains(x) && set_items(
                    *realized,
                ).contains(x)),
        decreases n - i,
    {
        let v = set_at(keep_live, i);
        proof {
            assert(s.take(i + 1) =~= s.take(i as int).push(v));
            lemma_push_contains(s.take(i as int), v);
        }
        if set_contains(realized, v) {
            set_add(targets, v);
        }
        i += 1;
    }
    assert(s.take(n as int) =~= s);
}

/// Is every pin with fan-in, but for those that are done, an and gate?
pub open spec fn gates_only(aig: AIG, done: Set<usize>) -> bool {
    forall|u: usize, w: usize|
        u <= aig.num_aigpins && !done.contains(u) && #[trigger] aig.fanin(u).contains(w)
            ==> aig.drivers@[u as int] is AndGate
}

/// Where there is nothing but gates, all dependence is through gates.
proof fn lemma_gates_only(aig: AIG, seeds: Set<usize>, done: Set<usize>, targets: Seq<usize>, v: usize)
    requires
        aig.closed_fanin(),
        are_pins(aig, targets),
        gates_only(aig, seeds),
        seeds.subset_of(done),
        in_cone(aig, done, targets, v),
    ensures
        in_gate_cone(aig, done, targets, v),
{
    let t = choose|t: usize| #[trigger] targets.contains(t) && aig.reaches(done, t, v);
    assert(targets[targets.index_of(t)] <= aig.num_aigpins);
    let s = choose|s: Seq<usize>| #[trigger] aig.is_walk(done, s) && s[0] == t && s.last() == v;
    let stop = super::cone::leaves(aig, done);
    assert forall|i: int| 0 <= i < s.len() - 1 implies #[trigger] aig.is_step(stop, s, i) by {
        assert(aig.is_step(done, s, i));
        lemma_walk_pins(aig, done, s, i);
        assert(aig.fanin(s[i]).contains(s[i + 1]));
    }
    assert(aig.is_walk(stop, s));
}

/// Is what the targets want left behind by the last stage?
spec fn supplied(aig: AIG, stages: Seq<BoomerangStage>, realized: Seq<usize>, targets: Seq<usize>) -> bool {
    stages.len() > 0 ==> forall|v: usize| #[trigger]
        in_gate_cone(aig, realized.to_set(), targets, v) && is_leaf(aig, realized.to_set(), v)
            ==> stages.last().realizes(v)
}

proof fn lemma_linked(
    aig: AIG,
    seeds: Set<usize>,
    stages: Seq<BoomerangStage>,
    stage: BoomerangStage,
    before: Seq<usize>,
    targets: Seq<usize>,
)
    requires
        aig.walkable(),
        are_pins(aig, targets),
        gates_only(aig, seeds),
        forall|v: usize| #[trigger] seeds.contains(v) ==> before.contains(v),
        stages_linked(stages),
        supplied(aig, stages, before, targets),
        stage.sound(aig, before.to_set(), targets),
    ensures
        stages_linked(stages.push(stage)),
{
    let all = stages.push(stage);
    let done = before.to_set();
    assert forall|k: int, j: int|
        0 < k < all.len() && #[trigger] is_slot(0, j) && !vacant((#[trigger] all[k]).hier@, 0, j) implies all[k
        - 1].realizes(cell(all[k].hier@, 0, j)) by {
        if k < stages.len() {
            assert(all[k] == stages[k]);
        } else {
            assert(all[k - 1] == stages.last());
            let v = cell(stage.hier@, 0, j);
            assert(slot_sound(aig, done, targets, stage.hier@, 0, j));
            lemma_gates_only(aig, seeds, done, targets, v);
        }
    }
}

/// A target is open, or one of the stages since `from` wrote it out.
pub open spec fn settled_since(stages: Seq<BoomerangStage>, targets: Seq<usize>, t: usize) -> bool {
    targets.contains(t) || written_in(stages, t)
}

proof fn lemma_written_more(stages: Seq<BoomerangStage>, stage: BoomerangStage, t: usize)
    ensures
        written_in(stages, t) || stage.writes(t) ==> written_in(stages.push(stage), t),
{
    let all = stages.push(stage);
    if written_in(stages, t) {
        let k = choose|k: int| 0 <= k < stages.len() && (#[trigger] stages[k]).writes(t);
        assert(all[k].writes(t));
    }
    if stage.writes(t) {
        assert(all[stages.len() as int].writes(t));
    }
}

/// What targets depend on, where more is done and further targets are done,
/// they depended on before.
proof fn lemma_cone_shrinks(
    aig: AIG,
    done0: Set<usize>,
    targets0: Seq<usize>,
    done: Set<usize>,
    targets: Seq<usize>,
    v: usize,
)
    requires
        done0.subset_of(done),
        forall|t: usize| #[trigger] targets.contains(t) ==> targets0.contains(t) || done.contains(t),
        in_cone(aig, done, targets, v),
    ensures
        in_cone(aig, done0, targets0, v) || done.contains(v),
{
    let t = choose|t: usize| #[trigger] targets.contains(t) && aig.reaches(done, t, v);
    if targets0.contains(t) {
        lemma_reach_more(aig, done, done0, t, v);
    } else {
        let s = choose|s: Seq<usize>| #[trigger] aig.is_walk(done, s) && s[0] == t && s.last() == v;
        if s.len() > 1 {
            assert(aig.is_step(done, s, 0));
        }
        assert(v == t);
    }
}

/// Do the stages from `from` on hold nothing but pins that the targets depend on
/// and pins to keep?
#[verifier::opaque]
pub open spec fn stages_within(
    aig: AIG,
    done: Set<usize>,
    targets: Seq<usize>,
    keep_live: Seq<usize>,
    stages: Seq<BoomerangStage>,
    from: int,
) -> bool {
    forall|k: int, v: usize|
        from <= k < stages.len() && #[trigger] stages[k].realizes(v) ==> in_cone(aig, done, targets, v)
            || keep_live.contains(v)
}

proof fn lemma_within_added(
    aig: AIG,
    done0: Set<usize>,
    targets0: Seq<usize>,
    keep_live: Seq<usize>,
    stages: Seq<BoomerangStage>,
    from: int,
    before: Seq<usize>,
    after: Seq<usize>,
    targets: Seq<usize>,
    rest: Seq<usize>,
    stage: BoomerangStage,
)
    requires
        0 <= from,
        aig.walkable(),
        are_pins(aig, targets),
        done0.subset_of(before.to_set()),
        forall|t: usize| #[trigger]
            targets.contains(t) ==> targets0.contains(t) || (keep_live.contains(t) && before.contains(t)),
        stages_within(aig, done0, targets0, keep_live, stages, from),
        stage_built(aig, before, after, targets, rest, stage),
    ensures
        stages_within(aig, done0, targets0, keep_live, stages.push(stage), from),
{
    reveal(stages_within);
    let all = stages.push(stage);
    let done = before.to_set();
    assert forall|k: int, v: usize| from <= k < all.len() && #[trigger] all[k].realizes(v) implies in_cone(
        aig,
        done0,
        targets0,
        v,
    ) || keep_live.contains(v) by {
        if k < stages.len() {
            assert(stages[k].realizes(v));
        } else {
            let (h, j) = choose|h: int, j: int| 1 <= h && is_slot(h, j) && #[trigger] cell(stage.hier@, h, j) == v;
            assert(slot_sound(aig, done, targets, stage.hier@, h, j));
            assert(in_cone(aig, done, targets, v));
            let t = choose|t: usize| #[trigger] targets.contains(t) && aig.reaches(done, t, v);
            if targets0.contains(t) {
                lemma_reach_more(aig, done, done0, t, v);
            } else {
                let s = choose|s: Seq<usize>| #[trigger] aig.is_walk(done, s) && s[0] == t && s.last() == v;
                if s.len() > 1 {
                    assert(aig.is_step(done, s, 0));
                }
                assert(v == t);
            }
        }
    }
}

/// Are all pins that have to be kept targets as soon as they are realized?
spec fn armed(targets: Seq<usize>, keep_live: Seq<usize>, realized: Seq<usize>) -> bool {
    forall|x: usize| #[trigger] keep_live.contains(x) && realized.contains(x) ==> targets.contains(x)
}

/// Can the pin be addressed as soon as it is realized? The last stage then holds
/// it, and it is a target, so that the next stage will hold it as well.
pub open spec fn addressable(
    targets: Seq<usize>,
    realized: Seq<usize>,
    stages: Seq<BoomerangStage>,
    x: usize,
) -> bool {
    realized.contains(x) ==> targets.contains(x) && stages.len() > 0 && stages.last().realizes(x)
}

/// A pin that is a target if it is realized is held by the stage that is built
/// next, if it is realized then.
proof fn lemma_addressable_next(
    aig: AIG,
    before: Seq<usize>,
    after: Seq<usize>,
    targets: Seq<usize>,
    rest: Seq<usize>,
    stage: BoomerangStage,
    x: usize,
)
    requires
        aig.walkable(),
        are_pins(aig, targets),
        stage_built(aig, before, after, targets, rest, stage),
        before.contains(x) ==> targets.contains(x),
        after.contains(x),
    ensures
        stage.realizes(x),
{
    if before.contains(x) {
        assert(targets[targets.index_of(x)] <= aig.num_aigpins);
        if rest.contains(x) {
            let walk = seq![x];
            assert(aig.is_walk(leaves(aig, after.to_set()), walk));
            assert(walk[0] == x && walk.last() == x);
            assert(aig.reaches(leaves(aig, after.to_set()), x, x));
            assert(in_gate_cone(aig, after.to_set(), rest, x));
            assert(is_leaf(aig, after.to_set(), x));
        } else {
            assert(stage.writes(x));
        }
    }
}

/// Targets stay pins.
pub(super) proof fn lemma_step_pins(
    aig: AIG,
    reserved: int,
    keep: Seq<usize>,
    a: Flow,
    b: Flow,
    stage: BoomerangStage,
)
    requires
        stage_step(aig, reserved, keep, a, b, stage),
        are_pins(aig, a.targets),
        are_pins(aig, keep),
    ensures
        are_pins(aig, b.targets),
{
    assert forall|i: int| 0 <= i < b.targets.len() implies #[trigger] b.targets[i] <= aig.num_aigpins by {
        let x = b.targets[i];
        assert(b.targets.contains(x));
        if a.targets.contains(x) {
            assert(a.targets[a.targets.index_of(x)] <= aig.num_aigpins);
        } else {
            assert(keep[keep.index_of(x)] <= aig.num_aigpins);
        }
    }
}

/// A realized pin to keep is held by the stage after the next one.
pub(super) proof fn lemma_held_next(
    aig: AIG,
    reserved: int,
    keep: Seq<usize>,
    a: Flow,
    b: Flow,
    c: Flow,
    s0: BoomerangStage,
    s1: BoomerangStage,
    x: usize,
)
    requires
        aig.walkable(),
        stage_step(aig, reserved, keep, a, b, s0),
        stage_step(aig, reserved, keep, b, c, s1),
        keep.contains(x),
        a.realized.contains(x),
        are_pins(aig, b.targets),
    ensures
        s1.realizes(x),
        b.realized.contains(x),
{
    assert(b.realized[a.realized.index_of(x)] == x);
    assert(b.realized.contains(x));
    assert(b.targets.contains(x));
    assert(c.realized[b.realized.index_of(x)] == x);
    let rest = choose|rest: Seq<usize>| #[trigger]
        stage_built(aig, b.realized, c.realized, b.targets, rest, s1) && has_finished(
            aig,
            b.realized.to_set(),
            b.targets,
            rest,
            s1,
            BOOMERANG_MAX_WRITEOUTS - reserved - b.total,
        ) && rest.is_prefix_of(c.targets) && forall|x: usize| #[trigger]
            c.targets.contains(x) <==> rest.contains(x) || (keep.contains(x) && c.realized.contains(x));
    lemma_addressable_next(aig, b.realized, c.realized, b.targets, rest, s1, x);
}

/// Can one stage finish the targets?
pub open spec fn one_stage_suffices(
    aig: AIG,
    realized: Set<usize>,
    targets: Seq<usize>,
    total: int,
    num_reserved_writeouts: int,
) -> bool {
    &&& shallow(aig, realized, targets)
    &&& total + targets.len() <= BOOMERANG_MAX_WRITEOUTS - num_reserved_writeouts
    &&& cone_set(aig, realized, targets).len() < 4096
}

/// Is there no more than one target, which can be finished in some number of
/// stages?
pub open spec fn one_target_suffices(
    aig: AIG,
    realized: Set<usize>,
    targets: Seq<usize>,
    total: int,
    num_reserved_writeouts: int,
) -> bool {
    &&& targets.len() <= 1
    &&& total + targets.len() <= BOOMERANG_MAX_WRITEOUTS - num_reserved_writeouts
    &&& cone_set(aig, realized, targets).len() < 4096
}

/// Is a stage for the targets certain to fit, and does it realize every
/// required pin: is each of them realized already, or a target that is a leaf or
/// a gate of two leaves?
pub open spec fn one_stage_realizes(
    aig: AIG,
    realized: Set<usize>,
    targets: Seq<usize>,
    required: Seq<usize>,
    total: int,
    num_reserved_writeouts: int,
) -> bool {
    &&& total + targets.len() <= BOOMERANG_MAX_WRITEOUTS - num_reserved_writeouts
    &&& cone_set(aig, realized, targets).len() < 4096
    &&& forall|x: usize| #[trigger]
        required.contains(x) && !realized.contains(x) ==> targets.contains(x) && (is_leaf(aig, realized, x)
            || is_base_gate(aig, realized, x))
}

/// The order of the targets does not matter.
pub(crate) proof fn lemma_realizes_in_any_order(
    aig: AIG,
    realized: Set<usize>,
    a: Seq<usize>,
    b: Seq<usize>,
    required: Seq<usize>,
    total: int,
    num_reserved_writeouts: int,
)
    requires
        b.no_duplicates(),
        forall|x: usize| #[trigger] a.contains(x) <==> b.contains(x),
        one_stage_realizes(aig, realized, a, required, total, num_reserved_writeouts),
    ensures
        one_stage_realizes(aig, realized, b, required, total, num_reserved_writeouts),
{
    lemma_sub_len(b, a);
    lemma_cone_set_shrinks(aig, realized, a, realized, b);
}

/// A stage realizes every target that is a leaf or a gate of two leaves.
proof fn lemma_realizes_next(
    aig: AIG,
    before: Seq<usize>,
    after: Seq<usize>,
    targets: Seq<usize>,
    rest: Seq<usize>,
    stage: BoomerangStage,
    x: usize,
)
    requires
        aig.walkable(),
        are_pins(aig, targets),
        stage_built(aig, before, after, targets, rest, stage),
        targets.contains(x),
        is_leaf(aig, before.to_set(), x) || is_base_gate(aig, before.to_set(), x),
    ensures
        after.contains(x),
{
    let done = before.to_set();
    let next = after.to_set();
    assert(targets[targets.index_of(x)] <= aig.num_aigpins);
    if before.contains(x) {
        assert(after[before.index_of(x)] == x);
    } else if !rest.contains(x) {
        assert(stage.writes(x));
        assert(stage.realizes(x));
    } else if is_leaf(aig, done, x) {
        aig.lemma_reaches_self(leaves(aig, next), x);
        assert(in_gate_cone(aig, next, rest, x));
        assert(is_leaf(aig, next, x));
        assert(stage.realizes(x));
    } else {
        aig.lemma_reaches_self(leaves(aig, done), x);
        assert(in_gate_cone(aig, done, targets, x));
        assert(stage.realizes(x));
    }
}

/// A cone holds finitely many pins.
proof fn lemma_cone_finite(aig: AIG, done: Set<usize>, targets: Seq<usize>)
    ensures
        cone_set(aig, done, targets).finite(),
{
    let n = aig.num_aigpins + 1;
    let all = vstd::set_lib::set_int_range(0, n);
    let pins = all.map(|i: int| i as usize);
    vstd::set_lib::lemma_int_range(0, n);
    all.lemma_map_finite(|i: int| i as usize);
    assert forall|v: usize| cone_set(aig, done, targets).contains(v) implies pins.contains(v) by {
        assert(all.contains(v as int));
        assert(v == (v as int) as usize);
    }
    vstd::set_lib::lemma_set_subset_finite(pins, cone_set(aig, done, targets));
}

/// The cone of targets becomes no larger when pins are realized and targets are
/// finished.
proof fn lemma_cone_set_shrinks(
    aig: AIG,
    done0: Set<usize>,
    targets0: Seq<usize>,
    done: Set<usize>,
    targets: Seq<usize>,
)
    requires
        done0.subset_of(done),
        forall|t: usize| #[trigger] targets.contains(t) ==> targets0.contains(t),
    ensures
        cone_set(aig, done, targets).len() <= cone_set(aig, done0, targets0).len(),
{
    let now = cone_set(aig, done, targets);
    let first = cone_set(aig, done0, targets0);
    assert forall|v: usize| now.contains(v) implies first.contains(v) by {
        let t = choose|t: usize| #[trigger] targets.contains(t) && aig.reaches(done, t, v);
        lemma_reach_more(aig, done, done0, t, v);
        assert(targets0.contains(t) && aig.reaches(done0, t, v));
    }
    lemma_cone_finite(aig, done0, targets0);
    vstd::set_lib::lemma_len_subset(now, first);
}

/// A part of a sequence of distinct elements that lacks one is shorter.
proof fn lemma_fewer(a: Seq<usize>, b: Seq<usize>, v: usize)
    requires
        a.no_duplicates(),
        forall|x: usize| #[trigger] a.contains(x) ==> b.contains(x),
        b.contains(v),
        !a.contains(v),
    ensures
        a.len() < b.len(),
{
    let c = a.push(v);
    lemma_push_contains(a, v);
    lemma_sub_len(c, b);
}

/// What stages work on: the pins that are realized, the targets, and the words
/// that are written out so far.
pub ghost struct Flow {
    pub realized: Seq<usize>,
    pub targets: Seq<usize>,
    pub total: int,
}

/// The state that sets of pins make.
pub open spec fn flow_of(realized: IndexSet<usize>, targets: IndexSet<usize>, total: usize) -> Flow {
    Flow { realized: set_items(realized), targets: set_items(targets), total: total as int }
}

/// Does the stage lead from one state to the other, while some words are reserved?
/// Targets that it did not write out stay, and realized pins to keep become targets
/// again.
pub open spec fn stage_step(
    aig: AIG,
    reserved: int,
    keep: Seq<usize>,
    a: Flow,
    b: Flow,
    stage: BoomerangStage,
) -> bool {
    let room = BOOMERANG_MAX_WRITEOUTS - reserved - a.total;
    &&& b.total == a.total + stage.write_outs@.len()
    &&& b.targets.no_duplicates()
    &&& exists|rest: Seq<usize>| #[trigger]
        stage_built(aig, a.realized, b.realized, a.targets, rest, stage) && has_finished(
            aig,
            a.realized.to_set(),
            a.targets,
            rest,
            stage,
            room,
        ) && rest.is_prefix_of(b.targets) && forall|x: usize| #[trigger]
            b.targets.contains(x) <==> rest.contains(x) || (keep.contains(x) && b.realized.contains(x))
}

/// The pins that are required.
pub open spec fn pins_of(required: Option<&IndexSet<usize>>) -> Option<Seq<usize>> {
    match required {
        Some(req) => Some(set_items(*req)),
        None => None,
    }
}

/// Are all the pins among the others?
pub open spec fn has_all(all: Seq<usize>, pins: Seq<usize>) -> bool {
    forall|x: usize| #[trigger] pins.contains(x) ==> all.contains(x)
}

/// Are all required pins realized or, if none are given, all targets written
/// out?
pub open spec fn is_done(required: Option<Seq<usize>>, flow: Flow) -> bool {
    match required {
        Some(req) => has_all(flow.realized, req),
        None => flow.targets.len() == 0,
    }
}

/// Do the stages lead from each state to the next one, of which none but the last
/// one is done?
#[verifier::opaque]
pub open spec fn is_run(
    aig: AIG,
    reserved: int,
    required: Option<Seq<usize>>,
    keep: Seq<usize>,
    flows: Seq<Flow>,
    stages: Seq<BoomerangStage>,
) -> bool {
    &&& flows.len() == stages.len() + 1
    &&& forall|i: int|
        0 <= i < stages.len() ==> stage_step(aig, reserved, keep, flows[i], flows[i + 1], #[trigger] stages[i])
            && !is_done(
            required,
            flows[i],
        )
}

/// Why do no more stages come, though the last state is not done: because no
/// target is left, because a further stage does not fit, or because the last
/// stage left as many targets and realized pins as there were before it?
pub open spec fn has_halted(aig: AIG, required: Option<Seq<usize>>, flows: Seq<Flow>, reserved: int) -> bool {
    let last = flows.last();
    &&& !is_done(required, last)
    &&& {
        ||| last.targets.len() == 0
        ||| no_fit(aig, last.realized.to_set(), last.targets, last.total, reserved)
        ||| flows.len() >= 2 && flows[flows.len() - 2].targets.len() == last.targets.len() && flows[flows.len()
            - 2].realized.len() == last.realized.len()
    }
}

/// Did stages run from one state to another?
pub open spec fn ran(
    aig: AIG,
    reserved: int,
    required: Option<Seq<usize>>,
    keep: Seq<usize>,
    flows: Seq<Flow>,
    stages: Seq<BoomerangStage>,
    a: Flow,
    b: Flow,
) -> bool {
    &&& is_run(aig, reserved, required, keep, flows, stages)
    &&& flows[0] == a
    &&& flows.last() == b
}

/// A further stage.
proof fn lemma_run_on(
    aig: AIG,
    reserved: int,
    required: Option<Seq<usize>>,
    keep: Seq<usize>,
    flows: Seq<Flow>,
    stages: Seq<BoomerangStage>,
    b: Flow,
    stage: BoomerangStage,
)
    requires
        is_run(aig, reserved, required, keep, flows, stages),
        !is_done(required, flows.last()),
        stage_step(aig, reserved, keep, flows.last(), b, stage),
    ensures
        is_run(aig, reserved, required, keep, flows.push(b), stages.push(stage)),
{
    reveal(is_run);
    let f = flows.push(b);
    let s = stages.push(stage);
    assert forall|i: int| 0 <= i < s.len() implies stage_step(aig, reserved, keep, f[i], f[i + 1],
        #[trigger] s[i]) && !is_done(
        required,
        f[i],
    ) by {
        if i < stages.len() {
            assert(s[i] == stages[i]);
        }
    }
}

/// Drives boomerang stages until every required pin is realized or, if no pins
/// are given, until every target is written out.
///
/// `targets` is always the full set of pins that are still owed, even when
/// only the required ones have to be finished: a stage decides from its targets
/// which leaves to carry forward. A pin of `keep_live` becomes a target again
/// after each stage as soon as it is realized, so that it stays addressable.
///
/// There is `None` if a stage cannot be built, or if a stage makes no
/// progress, or if no target is left and a required pin is not realized.
#[verifier::rlimit(40)]
pub(crate) fn run_boomerang_stages_until_realized(
    aig: &AIG,
    targets: &mut IndexSet<usize>,
    required: Option<&IndexSet<usize>>,
    keep_live: &IndexSet<usize>,
    realized_inputs: &mut IndexSet<usize>,
    stages: &mut Vec<BoomerangStage>,
    total_write_outs: &mut usize,
    num_reserved_writeouts: usize,
    Ghost(seeds): Ghost<Set<usize>>,
) -> (r: Option<()>)
    requires
        aig.walkable(),
        aig.drivers_wf(),
        aig.acyclic(set_items(*old(realized_inputs)).to_set()),
        are_pins(*aig, set_items(*old(targets))),
        num_reserved_writeouts <= BOOMERANG_MAX_WRITEOUTS,
        *old(total_write_outs) <= BOOMERANG_MAX_WRITEOUTS - num_reserved_writeouts,
        stages_ok(*aig, seeds, old(stages)@, set_items(*old(realized_inputs)), *old(total_write_outs)),
    ensures
        old(stages)@.is_prefix_of(final(stages)@),
        stages_ok(
            *aig,
            seeds,
            final(stages)@,
            set_items(*final(realized_inputs)),
            *final(total_write_outs),
        ),
        *final(total_write_outs) <= BOOMERANG_MAX_WRITEOUTS - num_reserved_writeouts,
        set_items(*old(realized_inputs)).is_prefix_of(set_items(*final(realized_inputs))),
        are_pins(*aig, set_items(*final(targets))),
        r is Some && required is Some ==> forall|x: usize| #[trigger]
            set_items(*required.unwrap()).contains(x) ==> set_items(*final(realized_inputs)).contains(x),
        r is Some && required is None ==> set_items(*final(targets)).len() == 0,
        forall|t: usize| #[trigger]
            set_items(*old(targets)).contains(t) ==> settled_since(final(stages)@, set_items(*final(targets)), t),
        forall|t: usize| #[trigger]
            set_items(*final(targets)).contains(t) ==> set_items(*old(targets)).contains(t) || (set_items(
                *keep_live,
            ).contains(t) && set_items(*final(realized_inputs)).contains(t)),
        forall|v: usize| #[trigger]
            set_items(*final(realized_inputs)).contains(v) ==> set_items(*old(realized_inputs)).contains(v) || in_cone(
                *aig,
                set_items(*old(realized_inputs)).to_set(),
                set_items(*old(targets)),
                v,
            ),
        forall|x: usize| #[trigger]
            set_items(*keep_live).contains(x) && addressable(
                set_items(*old(targets)),
                set_items(*old(realized_inputs)),
                old(stages)@,
                x,
            ) ==> addressable(set_items(*final(targets)), set_items(*final(realized_inputs)), final(stages)@, x),
        stages_within(
            *aig,
            set_items(*old(realized_inputs)).to_set(),
            set_items(*old(targets)),
            set_items(*keep_live),
            final(stages)@,
            old(stages)@.len() as int,
        ),
        r is Some && old(stages)@.len() == 0 && set_items(*keep_live).len() == 0 && gates_only(*aig, seeds)
            ==> stages_linked(final(stages)@),
        required is None && set_items(*keep_live).len() == 0 && one_stage_suffices(
            *aig,
            set_items(*old(realized_inputs)).to_set(),
            set_items(*old(targets)),
            *old(total_write_outs) as int,
            num_reserved_writeouts as int,
        ) ==> r is Some && final(stages)@.len() <= old(stages)@.len() + 1,
        required is None && set_items(*keep_live).len() == 0 && one_target_suffices(
            *aig,
            set_items(*old(realized_inputs)).to_set(),
            set_items(*old(targets)),
            *old(total_write_outs) as int,
            num_reserved_writeouts as int,
        ) ==> r is Some,
        required is Some && (forall|x: usize| #[trigger]
            set_items(*required.unwrap()).contains(x) ==> set_items(*old(realized_inputs)).contains(x)) ==> r is Some
            && *final(targets) == *old(targets) && *final(realized_inputs) == *old(realized_inputs)
            && final(stages)@ == old(stages)@ && *final(total_write_outs) == *old(total_write_outs),
        required is Some && one_stage_realizes(
            *aig,
            set_items(*old(realized_inputs)).to_set(),
            set_items(*old(targets)),
            set_items(*required.unwrap()),
            *old(total_write_outs) as int,
            num_reserved_writeouts as int,
        ) ==> r is Some && final(stages)@.len() <= old(stages)@.len() + 1 && (shallow(
            *aig,
            set_items(*old(realized_inputs)).to_set(),
            set_items(*old(targets)),
        ) ==> *final(total_write_outs) <= *old(total_write_outs) + set_items(*old(targets)).len()),
        required is None && set_items(*old(targets)).len() == 0 ==> r is Some && *final(targets) == *old(targets)
            && *final(realized_inputs) == *old(realized_inputs) && final(stages)@ == old(stages)@
                && *final(total_write_outs)
            == *old(total_write_outs),
        r is Some ==> exists|flows: Seq<Flow>| #[trigger]
            ran(
                *aig,
                num_reserved_writeouts as int,
                pins_of(required),
                set_items(*keep_live),
                flows,
                final(stages)@.skip(old(stages)@.len() as int),
                flow_of(*old(realized_inputs), *old(targets), *old(total_write_outs)),
                flow_of(*final(realized_inputs), *final(targets), *final(total_write_outs)),
            ) && is_done(pins_of(required), flows.last()),
        r is None ==> exists|flows: Seq<Flow>| #[trigger]
            ran(
                *aig,
                num_reserved_writeouts as int,
                pins_of(required),
                set_items(*keep_live),
                flows,
                final(stages)@.skip(old(stages)@.len() as int),
                flow_of(*old(realized_inputs), *old(targets), *old(total_write_outs)),
                flow_of(*final(realized_inputs), *final(targets), *final(total_write_outs)),
            ) && has_halted(*aig, pins_of(required), flows, num_reserved_writeouts as int),
{
    let ghost done0 = set_items(*realized_inputs).to_set();
    let ghost tgt0 = set_items(*targets);
    let ghost real0 = set_items(*realized_inputs);
    let ghost stages0 = stages@;
    let ghost total0 = *total_write_outs;
    let ghost keep = set_items(*keep_live);
    assert(stages_within(*aig, done0, tgt0, keep, stages@, stages0.len() as int)) by {
        reveal(stages_within);
    }
    let ghost from = flow_of(*realized_inputs, *targets, *total_write_outs);
    let ghost mut flows = seq![from];
    assert(is_run(*aig, num_reserved_writeouts as int, pins_of(required), keep, flows,
        stages@.skip(stages0.len() as int))) by {
        reveal(is_run);
    }
    let ghost link = stages0.len() == 0 && keep.len() == 0 && gates_only(*aig, seeds);
    let ghost easy = required is None && keep.len() == 0 && one_stage_suffices(
        *aig,
        real0.to_set(),
        tgt0,
        total0 as int,
        num_reserved_writeouts as int,
    );
    let ghost lone = required is None && keep.len() == 0 && one_target_suffices(
        *aig,
        real0.to_set(),
        tgt0,
        total0 as int,
        num_reserved_writeouts as int,
    );
    let ghost near = required is Some && one_stage_realizes(
        *aig,
        real0.to_set(),
        tgt0,
        set_items(*required.unwrap()),
        total0 as int,
        num_reserved_writeouts as int,
    );
    loop
        invariant
            aig.walkable(),
            aig.drivers_wf(),
            aig.acyclic(done0),
            done0 == real0.to_set(),
            are_pins(*aig, tgt0),
            keep == set_items(*keep_live),
            tgt0 == set_items(*old(targets)),
            real0 == set_items(*old(realized_inputs)),
            stages0 == old(stages)@,
            total0 == *old(total_write_outs),
            link == (stages0.len() == 0 && keep.len() == 0 && gates_only(*aig, seeds)),
            easy == (required is None && keep.len() == 0 && one_stage_suffices(
                *aig,
                real0.to_set(),
                tgt0,
                total0 as int,
                num_reserved_writeouts as int,
            )),
            lone == (required is None && keep.len() == 0 && one_target_suffices(
                *aig,
                real0.to_set(),
                tgt0,
                total0 as int,
                num_reserved_writeouts as int,
            )),
            near == (required is Some && one_stage_realizes(
                *aig,
                real0.to_set(),
                tgt0,
                set_items(*required.unwrap()),
                total0 as int,
                num_reserved_writeouts as int,
            )),
            flows.len() >= 1,
            from == flow_of(*old(realized_inputs), *old(targets), *old(total_write_outs)),
            flows[0] == from,
            flows.last() == flow_of(*realized_inputs, *targets, *total_write_outs),
            is_run(*aig, num_reserved_writeouts as int, pins_of(required), keep, flows,
                stages@.skip(stages0.len() as int)),
            stages@ == stages0 ==> *targets == *old(targets) && *realized_inputs == *old(realized_inputs)
                && *total_write_outs == total0,
            required is None && tgt0.len() == 0 ==> stages@ == stages0,
            required is Some && stages@ != stages0 ==> exists|x: usize| #[trigger]
                set_items(*required.unwrap()).contains(x) && !real0.contains(x),
            near && shallow(*aig, done0, tgt0) ==> *total_write_outs <= total0 + tgt0.len(),
            near && stages@ != stages0 ==> stages@.len() == stages0.len() + 1 && forall|x: usize| #[trigger]
                set_items(*required.unwrap()).contains(x) ==> set_items(*realized_inputs).contains(x),
            lone ==> set_items(*targets).len() == 0 || *total_write_outs == total0,
            lone ==> set_items(*targets).len() <= 1,
            num_reserved_writeouts <= BOOMERANG_MAX_WRITEOUTS,
            *total_write_outs <= BOOMERANG_MAX_WRITEOUTS - num_reserved_writeouts,
            stages_ok(*aig, seeds, stages@, set_items(*realized_inputs), *total_write_outs),
            stages0.is_prefix_of(stages@),
            real0.is_prefix_of(set_items(*realized_inputs)),
            are_pins(*aig, set_items(*targets)),
            forall|t: usize| #[trigger] tgt0.contains(t) ==> settled_since(stages@, set_items(*targets), t),
            forall|t: usize| #[trigger]
                set_items(*targets).contains(t) ==> tgt0.contains(t) || (keep.contains(t) && set_items(
                    *realized_inputs,
                ).contains(t)),
            forall|v: usize| #[trigger]
                set_items(*realized_inputs).contains(v) ==> real0.contains(v) || in_cone(*aig, done0, tgt0, v),
            forall|x: usize| #[trigger]
                keep.contains(x) && addressable(tgt0, real0, stages0, x) ==> addressable(
                    set_items(*targets),
                    set_items(*realized_inputs),
                    stages@,
                    x,
                ),
            stages_within(*aig, done0, tgt0, keep, stages@, stages0.len() as int),
            link ==> stages_linked(stages@) && supplied(*aig, stages@, set_items(*realized_inputs),
                set_items(*targets)),
            easy ==> (stages@.len() == stages0.len() && set_items(*targets) == tgt0 && set_items(*realized_inputs)
                == real0 && *total_write_outs == total0) || (stages@.len() == stages0.len() + 1 && set_items(
                *targets,
            ).len() == 0),
        decreases
                aig.num_aigpins + 1 - set_items(*realized_inputs).len(),
                256 - *total_write_outs,
                if armed(set_items(*targets), keep, set_items(*realized_inputs)) {
                    0int
                } else {
                    1int
                },
    {
        let finished = match required {
            Some(req) => all_contained(req, realized_inputs),
            None => set_len(targets) == 0,
        };
        let ghost now = flows.last();
        assert(finished == is_done(pins_of(required), now)) by {
            match required {
                Some(req) => {
                    assert(pins_of(required) == Some(set_items(*req)));
                    assert(finished == has_all(now.realized, set_items(*req)));
                },
                None => {
                    assert(pins_of(required) is None);
                },
            }
        }
        if finished {
            assert(ran(
                *aig,
                num_reserved_writeouts as int,
                pins_of(required),
                keep,
                flows,
                stages@.skip(stages0.len() as int),
                from,
                flow_of(*realized_inputs, *targets, *total_write_outs),
                ));
            return Some(());
        }
        let ghost want = match required {
            Some(req) => set_items(*req),
            None => Seq::empty(),
        };
        proof {
            if required is Some {
                let x = choose|x: usize| #[trigger] want.contains(x) && !set_items(*realized_inputs).contains(x);
                assert(want.contains(x) && !set_items(*realized_inputs).contains(x));
                if real0.contains(x) {
                    assert(set_items(*realized_inputs)[real0.index_of(x)] == x);
                }
                if near {
                    assert(stages@ == stages0);
                    assert(tgt0.contains(x));
                }
            }
        }
        let before_targets = set_len(targets);
        let before_realized = set_len(realized_inputs);
        if before_targets == 0 {
            assert(ran(
                *aig,
                num_reserved_writeouts as int,
                pins_of(required),
                keep,
                flows,
                stages@.skip(stages0.len() as int),
                from,
                flow_of(*realized_inputs, *targets, *total_write_outs),
                ));
            return None;
        }
        let ghost tgt1 = set_items(*targets);
        let ghost real1 = set_items(*realized_inputs);
        let ghost total1 = *total_write_outs;
        let ghost stages1 = stages@;
        proof {
            assert(done0.subset_of(real1.to_set())) by {
                assert forall|v: usize| done0.contains(v) implies real1.to_set().contains(v) by {
                    assert(real1[real0.index_of(v)] == v);
                }
            }
            lemma_acyclic_more(*aig, done0, real1.to_set());
            if lone {
                assert forall|t: usize| #[trigger] tgt1.contains(t) implies tgt0.contains(t) by {
                    if keep.contains(t) {
                        assert(keep[keep.index_of(t)] == t);
                    }
                }
                lemma_sub_len(tgt1, tgt0);
                lemma_cone_set_shrinks(*aig, done0, tgt0, real1.to_set(), tgt1);
            }
        }
        let stage = match build_one_boomerang_stage(
            aig,
            targets,
            realized_inputs,
            total_write_outs,
            num_reserved_writeouts,
        ) {
            None => {
                assert(ran(
                    *aig,
                    num_reserved_writeouts as int,
                    pins_of(required),
                    keep,
                    flows,
                    stages@.skip(stages0.len() as int),
                    from,
                    flow_of(*realized_inputs, *targets, *total_write_outs),
                    ));
                return None;
            },
            Some(stage) => stage,
        };
        let _ = set_len(realized_inputs);
        let ghost rest = set_items(*targets);
        let ghost real2 = set_items(*realized_inputs);
        proof {
            lemma_stage_added(
                *aig,
                seeds,
                stages1,
                stage,
                real1,
                real2,
                tgt1,
                rest,
                total1,
                *total_write_outs,
            );
            lemma_within_added(
                *aig,
                done0,
                tgt0,
                keep,
                stages1,
                stages0.len() as int,
                real1,
                real2,
                tgt1,
                rest,
                stage,
            );
            if link {
                lemma_linked(*aig, seeds, stages1, stage, real1, tgt1);
            }
        }
        let ghost the_stage = stage;
        stages.push(stage);
        rearm(targets, keep_live, realized_inputs);
        let ghost tgt2 = set_items(*targets);
        proof {
            let next = flow_of(*realized_inputs, *targets, *total_write_outs);
            assert(stage_step(*aig, num_reserved_writeouts as int, keep, now, next, the_stage)) by {
                assert(stage_built(*aig, now.realized, next.realized, now.targets, rest, the_stage));
            }
            lemma_run_on(
                *aig,
                num_reserved_writeouts as int,
                pins_of(required),
                keep,
                flows,
                stages1.skip(stages0.len() as int),
                next,
                the_stage,
            );
            assert(stages1.skip(stages0.len() as int).push(the_stage) =~= stages@.skip(stages0.len() as int));
            flows = flows.push(next);
        }
        proof {
            assert forall|t: usize| #[trigger] tgt0.contains(t) implies settled_since(stages@, tgt2, t) by {
                assert(settled_since(stages1, tgt1, t));
                lemma_written_more(stages1, the_stage, t);
                if tgt1.contains(t) && rest.contains(t) {
                    assert(tgt2.contains(t));
                }
            }
            assert forall|t: usize| #[trigger] tgt2.contains(t) implies tgt0.contains(t) || (keep.contains(t)
                && real2.contains(t)) by {
                if rest.contains(t) {
                    assert(tgt1.contains(t));
                    if real1.contains(t) {
                        assert(real2[real1.index_of(t)] == t);
                    }
                }
            }
            assert forall|v: usize| #[trigger] real2.contains(v) implies real0.contains(v) || in_cone(
                *aig,
                done0,
                tgt0,
                v,
            ) by {
                if !real1.contains(v) {
                    assert(in_cone(*aig, real1.to_set(), tgt1, v));
                    lemma_cone_shrinks(*aig, done0, tgt0, real1.to_set(), tgt1, v);
                }
            }
            assert forall|i: int| 0 <= i < tgt2.len() implies #[trigger] tgt2[i] <= aig.num_aigpins by {
                let t = tgt2[i];
                assert(tgt2.contains(t));
                if rest.contains(t) {
                    assert(tgt1.contains(t));
                    assert(tgt1[tgt1.index_of(t)] <= aig.num_aigpins);
                } else {
                    assert(real2.contains(t));
                    assert(real2[real2.index_of(t)] <= aig.num_aigpins);
                }
            }
            assert forall|x: usize| #[trigger]
                keep.contains(x) && addressable(tgt0, real0, stages0, x) implies addressable(
                tgt2,
                real2,
                stages@,
                x,
            ) by {
                assert(addressable(tgt1, real1, stages1, x));
                if real2.contains(x) {
                    lemma_addressable_next(*aig, real1, real2, tgt1, rest, the_stage, x);
                    assert(stages@.last() == the_stage);
                }
            }
            if keep.len() == 0 {
                assert(tgt2 =~= rest) by {
                    if tgt2.len() > rest.len() {
                        let x = tgt2[rest.len() as int];
                        assert(tgt2.contains(x));
                        assert(rest.contains(x));
                        let k = rest.index_of(x);
                        assert(tgt2[k] == x);
                        lemma_no_dup_pair(tgt2, k, rest.len() as int);
                    }
                }
            }
            if link {
                assert(supplied(*aig, stages@, real2, tgt2)) by {
                    assert(stages@.last() == the_stage);
                }
            }
        }
        proof {
            lemma_stage_progress(*aig, real1, real2, tgt1, rest, the_stage);
            if the_stage.write_outs@.len() > 0 {
                lemma_writes_finish(*aig, real1, real2, tgt1, rest, the_stage);
            }
            assert(stages@.len() > stages0.len());
            if near {
                assert forall|x: usize| #[trigger] want.contains(x) implies real2.contains(x) by {
                    if real1.contains(x) {
                        assert(real2[real1.index_of(x)] == x);
                    } else {
                        lemma_realizes_next(*aig, real1, real2, tgt1, rest, the_stage, x);
                    }
                }
                if real2.len() == real1.len() {
                    assert(real2 =~= real1);
                }
            }
            if lone {
                assert(tgt2 == rest);
                lemma_sub_len(rest, tgt1);
                if exists|v: usize| #[trigger] tgt1.contains(v) && !rest.contains(v) {
                    let v = choose|v: usize| #[trigger] tgt1.contains(v) && !rest.contains(v);
                    if rest.len() > 0 {
                        assert(rest.contains(rest[0]));
                        assert(tgt1.contains(rest[0]));
                        assert(tgt1[0] == rest[0] && tgt1[0] == v);
                    }
                }
                if real2.len() == real1.len() {
                    assert(real2 =~= real1);
                }
            }
        }
        let after_targets = set_len(targets);
        let after_realized = set_len(realized_inputs);
        if after_targets == before_targets && after_realized == before_realized {
            proof {
                assert(real2 =~= real1);
                if keep.len() == 0 {
                    assert(tgt2 == rest);
                    let v = choose|v: usize| #[trigger] tgt1.contains(v) && !rest.contains(v);
                    lemma_fewer(rest, tgt1, v);
                }
                assert(flows[flows.len() - 2] == now);
                assert(ran(
                    *aig,
                    num_reserved_writeouts as int,
                    pins_of(required),
                    keep,
                    flows,
                    stages@.skip(stages0.len() as int),
                    from,
                    flow_of(*realized_inputs, *targets, *total_write_outs),
                    ));
            }
            return None;
        }
        proof {
            lemma_distinct_len(real2, aig.num_aigpins + 1);
            if real2.len() == real1.len() {
                assert(real2 =~= real1);
                if *total_write_outs == total1 {
                    assert(rest == tgt1);
                    if armed(tgt1, keep, real1) {
                        assert(tgt2 =~= rest) by {
                            if tgt2.len() > rest.len() {
                                let x = tgt2[rest.len() as int];
                                assert(tgt2.contains(x));
                                assert(rest.contains(x));
                                let k = rest.index_of(x);
                                assert(tgt2[k] == x);
                                lemma_no_dup_pair(tgt2, k, rest.len() as int);
                            }
                        }
                    }
                }
            }
        }
    }
}

} // verus!
