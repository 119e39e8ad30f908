//! How boomerang stages and macro phases take turns.

use super::blocked::waits;
use super::partition::{output_between, MacroStage};
use super::rounds::{are_pins, has_halted, is_done, is_run, lemma_held_next, Flow};
use super::stage::BoomerangStage;
use super::waves::gathers;
use crate::aig::AIG;
use crate::collections::set_items;
use indexmap::IndexSet;
use vstd::prelude::*;

verus! {

/// How far a partition has come when a phase is next, or when none is left: the
/// pins that are realized, the targets that are open, the outputs of phases that
/// are pending, and the number of words that are written out.
pub ghost struct Stand {
    pub realized: Seq<usize>,
    pub open: Seq<usize>,
    pub pending: Seq<usize>,
    pub total: int,
}

/// The stand that sets of pins make.
pub open spec fn stand_of(
    realized: IndexSet<usize>,
    open: IndexSet<usize>,
    pending: IndexSet<usize>,
    total: usize,
) -> Stand {
    Stand {
        realized: set_items(realized),
        open: set_items(open),
        pending: set_items(pending),
        total: total as int,
    }
}

/// Is the pin gathered by phase `w` or a later one, from a stage?
pub open spec fn is_needed(aig: AIG, seeds: Set<usize>, waves: Seq<Vec<usize>>, w: int, x: usize) -> bool {
    !seeds.contains(x) && exists|k: int| w <= k < waves.len() && gathers(aig, (#[trigger] waves[k])@, x)
}

/// Is nothing done yet? Open are all targets but those that phases produce, and
/// all pins that phases gather from stages. Pending are all outputs of phases.
pub open spec fn is_start(aig: AIG, seeds: Set<usize>, goal: Seq<usize>, waves: Seq<Vec<usize>>, a: Stand) -> bool {
    &&& a.realized.to_set() == seeds
    &&& a.total == 0
    &&& forall|q: usize| #[trigger] a.pending.contains(q) <==> output_between(aig, waves, 0, waves.len() as int, q)
    &&& forall|x: usize| #[trigger]
        a.open.contains(x) <==> (goal.contains(x) && !a.pending.contains(x)) || is_needed(aig, seeds, waves, 0, x)
    &&& waves.len() == 0 ==> a.open == goal
}

/// Is the pin owed before phase `w`: is it open, or is it to be gathered and not
/// realized?
pub open spec fn is_owed(
    aig: AIG,
    seeds: Set<usize>,
    waves: Seq<Vec<usize>>,
    w: int,
    a: Stand,
    x: usize,
) -> bool {
    a.open.contains(x) || (is_needed(aig, seeds, waves, w, x) && !a.realized.contains(x))
}

/// Is the pin owed, but held back because it waits for outputs that are pending?
pub open spec fn is_deferred(
    aig: AIG,
    seeds: Set<usize>,
    waves: Seq<Vec<usize>>,
    w: int,
    a: Stand,
    x: usize,
) -> bool {
    is_owed(aig, seeds, waves, w, a, x) && waits(aig, a.realized.to_set(), a.pending, x)
}

/// Is the pin realized, and does one that is held back depend on it?
pub open spec fn is_deferred_leaf(
    aig: AIG,
    seeds: Set<usize>,
    waves: Seq<Vec<usize>>,
    w: int,
    a: Stand,
    x: usize,
) -> bool {
    a.realized.contains(x) && !a.pending.contains(x) && exists|t: usize| #[trigger]
        is_deferred(aig, seeds, waves, w, a, t) && aig.reaches(a.realized.to_set(), t, x)
}

/// Is this what the stages before phase `w` begin with, and what they keep
/// addressable? They begin with all pins that are owed and not held back. They
/// keep what this phase or a later one gathers, and what held-back pins depend on.
pub open spec fn is_ready(
    aig: AIG,
    seeds: Set<usize>,
    waves: Seq<Vec<usize>>,
    w: int,
    a: Stand,
    keep: Seq<usize>,
    flow: Flow,
) -> bool {
    &&& flow.realized == a.realized
    &&& flow.total == a.total
    &&& forall|x: usize| #[trigger]
        flow.targets.contains(x) <==> is_owed(aig, seeds, waves, w, a, x) && !is_deferred(aig, seeds, waves, w, a, x)
    &&& forall|x: usize| #[trigger]
        keep.contains(x) <==> is_needed(aig, seeds, waves, w, x) || is_deferred_leaf(aig, seeds, waves, w, a, x)
}

/// Are these the pins that the lanes gather from stages?
pub open spec fn is_fetched(aig: AIG, seeds: Set<usize>, wave: Seq<usize>, pins: Seq<usize>) -> bool {
    forall|pin: usize| #[trigger] pins.contains(pin) <==> gathers(aig, wave, pin) && !seeds.contains(pin)
}

/// Do the stages, one after the other, realize what phase `w` gathers, and do they
/// end there?
pub open spec fn is_phase_run(
    aig: AIG,
    reserved: int,
    seeds: Set<usize>,
    waves: Seq<Vec<usize>>,
    w: int,
    a: Stand,
    pins: Seq<usize>,
    keep: Seq<usize>,
    flows: Seq<Flow>,
    stages: Seq<BoomerangStage>,
) -> bool {
    &&& is_fetched(aig, seeds, waves[w]@, pins)
    &&& is_ready(aig, seeds, waves, w, a, keep, flows[0])
    &&& is_run(aig, reserved, Some(pins), keep, flows, stages)
    &&& is_done(Some(pins), flows.last())
}

/// Are these the targets that are open when phase `w` is next to run: those that
/// the stages left, and those that were held back?
pub open spec fn is_back(
    aig: AIG,
    seeds: Set<usize>,
    waves: Seq<Vec<usize>>,
    w: int,
    a: Stand,
    flow: Flow,
    open: Seq<usize>,
) -> bool {
    forall|x: usize| #[trigger]
        open.contains(x) <==> flow.targets.contains(x) || (is_deferred(aig, seeds, waves, w, a, x)
            && !flow.realized.contains(x))
}

/// Where stages and a phase lead: the outputs of the phase are no longer pending,
/// and those that are targets are open.
pub open spec fn leads_to(
    aig: AIG,
    seeds: Set<usize>,
    goal: Seq<usize>,
    waves: Seq<Vec<usize>>,
    w: int,
    a: Stand,
    flow: Flow,
    b: Stand,
) -> bool {
    &&& b.realized == flow.realized
    &&& b.total == flow.total
    &&& forall|q: usize| #[trigger]
        b.pending.contains(q) <==> a.pending.contains(q) && !output_between(aig, waves, w, w + 1, q)
    &&& exists|open: Seq<usize>| #[trigger]
        is_back(aig, seeds, waves, w, a, flow, open) && forall|x: usize| #[trigger]
            b.open.contains(x) <==> open.contains(x) || (goal.contains(x) && output_between(aig, waves, w, w + 1, x))
}

/// Do the stages and phase `w` lead from one stand to the next?
pub open spec fn is_turn_of(
    aig: AIG,
    reserved: int,
    seeds: Set<usize>,
    goal: Seq<usize>,
    waves: Seq<Vec<usize>>,
    w: int,
    a: Stand,
    b: Stand,
    stages: Seq<BoomerangStage>,
) -> bool {
    exists|pins: Seq<usize>, keep: Seq<usize>, flows: Seq<Flow>| #[trigger]
        is_phase_run(aig, reserved, seeds, waves, w, a, pins, keep, flows, stages) && leads_to(
            aig,
            seeds,
            goal,
            waves,
            w,
            a,
            flows.last(),
            b,
        )
}

/// The stage at which those before a phase, or those behind all of them, begin.
pub open spec fn phase_start(phases: Seq<MacroStage>, w: int) -> int {
    if w == 0 {
        0
    } else {
        phases[w - 1].after_stage as int
    }
}

/// The stages before a phase.
pub open spec fn stages_before(phases: Seq<MacroStage>, stages: Seq<BoomerangStage>, w: int) -> Seq<BoomerangStage> {
    stages.subrange(phase_start(phases, w), phases[w].after_stage as int)
}

/// Do the stages before the given phases, and the phases, lead from each stand to
/// the next one, from the start on?
#[verifier::opaque]
pub open spec fn is_schedule(
    aig: AIG,
    reserved: int,
    seeds: Set<usize>,
    goal: Seq<usize>,
    waves: Seq<Vec<usize>>,
    phases: Seq<MacroStage>,
    stages: Seq<BoomerangStage>,
    stands: Seq<Stand>,
) -> bool {
    &&& stands.len() == phases.len() + 1
    &&& is_start(aig, seeds, goal, waves, stands[0])
    &&& forall|w: int|
        0 <= w < phases.len() ==> is_turn_of(
            aig,
            reserved,
            seeds,
            goal,
            waves,
            w,
            #[trigger] stands[w],
            stands[w + 1],
            stages_before(phases, stages, w),
        )
}

/// Do the stages behind all phases begin with what is open, and do they write out
/// all of it?
pub open spec fn is_through(aig: AIG, reserved: int, a: Stand, stages: Seq<BoomerangStage>) -> bool {
    exists|flows: Seq<Flow>| #[trigger]
        is_run(aig, reserved, None, Seq::empty(), flows, stages) && flows[0] == (Flow {
            realized: a.realized,
            targets: a.open,
            total: a.total,
        }) && flows.last().targets.len() == 0
}

/// Does what held-back pins depend on stay in the stages before each phase, from
/// the second of them on?
#[verifier::opaque]
pub open spec fn leaves_stay(
    aig: AIG,
    seeds: Set<usize>,
    waves: Seq<Vec<usize>>,
    phases: Seq<MacroStage>,
    stages: Seq<BoomerangStage>,
    stands: Seq<Stand>,
) -> bool {
    forall|w: int, k: int, x: usize|
        0 <= w < phases.len() && phase_start(phases, w) < k < phases[w].after_stage && #[trigger] is_deferred_leaf(
            aig,
            seeds,
            waves,
            w,
            stands[w],
            x,
        ) ==> #[trigger] stages[k].realizes(x)
}

/// Do stages and phases take turns up to the given stand, and do the stages carry
/// what held-back pins depend on?
pub open spec fn has_come_to(
    aig: AIG,
    reserved: int,
    seeds: Set<usize>,
    goal: Seq<usize>,
    waves: Seq<Vec<usize>>,
    phases: Seq<MacroStage>,
    stages: Seq<BoomerangStage>,
    stands: Seq<Stand>,
    b: Stand,
) -> bool {
    &&& is_schedule(aig, reserved, seeds, goal, waves, phases, stages, stands)
    &&& leaves_stay(aig, seeds, waves, phases, stages, stands)
    &&& stands.last() == b
}

/// Is there a way in which stages and phases take turns up to the given stand?
pub open spec fn comes_to(
    aig: AIG,
    reserved: int,
    seeds: Set<usize>,
    goal: Seq<usize>,
    waves: Seq<Vec<usize>>,
    phases: Seq<MacroStage>,
    stages: Seq<BoomerangStage>,
    b: Stand,
) -> bool {
    exists|stands: Seq<Stand>| #[trigger]
        has_come_to(aig, reserved, seeds, goal, waves, phases, stages, stands, b)
}

/// Do the stages that have to come next, before a phase or at the end, come to a
/// halt? The given phases, and the stages before them, have been scheduled.
pub open spec fn halts_at(
    aig: AIG,
    seeds: Set<usize>,
    goal: Seq<usize>,
    reserved: int,
    waves: Seq<Vec<usize>>,
    phases: Seq<MacroStage>,
    before: Seq<BoomerangStage>,
    stands: Seq<Stand>,
    required: Option<Seq<usize>>,
    keep: Seq<usize>,
    flows: Seq<Flow>,
    stages: Seq<BoomerangStage>,
) -> bool {
    let w = phases.len() as int;
    let a = stands[w];
    &&& w <= waves.len()
    &&& is_schedule(aig, reserved, seeds, goal, waves, phases, before, stands)
    &&& phase_start(phases, w) == before.len()
    &&& is_run(aig, reserved, required, keep, flows, stages)
    &&& has_halted(aig, required, flows, reserved)
    &&& if w < waves.len() {
        is_ready(aig, seeds, waves, w, a, keep, flows[0]) && (required matches Some(pins) && is_fetched(
            aig,
            seeds,
            waves[w]@,
            pins,
        ))
    } else {
        required is None && keep.len() == 0 && flows[0] == (Flow {
            realized: a.realized,
            targets: a.open,
            total: a.total,
        })
    }
}

/// Do the stages come to a halt before some phase or at the end?
pub open spec fn halts(aig: AIG, seeds: Set<usize>, goal: Seq<usize>, reserved: int, waves: Seq<Vec<usize>>) -> bool {
    exists|
        phases: Seq<MacroStage>,
        before: Seq<BoomerangStage>,
        stands: Seq<Stand>,
        required: Option<Seq<usize>>,
        keep: Seq<usize>,
        flows: Seq<Flow>,
        stages: Seq<BoomerangStage>,
    | #[trigger]
        halts_at(aig, seeds, goal, reserved, waves, phases, before, stands, required, keep, flows, stages)
}

/// A schedule stays one when stages come behind it.
pub(super) proof fn lemma_schedule_stays(
    aig: AIG,
    reserved: int,
    seeds: Set<usize>,
    goal: Seq<usize>,
    waves: Seq<Vec<usize>>,
    phases: Seq<MacroStage>,
    s0: Seq<BoomerangStage>,
    s1: Seq<BoomerangStage>,
    stands: Seq<Stand>,
)
    requires
        is_schedule(aig, reserved, seeds, goal, waves, phases, s0, stands),
        s0.is_prefix_of(s1),
        forall|w: int| 0 <= w < phases.len() ==> (#[trigger] phases[w]).after_stage <= s0.len(),
        forall|w: int, v: int|
            0 <= w < v < phases.len() ==> (#[trigger] phases[w]).after_stage <= (#[trigger] phases[v]).after_stage,
    ensures
        is_schedule(aig, reserved, seeds, goal, waves, phases, s1, stands),
{
    reveal(is_schedule);
    assert forall|w: int| 0 <= w < phases.len() implies is_turn_of(
        aig,
        reserved,
        seeds,
        goal,
        waves,
        w,
        #[trigger] stands[w],
        stands[w + 1],
        stages_before(phases, s1, w),
    ) by {
        let b = phases[w].after_stage as int;
        if w > 0 {
            assert(phases[w - 1].after_stage <= phases[w].after_stage);
        }
        assert(stages_before(phases, s1, w) =~= stages_before(phases, s0, w));
    }
}

/// One more phase.
pub(super) proof fn lemma_schedule_on(
    aig: AIG,
    reserved: int,
    seeds: Set<usize>,
    goal: Seq<usize>,
    waves: Seq<Vec<usize>>,
    phases: Seq<MacroStage>,
    phase: MacroStage,
    stages: Seq<BoomerangStage>,
    stands: Seq<Stand>,
    b: Stand,
)
    requires
        is_schedule(aig, reserved, seeds, goal, waves, phases, stages, stands),
        is_turn_of(
            aig,
            reserved,
            seeds,
            goal,
            waves,
            phases.len() as int,
            stands.last(),
            b,
            stages.subrange(phase_start(phases, phases.len() as int), phase.after_stage as int),
        ),
    ensures
        is_schedule(aig, reserved, seeds, goal, waves, phases.push(phase), stages, stands.push(b)),
{
    reveal(is_schedule);
    let p1 = phases.push(phase);
    let s1 = stands.push(b);
    assert forall|w: int| 0 <= w < p1.len() implies is_turn_of(
        aig,
        reserved,
        seeds,
        goal,
        waves,
        w,
        #[trigger] s1[w],
        s1[w + 1],
        stages_before(p1, stages, w),
    ) by {
        if w < phases.len() {
            assert(s1[w] == stands[w] && s1[w + 1] == stands[w + 1]);
            assert(stages_before(p1, stages, w) == stages_before(phases, stages, w));
        }
    }
}

/// Targets are pins in all states of a run.
proof fn lemma_run_pins(
    aig: AIG,
    reserved: int,
    required: Option<Seq<usize>>,
    keep: Seq<usize>,
    flows: Seq<Flow>,
    stages: Seq<BoomerangStage>,
    i: int,
)
    requires
        is_run(aig, reserved, required, keep, flows, stages),
        are_pins(aig, flows[0].targets),
        are_pins(aig, keep),
        0 <= i <= stages.len(),
    ensures
        are_pins(aig, flows[i].targets),
    decreases i,
{
    if i > 0 {
        reveal(is_run);
        lemma_run_pins(aig, reserved, required, keep, flows, stages, i - 1);
        let stage = stages[i - 1];
        let a = flows[i - 1].targets;
        let b = flows[i].targets;
        super::rounds::lemma_step_pins(aig, reserved, keep, flows[i - 1], flows[i], stage);
    }
}

/// What is kept in a run stays.
pub(super) proof fn lemma_kept(
    aig: AIG,
    reserved: int,
    required: Option<Seq<usize>>,
    keep: Seq<usize>,
    flows: Seq<Flow>,
    stages: Seq<BoomerangStage>,
    i: int,
    x: usize,
)
    requires
        aig.walkable(),
        is_run(aig, reserved, required, keep, flows, stages),
        are_pins(aig, flows[0].targets),
        are_pins(aig, keep),
        0 < i < stages.len(),
        keep.contains(x),
        flows[0].realized.contains(x),
    ensures
        stages[i].realizes(x),
        flows[i].realized.contains(x),
    decreases i,
{
    reveal(is_run);
    lemma_run_pins(aig, reserved, required, keep, flows, stages, i);
    if i > 1 {
        lemma_kept(aig, reserved, required, keep, flows, stages, i - 1, x);
    }
    lemma_held_next(aig, reserved, keep, flows[i - 1], flows[i], flows[i + 1], stages[i - 1], stages[i], x);
}

/// What held-back pins depend on stays in the stages before a phase.
pub(super) proof fn lemma_leaves_stay(
    aig: AIG,
    reserved: int,
    seeds: Set<usize>,
    goal: Seq<usize>,
    waves: Seq<Vec<usize>>,
    phases: Seq<MacroStage>,
    stages: Seq<BoomerangStage>,
    stands: Seq<Stand>,
)
    requires
        aig.walkable(),
        is_schedule(aig, reserved, seeds, goal, waves, phases, stages, stands),
        forall|w: int| 0 <= w < phases.len() ==> (#[trigger] phases[w]).after_stage <= stages.len(),
        forall|w: int| 0 <= w < stands.len() ==> are_pins(aig, (#[trigger] stands[w]).open) && are_pins(
            aig,
            stands[w].realized,
        ),
        forall|w: int, x: usize|
            0 <= w < waves.len() && #[trigger] gathers(aig, waves[w]@, x) ==> x <= aig.num_aigpins,
        phases.len() <= waves.len(),
    ensures
        leaves_stay(aig, seeds, waves, phases, stages, stands),
{
    reveal(is_schedule);
    reveal(leaves_stay);
    assert forall|w: int, k: int, x: usize|
        0 <= w < phases.len() && phase_start(phases, w) < k < phases[w].after_stage && #[trigger] is_deferred_leaf(
            aig,
            seeds,
            waves,
            w,
            stands[w],
            x,
        ) implies #[trigger] stages[k].realizes(x) by {
        let a = stands[w];
        let part = stages_before(phases, stages, w);
        assert(is_turn_of(aig, reserved, seeds, goal, waves, w, stands[w], stands[w + 1], part));
        let (pins, keep, flows) = choose|pins: Seq<usize>, keep: Seq<usize>, flows: Seq<Flow>| #[trigger]
            is_phase_run(aig, reserved, seeds, waves, w, a, pins, keep, flows, part) && leads_to(
                aig,
                seeds,
                goal,
                waves,
                w,
                a,
                flows.last(),
                stands[w + 1],
            );
        assert(keep.contains(x));
        assert forall|i: int| 0 <= i < keep.len() implies #[trigger] keep[i] <= aig.num_aigpins by {
            let y = keep[i];
            assert(keep.contains(y));
            if is_deferred_leaf(aig, seeds, waves, w, a, y) {
                assert(a.realized[a.realized.index_of(y)] <= aig.num_aigpins);
            }
        }
        let t = flows[0].targets;
        assert forall|i: int| 0 <= i < t.len() implies #[trigger] t[i] <= aig.num_aigpins by {
            assert(t.contains(t[i]));
            if a.open.contains(t[i]) {
                assert(a.open[a.open.index_of(t[i])] <= aig.num_aigpins);
            }
        }
        let i = k - phase_start(phases, w);
        assert(part[i] == stages[k]);
        lemma_kept(aig, reserved, Some(pins), keep, flows, part, i, x);
    }
}

} // verus!
