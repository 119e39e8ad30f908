//! Building one partition.

use super::blocked::{realized_leaves_of, targets_blocked_by_pending, waits};
use super::budget::{
    are_groups, collect_demand, endpoint_pins, endpoints_readable, lemma_group_pins, over_budget, partition_targets,
    reserved_write_outs, state_macros_of,
};
use super::cone::{cone_set, in_cone, is_base_gate, is_leaf};
use super::rounds::{
    addressable, are_pins, count_write_outs, flow_of, gates_only, has_halted, is_done, is_run, lemma_acyclic_more,
    lemma_realizes_in_any_order, one_stage_realizes, one_stage_suffices, one_target_suffices, pins_of, ran,
    realized_in, run_boomerang_stages_until_realized, settled_since, stages_backed, stages_linked, stages_ok,
    stages_within, written_in, Flow,
};
use super::schedule::{
    comes_to, has_come_to, halts, halts_at, is_back, is_deferred, is_deferred_leaf, is_fetched, is_needed, is_owed,
    is_phase_run, is_ready, is_schedule, is_start, is_through, is_turn_of, leads_to, leaves_stay, lemma_leaves_stay,
    lemma_schedule_on, lemma_schedule_stays, phase_start, stand_of, Stand,
};
use super::stage::{lemma_push_contains, lemma_reach_more, remove_all, shallow, BoomerangStage, BOOMERANG_MAX_WRITEOUTS};
use super::waves::{
    add_all, gathers, gathers_at, in_macro_cone, is_chain_start, is_lane, is_needed_slot, mac, macro_inputs_ok,
    macro_pins_ok, macros_ranked, order_macro_waves, outputs_ok, producer, reaches_output, same_lane, slot_waits,
    spec_chain_start, stands_before, wave_ok, waves_ok,
};
use crate::aig::AIG;
use crate::collections::{
    map_view, set_add, set_at, set_contains, set_copy, set_items, set_len, set_new, set_swap_remove,
};
use crate::macros::{law_first_occurrences, vec_contains, MacroKind, C4_IN_CI};
use crate::staging::StagedAIG;
use indexmap::IndexSet;
use vstd::prelude::*;

verus! {

/// One lane of a macro phase: a single macro instance assigned to one GPU
/// lane.
#[derive(Debug, Clone, Copy, PartialEq, Eq, Structural)]
pub struct MacroLane {
    /// position within the macros of the graph.
    pub macro_i: usize,
    /// Is this lane the head of a carry chain?
    ///
    /// A chain head takes its carry-in from ordinary logic. Every following
    /// lane takes its carry from the warp scan instead, so its `CI` pin is not
    /// gathered from shared state at all.
    pub chain_start: bool,
}

/// One mid-partition macro evaluation phase.
///
/// Only macros with combinationally driven outputs appear here. A carry chain
/// occupies consecutive lanes of one phase.
#[derive(Debug)]
pub struct MacroStage {
    /// index into the stages of the partition: this phase runs immediately
    /// before that boomerang stage. Equal to their number if it runs last.
    pub after_stage: usize,
    /// lanes, laid out so that each carry chain is contiguous and ascending.
    pub lanes: Vec<MacroLane>,
}

impl MacroStage {
    /// The number of lanes.
    pub fn num_lanes(&self) -> (n: usize)
        ensures
            n == self.lanes@.len(),
    {
        self.lanes.len()
    }
}

/// One partitioned block: a basic execution unit on GPU.
#[derive(Debug)]
pub struct Partition {
    /// the endpoints that are realized by this partition.
    pub endpoints: Vec<usize>,
    /// the boomerang stages.
    ///
    /// between stages there will automatically be shuffles.
    pub stages: Vec<BoomerangStage>,
    /// mid-partition macro evaluation phases, ordered by `after_stage`.
    pub macro_stages: Vec<MacroStage>,
    /// positions of the stateful macros that this partition commits state for,
    /// in endpoint order.
    pub state_macros: Vec<usize>,
}

/// Is the graph fit for partitioning?
pub open spec fn schedulable(aig: AIG) -> bool {
    &&& aig.walkable()
    &&& aig.drivers_wf()
    &&& aig.acyclic(Set::empty())
    &&& macro_pins_ok(aig)
    &&& macro_inputs_ok(aig)
    &&& endpoints_readable(aig)
}

/// Is the pin a macro output that is available at cycle start?
pub open spec fn is_start_output(aig: AIG, v: usize) -> bool {
    exists|p: usize| p < aig.macros.vals().len() && #[trigger] mac(aig, p).start_outputs().contains(v)
}

/// What is there before a partition computes anything: what earlier major
/// stages hand over, and macro outputs that are pure state reads.
pub open spec fn given_pins(aig: AIG, staged: StagedAIG) -> Set<usize> {
    Set::new(|v: usize| staged.inputs().contains(v) || is_start_output(aig, v))
}

/// Is the pin an output of one of the macros in the phases?
pub open spec fn is_phase_output(aig: AIG, waves: Seq<Vec<usize>>, v: usize) -> bool {
    exists|w: int, x: int| #[trigger] is_lane(waves, w, x) && mac(aig, waves[w]@[x]).mid_outputs().contains(v)
}

/// What no boomerang stage has to compute: what is given, and the outputs of
/// macro phases.
pub open spec fn seeded(aig: AIG, staged: StagedAIG, waves: Seq<Vec<usize>>) -> Set<usize> {
    Set::new(|v: usize| given_pins(aig, staged).contains(v) || is_phase_output(aig, waves, v))
}

/// Is there a last stage that leaves the pin behind?
pub open spec fn last_holds(stages: Seq<BoomerangStage>, pin: usize) -> bool {
    stages.len() > 0 && stages.last().realizes(pin)
}

/// Is the pin an output that evaluating one of the macros produces?
pub open spec fn is_wave_output(aig: AIG, wave: Seq<usize>, q: usize) -> bool {
    exists|l: int| 0 <= l < wave.len() && mac(aig, #[trigger] wave[l]).mid_outputs().contains(q)
}

/// Do the stages hold no output of the macros, and nothing that is computed from
/// one?
pub open spec fn unread(aig: AIG, seeds: Set<usize>, stages: Seq<BoomerangStage>, wave: Seq<usize>) -> bool {
    forall|k: int, v: usize, q: usize|
        0 <= k < stages.len() && #[trigger] stages[k].realizes(v) && #[trigger] is_wave_output(aig, wave, q)
            ==> !aig.reaches(seeds, v, q)
}

/// Is this the phase for the given macros, with everything that it gathers
/// seeded or left behind by the stage that it runs after, and with nothing of
/// what it produces read before?
pub open spec fn phase_ok(
    aig: AIG,
    seeds: Set<usize>,
    stages: Seq<BoomerangStage>,
    wave: Seq<usize>,
    phase: MacroStage,
) -> bool {
    &&& phase.after_stage <= stages.len()
    &&& phase.lanes@.len() == wave.len()
    &&& forall|l: int|
        0 <= l < wave.len() ==> (#[trigger] phase.lanes@[l]).macro_i == wave[l] && phase.lanes@[l].chain_start
            == spec_chain_start(aig, wave, l)
    &&& unread(aig, seeds, stages.take(phase.after_stage as int), wave)
    &&& forall|pin: usize| #[trigger]
        gathers(aig, wave, pin) ==> seeds.contains(pin) || last_holds(stages.take(phase.after_stage as int), pin)
}

/// Do stages and phases take turns, from the start until all targets are written
/// out, and do the stages carry what held-back targets depend on?
pub open spec fn is_scheduled(
    aig: AIG,
    reserved: int,
    seeds: Set<usize>,
    goal: Seq<usize>,
    waves: Seq<Vec<usize>>,
    phases: Seq<MacroStage>,
    stages: Seq<BoomerangStage>,
) -> bool {
    exists|stands: Seq<Stand>| #[trigger]
        is_schedule(aig, reserved, seeds, goal, waves, phases, stages, stands) && is_through(
            aig,
            reserved,
            stands.last(),
            stages.skip(phase_start(phases, phases.len() as int)),
        ) && leaves_stay(aig, seeds, waves, phases, stages, stands)
}

/// Is this a right partition for the endpoint groups, with its macros evaluated
/// in these phases?
pub open spec fn partition_with(
    aig: AIG,
    staged: StagedAIG,
    endpoints: Seq<usize>,
    waves: Seq<Vec<usize>>,
    p: Partition,
) -> bool {
    let targets = partition_targets(aig, staged, endpoints);
    let seeds = seeded(aig, staged, waves);
    // It realizes the endpoint groups, and commits the state of their macros.
    &&& p.endpoints@ == endpoints
    &&& p.state_macros@ == state_macros_of(aig, staged, endpoints)
    // Every stage can be computed from what is there before it.
    &&& stages_backed(aig, seeds, p.stages@)
    // Every pin that an endpoint group reads is written out.
    &&& forall|t: usize| #[trigger] targets.contains(t) ==> written_in(p.stages@, t)
    &&& count_write_outs(p.stages@) + reserved_write_outs(aig, staged, endpoints) <= BOOMERANG_MAX_WRITEOUTS
    // The macros that are needed are evaluated, in order.
    &&& waves_ok(aig, given_pins(aig, staged), targets, waves)
    &&& p.macro_stages@.len() == waves.len()
    &&& forall|w: int|
        0 <= w < waves.len() ==> phase_ok(aig, seeds, p.stages@, waves[w]@, #[trigger] p.macro_stages@[w])
    &&& forall|w: int, v: int|
        0 <= w < v < waves.len() ==> (#[trigger] p.macro_stages@[w]).after_stage <= (
        #[trigger] p.macro_stages@[v]).after_stage
    // Stages and phases take turns from the start to the end.
    &&& is_scheduled(
        aig,
        reserved_write_outs(aig, staged, endpoints) as int,
        seeds,
        targets,
        waves,
        p.macro_stages@,
        p.stages@,
    )
    // Without macros, a stage takes only what the stage before it leaves.
    &&& waves.len() == 0 && gates_only(aig, seeds) ==> stages_linked(p.stages@)
}

/// Is this a right partition for the endpoint groups?
pub open spec fn partition_ok(aig: AIG, staged: StagedAIG, endpoints: Seq<usize>, p: Partition) -> bool {
    exists|waves: Seq<Vec<usize>>| #[trigger] partition_with(aig, staged, endpoints, waves, p)
}

/// Do the endpoint groups depend on no macro that has to be evaluated?
pub open spec fn is_plain(aig: AIG, staged: StagedAIG, endpoints: Seq<usize>) -> bool {
    let targets = partition_targets(aig, staged, endpoints);
    forall|m: usize| !#[trigger] in_macro_cone(aig, given_pins(aig, staged), targets, m)
}

/// Does the logic of the endpoint groups fit into one stage without macros?
pub open spec fn is_small(aig: AIG, staged: StagedAIG, endpoints: Seq<usize>) -> bool {
    let targets = partition_targets(aig, staged, endpoints);
    &&& is_plain(aig, staged, endpoints)
    &&& one_stage_suffices(
        aig,
        given_pins(aig, staged),
        targets,
        0,
        reserved_write_outs(aig, staged, endpoints) as int,
    )
}

/// Is the pin a target, or gathered by a phase?
pub open spec fn is_wanted(aig: AIG, waves: Seq<Vec<usize>>, targets: Seq<usize>, t: usize) -> bool {
    targets.contains(t) || exists|w: int| 0 <= w < waves.len() && gathers(aig, (#[trigger] waves[w])@, t)
}

/// The pins that are wanted, with all that they depend on down to the seeds.
pub open spec fn wanted_pins(aig: AIG, seeds: Set<usize>, waves: Seq<Vec<usize>>, targets: Seq<usize>) -> Set<usize> {
    Set::new(
        |v: usize|
            v <= aig.num_aigpins && exists|t: usize| #[trigger]
                is_wanted(aig, waves, targets, t) && aig.reaches(seeds, t, v),
    )
}

/// Is the logic before and between the phases shallow, and so little of it that
/// one stage for all of it would fit before every phase and at the end?
pub open spec fn is_tame_with(aig: AIG, staged: StagedAIG, endpoints: Seq<usize>, waves: Seq<Vec<usize>>) -> bool {
    let seeds = seeded(aig, staged, waves);
    let pins = wanted_pins(aig, seeds, waves, partition_targets(aig, staged, endpoints));
    &&& forall|v: usize| #[trigger] pins.contains(v) ==> is_leaf(aig, seeds, v) || is_base_gate(aig, seeds, v)
    &&& (waves.len() + 1) * pins.len() <= BOOMERANG_MAX_WRITEOUTS - reserved_write_outs(aig, staged, endpoints)
}

/// Can macros be evaluated in an order, with little and shallow logic around
/// them?
pub open spec fn is_tame(aig: AIG, staged: StagedAIG, endpoints: Seq<usize>) -> bool {
    let given = given_pins(aig, staged);
    let targets = partition_targets(aig, staged, endpoints);
    &&& exists|rank: spec_fn(usize) -> nat| #[trigger] macros_ranked(aig, given, targets, rank)
    &&& forall|waves: Seq<Vec<usize>>| #[trigger]
        waves_ok(aig, given, targets, waves) ==> is_tame_with(aig, staged, endpoints, waves)
}

/// Is the logic of the endpoint groups certain to fit: into one stage, if it
/// computes one pin only into some number of stages, or into one stage before
/// every phase and one at the end?
pub open spec fn is_easy(aig: AIG, staged: StagedAIG, endpoints: Seq<usize>) -> bool {
    ||| is_tame(aig, staged, endpoints)
    ||| is_small(aig, staged, endpoints)
    ||| is_plain(aig, staged, endpoints) && one_target_suffices(
        aig,
        given_pins(aig, staged),
        partition_targets(aig, staged, endpoints),
        0,
        reserved_write_outs(aig, staged, endpoints) as int,
    )
}

/// Why is there no partition: because the budget is exceeded, because macros
/// depend on each other in a cycle, or because stages come to a halt?
pub open spec fn is_refused(aig: AIG, staged: StagedAIG, endpoints: Seq<usize>) -> bool {
    let given = given_pins(aig, staged);
    let goal = partition_targets(aig, staged, endpoints);
    ||| over_budget(aig, staged, endpoints)
    ||| !exists|rank: spec_fn(usize) -> nat| #[trigger] macros_ranked(aig, given, goal, rank)
    ||| exists|waves: Seq<Vec<usize>>| #[trigger]
        waves_ok(aig, given, goal, waves) && halts(
            aig,
            seeded(aig, staged, waves),
            goal,
            reserved_write_outs(aig, staged, endpoints) as int,
            waves,
        )
}

/// Do the stages, one after the other, take the targets of a partition without
/// phases from what is given to the end?
pub open spec fn runs_through(
    aig: AIG,
    reserved: int,
    given: Set<usize>,
    goal: Seq<usize>,
    stages: Seq<BoomerangStage>,
) -> bool {
    exists|flows: Seq<Flow>| #[trigger]
        is_run(aig, reserved, None, Seq::empty(), flows, stages) && flows[0].realized.to_set() == given
            && flows[0].targets
            == goal && flows[0].total == 0 && flows.last().targets.len() == 0
}

/// Adds the outputs of all macros that are available at cycle start.
fn seed_start_outputs(aig: &AIG, realized: &mut IndexSet<usize>)
    requires
        aig.macros_wf(),
        outputs_ok(*aig),
        are_pins(*aig, set_items(*old(realized))),
    ensures
        are_pins(*aig, set_items(*final(realized))),
        forall|v: usize| #[trigger]
            set_items(*final(realized)).contains(v) <==> set_items(*old(realized)).contains(v) || is_start_output(
                *aig,
                v,
            ),
{
    let ghost r0 = set_items(*realized);
    let n = aig.macros.len();
    let mut i: usize = 0;
    while i < n
        invariant
            aig.macros_wf(),
            outputs_ok(*aig),
            n == aig.macros.vals().len(),
            i <= n,
            are_pins(*aig, set_items(*realized)),
            forall|v: usize| #[trigger]
                set_items(*realized).contains(v) <==> r0.contains(v) || exists|p: usize|
                    p < i && #[trigger] mac(*aig, p).start_outputs().contains(v),
        decreases n - i,
    {
        assert(mac(*aig, i).wf());
        let pins = aig.macros.value(i).cycle_start_outputs();
        let ghost r1 = set_items(*realized);
        add_all(realized, &pins);
        proof {
            assert forall|v: usize| #[trigger]
                set_items(*realized).contains(v) <==> r0.contains(v) || exists|p: usize|
                    p < i + 1 && #[trigger] mac(*aig, p).start_outputs().contains(v) by {
                if pins@.contains(v) {
                    assert(mac(*aig, i).start_outputs().contains(v));
                }
            }
            lemma_pins_grow(*aig, r1, pins@, set_items(*realized), i, false);
        }
        i += 1;
    }
}

/// Outputs of macros are pins.
proof fn lemma_outputs_are_pins(aig: AIG, p: usize, n: nat, eval: bool)
    requires
        outputs_ok(aig),
        p < aig.macros.vals().len(),
        n <= mac(aig, p).outputs@.len(),
        n <= 48,
    ensures
        are_pins(aig, mac(aig, p).outputs_below(n, eval)),
    decreases n,
{
    if n > 0 {
        lemma_outputs_are_pins(aig, p, (n - 1) as nat, eval);
        let s = n - 1;
        let rest = mac(aig, p).outputs_below((n - 1) as nat, eval);
        if mac(aig, p).outputs@[s] != 0 {
            assert(mac(aig, p).outputs@[s] <= aig.num_aigpins);
        }
        assert forall|i: int| 0 <= i < mac(aig, p).outputs_below(n, eval).len() implies #[trigger] mac(
            aig,
            p,
        ).outputs_below(n, eval)[i] <= aig.num_aigpins by {
            if i < rest.len() {
                assert(rest[i] <= aig.num_aigpins);
            }
        }
    }
}

proof fn lemma_pins_grow(aig: AIG, r1: Seq<usize>, pins: Seq<usize>, r2: Seq<usize>, p: usize, eval: bool)
    requires
        aig.macros_wf(),
        outputs_ok(aig),
        p < aig.macros.vals().len(),
        are_pins(aig, r1),
        pins == mac(aig, p).outputs_below(mac(aig, p).kind.spec_num_outputs() as nat, eval),
        forall|v: usize| #[trigger] r2.contains(v) <==> r1.contains(v) || pins.contains(v),
    ensures
        are_pins(aig, r2),
{
    assert(mac(aig, p).wf());
    lemma_outputs_are_pins(aig, p, mac(aig, p).kind.spec_num_outputs() as nat, eval);
    assert forall|i: int| 0 <= i < r2.len() implies #[trigger] r2[i] <= aig.num_aigpins by {
        assert(r2.contains(r2[i]));
        if r1.contains(r2[i]) {
            assert(r1[r1.index_of(r2[i])] <= aig.num_aigpins);
        } else {
            assert(pins[pins.index_of(r2[i])] <= aig.num_aigpins);
        }
    }
}

/// Is the pin an output of a macro in the phases from `from` up to `to`?
pub open spec fn output_between(aig: AIG, waves: Seq<Vec<usize>>, from: int, to: int, v: usize) -> bool {
    exists|w: int, x: int|
        #![trigger is_lane(waves, w, x)]
        from <= w < to && is_lane(waves, w, x) && mac(aig, waves[w]@[x]).mid_outputs().contains(v)
}

/// All lanes hold macros of the graph.
spec fn lanes_in_range(aig: AIG, waves: Seq<Vec<usize>>) -> bool {
    forall|w: int, x: int| #[trigger] is_lane(waves, w, x) ==> waves[w]@[x] < aig.macros.vals().len()
}

/// Adds the outputs of the macros of a phase.
fn add_wave_outputs(
    aig: &AIG,
    waves: &Vec<Vec<usize>>,
    w: usize,
    realized: &mut IndexSet<usize>,
    pending: &mut IndexSet<usize>,
)
    requires
        aig.macros_wf(),
        outputs_ok(*aig),
        lanes_in_range(*aig, waves@),
        w < waves@.len(),
        are_pins(*aig, set_items(*old(realized))),
    ensures
        are_pins(*aig, set_items(*final(realized))),
        forall|v: usize| #[trigger]
            set_items(*final(realized)).contains(v) <==> set_items(*old(realized)).contains(v) || output_between(
                *aig,
                waves@,
                w as int,
                w + 1,
                v,
            ),
        forall|v: usize| #[trigger]
            set_items(*final(pending)).contains(v) <==> set_items(*old(pending)).contains(v) || output_between(
                *aig,
                waves@,
                w as int,
                w + 1,
                v,
            ),
{
    let ghost r0 = set_items(*realized);
    let ghost p0 = set_items(*pending);
    let n = waves[w].len();
    let mut x: usize = 0;
    while x < n
        invariant
            aig.macros_wf(),
            outputs_ok(*aig),
            lanes_in_range(*aig, waves@),
            w < waves@.len(),
            n == waves@[w as int]@.len(),
            x <= n,
            are_pins(*aig, set_items(*realized)),
            forall|v: usize| #[trigger]
                set_items(*realized).contains(v) <==> r0.contains(v) || exists|y: int|
                    0 <= y < x && #[trigger] mac(*aig, waves@[w as int]@[y]).mid_outputs().contains(v),
            forall|v: usize| #[trigger]
                set_items(*pending).contains(v) <==> p0.contains(v) || exists|y: int|
                    0 <= y < x && #[trigger] mac(*aig, waves@[w as int]@[y]).mid_outputs().contains(v),
        decreases n - x,
    {
        assert(is_lane(waves@, w as int, x as int));
        let macro_i = waves[w][x];
        assert(mac(*aig, macro_i).wf());
        let pins = aig.macros.value(macro_i).mid_partition_outputs();
        let ghost r1 = set_items(*realized);
        add_all(realized, &pins);
        add_all(pending, &pins);
        proof {
            lemma_pins_grow(*aig, r1, pins@, set_items(*realized), macro_i, true);
            assert forall|v: usize| pins@.contains(v) implies #[trigger] mac(
                *aig,
                waves@[w as int]@[x as int],
            ).mid_outputs().contains(v) by {}
        }
        x += 1;
    }
    proof {
        assert forall|v: usize| (exists|y: int|
            0 <= y < n && #[trigger] mac(*aig, waves@[w as int]@[y]).mid_outputs().contains(v))
            <==> #[trigger] output_between(*aig, waves@, w as int, w + 1, v) by {
            if exists|y: int| 0 <= y < n && #[trigger] mac(*aig, waves@[w as int]@[y]).mid_outputs().contains(v) {
                let y = choose|y: int|
                    0 <= y < n && #[trigger] mac(*aig, waves@[w as int]@[y]).mid_outputs().contains(v);
                assert(is_lane(waves@, w as int, y));
            }
            if output_between(*aig, waves@, w as int, w + 1, v) {
                let (a, y) = choose|a: int, y: int|
                    #![trigger is_lane(waves@, a, y)]
                    w <= a < w + 1 && is_lane(waves@, a, y) && mac(*aig, waves@[a]@[y]).mid_outputs().contains(v);
                assert(mac(*aig, waves@[w as int]@[y]).mid_outputs().contains(v));
            }
        }
    }
}

/// Marks the outputs of all phases as pending; for boomerang stages they are
/// leaves.
fn seed_mid_outputs(aig: &AIG, waves: &Vec<Vec<usize>>, realized: &mut IndexSet<usize>) -> (pending: IndexSet<usize>)
    requires
        aig.macros_wf(),
        outputs_ok(*aig),
        lanes_in_range(*aig, waves@),
        are_pins(*aig, set_items(*old(realized))),
    ensures
        are_pins(*aig, set_items(*final(realized))),
        forall|v: usize| #[trigger]
            set_items(*final(realized)).contains(v) <==> set_items(*old(realized)).contains(v) || output_between(
                *aig,
                waves@,
                0,
                waves@.len() as int,
                v,
            ),
        forall|v: usize| #[trigger]
            set_items(pending).contains(v) <==> output_between(*aig, waves@, 0, waves@.len() as int, v),
{
    let ghost r0 = set_items(*realized);
    let mut pending = set_new();
    let mut w: usize = 0;
    while w < waves.len()
        invariant
            aig.macros_wf(),
            outputs_ok(*aig),
            lanes_in_range(*aig, waves@),
            w <= waves@.len(),
            are_pins(*aig, set_items(*realized)),
            forall|v: usize| #[trigger]
                set_items(*realized).contains(v) <==> r0.contains(v) || output_between(*aig, waves@, 0, w as int, v),
            forall|v: usize| #[trigger]
                set_items(pending).contains(v) <==> output_between(*aig, waves@, 0, w as int, v),
        decreases waves@.len() - w,
    {
        add_wave_outputs(aig, waves, w, realized, &mut pending);
        proof {
            assert forall|v: usize| #[trigger]
                output_between(*aig, waves@, 0, w + 1, v) <==> output_between(*aig, waves@, 0, w as int, v)
                    || output_between(*aig, waves@, w as int, w + 1, v) by {}
        }
        w += 1;
    }
    pending
}

/// Has the input slot to be there when the macro is evaluated?
fn needed_slot(kind: MacroKind, slot: usize) -> (b: bool)
    ensures
        b == is_needed_slot(kind, slot),
{
    if kind.commits_state_in_phase() {
        let slots = kind.state_fanin();
        if vec_contains(&slots, slot) {
            return true;
        }
    }
    let n = kind.num_outputs();
    let mut o: usize = 0;
    while o < n
        invariant
            n == kind.spec_num_outputs(),
            n <= 48,
            o <= n,
            forall|q: usize|
                q < o ==> !(#[trigger] kind.spec_needs_eval(q) && kind.spec_comb_fanin(q).contains(slot)),
        decreases n - o,
    {
        if kind.output_needs_mid_partition_eval(o) {
            let deps = kind.comb_fanin_of_output(o);
            if vec_contains(&deps, slot) {
                return true;
            }
        }
        o += 1;
    }
    false
}

/// The pins that a phase gathers, but for those that are realized.
fn wave_inputs(aig: &AIG, wave: &Vec<usize>, realized: &IndexSet<usize>) -> (r: IndexSet<usize>)
    requires
        aig.macros_wf(),
        macro_inputs_ok(*aig),
        forall|i: int| 0 <= i < wave@.len() ==> #[trigger] wave@[i] < aig.macros.vals().len(),
    ensures
        are_pins(*aig, set_items(r)),
        forall|pin: usize| #[trigger]
            set_items(r).contains(pin) <==> gathers(*aig, wave@, pin) && !set_items(*realized).contains(pin),
{
    let ghost done = set_items(*realized);
    let mut r = set_new();
    let n = wave.len();
    let mut l: usize = 0;
    while l < n
        invariant
            aig.macros_wf(),
            macro_inputs_ok(*aig),
            forall|i: int| 0 <= i < wave@.len() ==> #[trigger] wave@[i] < aig.macros.vals().len(),
            done == set_items(*realized),
            n == wave@.len(),
            l <= n,
            forall|pin: usize| #[trigger]
                set_items(r).contains(pin) <==> !done.contains(pin) && exists|k: int, s: usize|
                    k < l && #[trigger] gathers_at(*aig, wave@, k, s, pin),
        decreases n - l,
    {
        let macro_i = wave[l];
        assert(wave@[l as int] < aig.macros.vals().len());
        assert(wave_ok(*aig, wave@));
        let m = aig.macros.value(macro_i);
        assert(mac(*aig, macro_i).wf());
        let scanned_ci = !is_chain_start(aig, wave, l);
        let ns = m.kind.num_inputs();
        let mut slot: usize = 0;
        while slot < ns
            invariant
                aig.macros_wf(),
                macro_i == wave@[l as int],
                *m == mac(*aig, macro_i),
                m.wf(),
                scanned_ci == !spec_chain_start(*aig, wave@, l as int),
                ns == m.kind.spec_num_inputs(),
                slot <= ns,
                done == set_items(*realized),
                0 <= l < n,
                n == wave@.len(),
                forall|pin: usize| #[trigger]
                    set_items(r).contains(pin) <==> !done.contains(pin) && exists|k: int, s: usize|
                        (k < l || (k == l && s < slot)) && #[trigger] gathers_at(*aig, wave@, k, s, pin),
            decreases ns - slot,
        {
            let ghost r0 = set_items(r);
            let ghost mut hit: Option<usize> = None;
            if !(scanned_ci && slot == C4_IN_CI) {
                if needed_slot(m.kind, slot) {
                    let pin: usize = m.inputs[slot] / 2;
                    if pin != 0 && !set_contains(realized, pin) {
                        set_add(&mut r, pin);
                        proof {
                            hit = Some(pin);
                            assert(gathers_at(*aig, wave@, l as int, slot, pin));
                        }
                    }
                }
            }
            proof {
                assert forall|pin: usize| #[trigger]
                    set_items(r).contains(pin) <==> !done.contains(pin) && exists|k: int, s: usize|
                        (k < l || (k == l && s < slot + 1)) && #[trigger] gathers_at(*aig, wave@, k, s, pin) by {
                    if r0.contains(pin) {
                        let (k, s) = choose|k: int, s: usize|
                            (k < l || (k == l && s < slot)) && #[trigger] gathers_at(*aig, wave@, k, s, pin);
                        assert(gathers_at(*aig, wave@, k, s, pin));
                    }
                }
            }
            slot += 1;
        }
        proof {
            assert forall|pin: usize| #[trigger]
                set_items(r).contains(pin) <==> !done.contains(pin) && exists|k: int, s: usize|
                    k < l + 1 && #[trigger] gathers_at(*aig, wave@, k, s, pin) by {
                if exists|k: int, s: usize| k < l + 1 && #[trigger] gathers_at(*aig, wave@, k, s, pin) {
                    let (k, s) = choose|k: int, s: usize| k < l + 1 && #[trigger] gathers_at(*aig, wave@, k, s, pin);
                    assert(k < l || (k == l && s < ns));
                }
            }
        }
        l += 1;
    }
    proof {
        assert forall|pin: usize| #[trigger]
            set_items(r).contains(pin) <==> gathers(*aig, wave@, pin) && !done.contains(pin) by {
            if gathers(*aig, wave@, pin) {
                let (k, s) = choose|k: int, s: usize| #[trigger] gathers_at(*aig, wave@, k, s, pin);
                assert(k < n);
            }
        }
        assert forall|i: int| 0 <= i < set_items(r).len() implies #[trigger] set_items(r)[i] <= aig.num_aigpins by {
            let pin = set_items(r)[i];
            assert(set_items(r).contains(pin));
            let (k, s) = choose|k: int, s: usize| #[trigger] gathers_at(*aig, wave@, k, s, pin);
            assert(mac(*aig, wave@[k]).wf());
            assert(mac(*aig, wave@[k]).inputs@[s as int] / 2 <= aig.num_aigpins);
        }
    }
    r
}

/// A target waits for the phase of a macro, is open, or is written out.
spec fn accounted(stages: Seq<BoomerangStage>, open: Seq<usize>, pending: Seq<usize>, t: usize) -> bool {
    open.contains(t) || pending.contains(t) || written_in(stages, t)
}

/// How far a partition has come when phase `w` is next.
spec fn on_track(
    aig: AIG,
    seeds: Set<usize>,
    goal: Seq<usize>,
    waves: Seq<Vec<usize>>,
    w: int,
    stages: Seq<BoomerangStage>,
    realized: Seq<usize>,
    total: usize,
    open: Seq<usize>,
    pending: Seq<usize>,
) -> bool {
    &&& stages_ok(aig, seeds, stages, realized, total)
    &&& are_pins(aig, open)
    &&& forall|t: usize| #[trigger] goal.contains(t) ==> accounted(stages, open, pending, t)
    &&& forall|q: usize| #[trigger]
        pending.contains(q) ==> seeds.contains(q) && output_between(aig, waves, w, waves.len() as int, q)
    &&& forall|q: usize| #[trigger] pending.contains(q) ==> !open.contains(q)
}

/// Do the pins that are realized, but for those that are pending, and the pins
/// that stages hold depend on nothing that is pending?
#[verifier::opaque]
spec fn untouched(
    aig: AIG,
    seeds: Set<usize>,
    stages: Seq<BoomerangStage>,
    realized: Seq<usize>,
    pending: Seq<usize>,
) -> bool {
    &&& forall|v: usize| #[trigger]
        realized.contains(v) && !pending.contains(v) ==> !waits(aig, seeds, pending, v)
    &&& forall|k: int, v: usize|
        0 <= k < stages.len() && #[trigger] stages[k].realizes(v) ==> !waits(aig, seeds, pending, v)
}

/// Are all outputs of the phases from `w` on pending?
#[verifier::opaque]
spec fn all_pending(aig: AIG, waves: Seq<Vec<usize>>, w: int, pending: Seq<usize>) -> bool {
    forall|q: usize| #[trigger] output_between(aig, waves, w, waves.len() as int, q) ==> pending.contains(q)
}

/// A pin that does not wait where the walk stops at all realized pins does not
/// wait where it stops at the seeds alone.
proof fn lemma_waits_at_seeds(
    aig: AIG,
    seeds: Set<usize>,
    stages: Seq<BoomerangStage>,
    realized: Seq<usize>,
    pending: Seq<usize>,
    t: usize,
)
    requires
        untouched(aig, seeds, stages, realized, pending),
        forall|q: usize| #[trigger] pending.contains(q) ==> seeds.contains(q),
        waits(aig, seeds, pending, t),
    ensures
        waits(aig, realized.to_set(), pending, t),
{
    reveal(untouched);
    let done = realized.to_set();
    let q = choose|q: usize| #[trigger] pending.contains(q) && aig.reaches(seeds, t, q);
    let s = choose|s: Seq<usize>| #[trigger] aig.is_walk(seeds, s) && s[0] == t && s.last() == q;
    if forall|i: int| 0 <= i < s.len() - 1 ==> !done.contains(#[trigger] s[i]) {
        assert forall|i: int| 0 <= i < s.len() - 1 implies #[trigger] aig.is_step(done, s, i) by {
            assert(aig.is_step(seeds, s, i));
        }
        assert(aig.is_walk(done, s));
        assert(aig.reaches(done, t, q));
    } else {
        let i = choose|i: int| 0 <= i < s.len() - 1 && done.contains(#[trigger] s[i]);
        let u = s[i];
        assert(aig.is_step(seeds, s, i));
        assert(realized.contains(u));
        let rest = s.subrange(i, s.len() as int);
        assert forall|j: int| 0 <= j < rest.len() - 1 implies #[trigger] aig.is_step(seeds, rest, j) by {
            assert(aig.is_step(seeds, s, i + j));
        }
        assert(aig.is_walk(seeds, rest));
        assert(rest[0] == u && rest.last() == q);
        assert(aig.reaches(seeds, u, q));
        assert(waits(aig, seeds, pending, u));
    }
}

/// Stages for targets that do not wait leave what is pending untouched.
proof fn lemma_untouched_after(
    aig: AIG,
    seeds: Set<usize>,
    s0: Seq<BoomerangStage>,
    r0: Seq<usize>,
    s1: Seq<BoomerangStage>,
    r1: Seq<usize>,
    pending: Seq<usize>,
    free: Seq<usize>,
    live: Seq<usize>,
    total: usize,
)
    requires
        untouched(aig, seeds, s0, r0, pending),
        forall|q: usize| #[trigger] pending.contains(q) ==> seeds.contains(q) && !live.contains(q),
        forall|v: usize| #[trigger] seeds.contains(v) ==> r0.contains(v),
        forall|t: usize| #[trigger] free.contains(t) ==> !waits(aig, r0.to_set(), pending, t),
        s0.is_prefix_of(s1),
        stages_ok(aig, seeds, s1, r1, total),
        forall|v: usize| #[trigger] r1.contains(v) ==> r0.contains(v) || in_cone(aig, r0.to_set(), free, v),
        stages_within(aig, r0.to_set(), free, live, s1, s0.len() as int),
    ensures
        untouched(aig, seeds, s1, r1, pending),
{
    let done = r0.to_set();
    assert forall|v: usize| #[trigger] in_cone(aig, done, free, v) implies !waits(aig, seeds, pending, v) by {
        let t = choose|t: usize| #[trigger] free.contains(t) && aig.reaches(done, t, v);
        if waits(aig, seeds, pending, v) {
            let q = choose|q: usize| #[trigger] pending.contains(q) && aig.reaches(seeds, v, q);
            lemma_reach_more(aig, done, seeds, t, v);
            aig.lemma_reaches_trans(seeds, t, v, q);
            assert(waits(aig, seeds, pending, t));
            lemma_waits_at_seeds(aig, seeds, s0, r0, pending, t);
        }
    }
    reveal(untouched);
    reveal(stages_within);
    assert forall|v: usize| #[trigger] r1.contains(v) && !pending.contains(v) implies !waits(
        aig,
        seeds,
        pending,
        v,
    ) by {
        if !r0.contains(v) {
            assert(in_cone(aig, done, free, v));
        }
    }
    assert forall|k: int, v: usize| 0 <= k < s1.len() && #[trigger] s1[k].realizes(v) implies !waits(
        aig,
        seeds,
        pending,
        v,
    ) by {
        if k < s0.len() {
            assert(s0[k].realizes(v));
        } else if live.contains(v) {
            assert(realized_in(s1, v));
            assert(r1.contains(v));
        }
    }
}

/// What is untouched stays so when less is pending.
proof fn lemma_untouched_less(
    aig: AIG,
    seeds: Set<usize>,
    stages: Seq<BoomerangStage>,
    realized: Seq<usize>,
    p0: Seq<usize>,
    p1: Seq<usize>,
)
    requires
        untouched(aig, seeds, stages, realized, p0),
        forall|q: usize| #[trigger] p0.contains(q) ==> seeds.contains(q),
        forall|q: usize| #[trigger] p1.contains(q) ==> p0.contains(q),
    ensures
        untouched(aig, seeds, stages, realized, p1),
{
    reveal(untouched);
    assert forall|v: usize| waits(aig, seeds, p1, v) implies #[trigger] waits(aig, seeds, p0, v) by {
        let q = choose|q: usize| #[trigger] p1.contains(q) && aig.reaches(seeds, v, q);
        assert(p0.contains(q));
    }
    assert forall|v: usize| #[trigger] realized.contains(v) && !p1.contains(v) implies !waits(
        aig,
        seeds,
        p1,
        v,
    ) by {
        if p0.contains(v) && waits(aig, seeds, p1, v) {
            let q = choose|q: usize| #[trigger] p1.contains(q) && aig.reaches(seeds, v, q);
            let s = choose|s: Seq<usize>| #[trigger] aig.is_walk(seeds, s) && s[0] == v && s.last() == q;
            if s.len() > 1 {
                assert(aig.is_step(seeds, s, 0));
            }
        } else if !p0.contains(v) {
            assert(!waits(aig, seeds, p0, v));
        }
    }
    assert forall|k: int, v: usize| 0 <= k < stages.len() && #[trigger] stages[k].realizes(v) implies !waits(
        aig,
        seeds,
        p1,
        v,
    ) by {
        assert(!waits(aig, seeds, p0, v));
    }
}

/// What evaluating a macro produces is driven by it.
proof fn lemma_mid_producer(aig: AIG, p: usize, q: usize)
    requires
        aig.macros_wf(),
        outputs_ok(aig),
        p < aig.macros.vals().len(),
        mac(aig, p).mid_outputs().contains(q),
    ensures
        producer(aig, q) == Some(p),
        q <= aig.num_aigpins,
{
    assert(mac(aig, p).wf());
    let s = crate::macros::lemma_mid_slot(mac(aig, p), q);
    assert(mac(aig, p).outputs@[s] != 0);
}

/// Adds the elements of a set to another one, as far as they are not in a
/// third one.
fn add_unless(s: &mut IndexSet<usize>, more: &IndexSet<usize>, unless: &IndexSet<usize>)
    ensures
        set_items(*old(s)).is_prefix_of(set_items(*final(s))),
        forall|x: usize| #[trigger]
            set_items(*final(s)).contains(x) <==> set_items(*old(s)).contains(x) || (set_items(*more).contains(x)
                && !set_items(*unless).contains(x)),
        set_items(*old(s)).len() == 0 && (forall|x: usize| #[trigger]
            set_items(*more).contains(x) ==> !set_items(*unless).contains(x)) ==> set_items(*final(s)) == set_items(
            *more,
        ),
{
    let ghost s0 = set_items(*s);
    let ghost m = set_items(*more);
    let n = set_len(more);
    let mut i: usize = 0;
    while i < n
        invariant
            m == set_items(*more),
            m.no_duplicates(),
            n == m.len(),
            i <= n,
            s0.is_prefix_of(set_items(*s)),
            forall|x: usize| #[trigger]
                set_items(*s).contains(x) <==> s0.contains(x) || (m.take(i as int).contains(x) && !set_items(
                    *unless,
                ).contains(x)),
            s0.len() == 0 && (forall|x: usize| #[trigger] m.contains(x) ==> !set_items(*unless).contains(x))
                ==> set_items(*s) == m.take(i as int),
        decreases n - i,
    {
        let v = set_at(more, i);
        proof {
            assert(m.take(i + 1) =~= m.take(i as int).push(v));
            lemma_push_contains(m.take(i as int), v);
            assert(m.contains(v));
            assert(!m.take(i as int).contains(v)) by {
                if m.take(i as int).contains(v) {
                    assert(m[m.take(i as int).index_of(v)] == m[i as int]);
                }
            }
        }
        if !set_contains(unless, v) {
            set_add(s, v);
        }
        i += 1;
    }
    assert(m.take(n as int) =~= m);
}

/// The union of the sets from `from` on.
fn union_from(sets: &Vec<IndexSet<usize>>, from: usize) -> (r: IndexSet<usize>)
    requires
        from <= sets@.len(),
    ensures
        forall|x: usize| #[trigger]
            set_items(r).contains(x) <==> exists|k: int|
                from <= k < sets@.len() && set_items(#[trigger] sets@[k]).contains(x),
{
    let none = set_new();
    let mut r = set_new();
    let mut i: usize = from;
    while i < sets.len()
        invariant
            from <= i <= sets@.len(),
            set_items(none) == Seq::<usize>::empty(),
            forall|x: usize| #[trigger]
                set_items(r).contains(x) <==> exists|k: int|
                    from <= k < i && set_items(#[trigger] sets@[k]).contains(x),
        decreases sets@.len() - i,
    {
        add_unless(&mut r, &sets[i], &none);
        i += 1;
    }
    r
}

/// A target that waits is not realized by stages for targets that do not.
proof fn lemma_blocked_stays(
    aig: AIG,
    done: Set<usize>,
    pending: Seq<usize>,
    open: Seq<usize>,
    free: Seq<usize>,
    after: Seq<usize>,
    before: Seq<usize>,
    b: usize,
)
    requires
        done == before.to_set(),
        forall|q: usize| #[trigger] pending.contains(q) ==> !open.contains(q),
        open.contains(b),
        waits(aig, done, pending, b),
        forall|t: usize| #[trigger] free.contains(t) ==> !waits(aig, done, pending, t),
        forall|v: usize| #[trigger] after.contains(v) ==> before.contains(v) || in_cone(aig, done, free, v),
    ensures
        !after.contains(b),
{
    let q = choose|q: usize| #[trigger] pending.contains(q) && aig.reaches(done, b, q);
    let s = choose|s: Seq<usize>| #[trigger] aig.is_walk(done, s) && s[0] == b && s.last() == q;
    assert(b != q);
    assert(s.len() > 1);
    assert(aig.is_step(done, s, 0));
    if in_cone(aig, done, free, b) {
        let t = choose|t: usize| #[trigger] free.contains(t) && aig.reaches(done, t, b);
        let u = choose|u: Seq<usize>| #[trigger] aig.is_walk(done, u) && u[0] == t && u.last() == b;
        let all = u + s.subrange(1, s.len() as int);
        assert forall|i: int| 0 <= i < all.len() - 1 implies #[trigger] aig.is_step(done, all, i) by {
            if i < u.len() - 1 {
                assert(aig.is_step(done, u, i));
                assert(all[i] == u[i] && all[i + 1] == u[i + 1]);
            } else {
                let k = i - (u.len() - 1);
                assert(aig.is_step(done, s, k));
                assert(all[i + 1] == s[k + 1]);
                if k == 0 {
                    assert(all[i] == u.last());
                } else {
                    assert(all[i] == s[k]);
                }
            }
        }
        assert(aig.is_walk(done, all));
        assert(all[0] == t && all.last() == q);
        assert(aig.reaches(done, t, q));
        assert(waits(aig, done, pending, t));
    }
}

/// A realized pin waits for nothing but itself.
proof fn lemma_realized_does_not_wait(aig: AIG, done: Set<usize>, pending: Seq<usize>, x: usize)
    requires
        done.contains(x),
        !pending.contains(x),
    ensures
        !waits(aig, done, pending, x),
{
    if waits(aig, done, pending, x) {
        let q = choose|q: usize| #[trigger] pending.contains(q) && aig.reaches(done, x, q);
        let s = choose|s: Seq<usize>| #[trigger] aig.is_walk(done, s) && s[0] == x && s.last() == q;
        if s.len() > 1 {
            assert(aig.is_step(done, s, 0));
        }
    }
}

/// Are these the targets that stages can work on before a phase: those that are
/// open, and the pins to keep that are not realized, unless they wait for
/// outputs that are pending?
spec fn are_ready(
    aig: AIG,
    realized: Seq<usize>,
    pending: Seq<usize>,
    open: Seq<usize>,
    keep: Seq<usize>,
    ready: Seq<usize>,
) -> bool {
    &&& ready.no_duplicates()
    &&& forall|x: usize| #[trigger]
        ready.contains(x) <==> (open.contains(x) || (keep.contains(x) && !realized.contains(x))) && !waits(
            aig,
            realized.to_set(),
            pending,
            x,
        )
}

/// Are these pins, with all that they depend on down to the seeds, seeds, other
/// leaves or gates of two leaves?
pub open spec fn shallow_set(aig: AIG, seeds: Set<usize>, pins: Set<usize>) -> bool {
    &&& pins.finite()
    &&& forall|v: usize| #[trigger]
        pins.contains(v) ==> v <= aig.num_aigpins && (is_leaf(aig, seeds, v) || is_base_gate(aig, seeds, v))
    &&& forall|u: usize, v: usize| pins.contains(u) && #[trigger] aig.reaches(seeds, u, v) ==> pins.contains(v)
}

/// Are all elements in the set?
spec fn all_in(s: Seq<usize>, pins: Set<usize>) -> bool {
    forall|x: usize| #[trigger] s.contains(x) ==> pins.contains(x)
}

/// A stage for some of the pins is certain to fit.
proof fn lemma_shallow_fits(
    aig: AIG,
    seeds: Set<usize>,
    pins: Set<usize>,
    realized: Seq<usize>,
    targets: Seq<usize>,
)
    requires
        shallow_set(aig, seeds, pins),
        forall|v: usize| #[trigger] seeds.contains(v) ==> realized.contains(v),
        all_in(targets, pins),
        targets.no_duplicates(),
    ensures
        shallow(aig, realized.to_set(), targets),
        cone_set(aig, realized.to_set(), targets).len() <= pins.len(),
        targets.len() <= pins.len(),
        forall|v: usize| #[trigger] in_cone(aig, realized.to_set(), targets, v) ==> pins.contains(v),
        forall|v: usize| #[trigger]
            pins.contains(v) ==> is_leaf(aig, realized.to_set(), v) || is_base_gate(aig, realized.to_set(), v),
{
    let done = realized.to_set();
    assert forall|v: usize| #[trigger] in_cone(aig, done, targets, v) implies pins.contains(v) by {
        let t = choose|t: usize| #[trigger] targets.contains(t) && aig.reaches(done, t, v);
        lemma_reach_more(aig, done, seeds, t, v);
        assert(pins.contains(t));
    }
    assert forall|v: usize| #[trigger] pins.contains(v) implies is_leaf(aig, done, v) || is_base_gate(
        aig,
        done,
        v,
    ) by {
        assert(is_leaf(aig, seeds, v) || is_base_gate(aig, seeds, v));
    }
    vstd::set_lib::lemma_len_subset(cone_set(aig, done, targets), pins);
    targets.unique_seq_to_set();
    assert forall|x: usize| targets.to_set().contains(x) implies pins.contains(x) by {
        assert(targets.contains(x));
    }
    vstd::set_lib::lemma_len_subset(targets.to_set(), pins);
}

/// Runs the stages that have to come before a phase.
///
/// Targets that depend on outputs which are not evaluated yet are held back.
/// What they need stays addressable meanwhile. If everything that the phase
/// requires is there, no stage is built; if it is one gate away at most, and a
/// stage is certain to fit, one stage is enough.
fn run_before_phase(
    aig: &AIG,
    waves: &Vec<Vec<usize>>,
    w: usize,
    req: &IndexSet<usize>,
    keep: &IndexSet<usize>,
    open: &mut IndexSet<usize>,
    pending: &IndexSet<usize>,
    realized: &mut IndexSet<usize>,
    stages: &mut Vec<BoomerangStage>,
    total: &mut usize,
    reserved: usize,
    Ghost(seeds): Ghost<Set<usize>>,
    Ghost(goal): Ghost<Seq<usize>>,
    Ghost(pins): Ghost<Set<usize>>,
    Ghost(phases): Ghost<Seq<MacroStage>>,
    Ghost(stands): Ghost<Seq<Stand>>,
) -> (r: Option<()>)
    requires
        schedulable(*aig),
        reserved <= BOOMERANG_MAX_WRITEOUTS,
        *old(total) <= BOOMERANG_MAX_WRITEOUTS - reserved,
        on_track(
            *aig,
            seeds,
            goal,
            waves@,
            w as int,
            old(stages)@,
            set_items(*old(realized)),
            *old(total),
            set_items(*old(open)),
            set_items(*pending),
        ),
        are_pins(*aig, set_items(*keep)),
        forall|x: usize| #[trigger]
            set_items(*keep).contains(x) <==> is_needed(*aig, seeds, waves@, w as int, x),
        is_schedule(*aig, reserved as int, seeds, goal, waves@, phases, old(stages)@, stands),
        phases.len() == w,
        phase_start(phases, w as int) == old(stages)@.len(),
        stands.last() == stand_of(*old(realized), *old(open), *pending, *old(total)),
        untouched(*aig, seeds, old(stages)@, set_items(*old(realized)), set_items(*pending)),
        w < waves@.len(),
        is_fetched(*aig, seeds, waves@[w as int]@, set_items(*req)),
    ensures
        r is None ==> halts(*aig, seeds, goal, reserved as int, waves@),
        r is Some ==> exists|live: Seq<usize>, flows: Seq<Flow>| #[trigger]
            is_phase_run(
                *aig,
                reserved as int,
                seeds,
                waves@,
                w as int,
                stands.last(),
                set_items(*req),
                live,
                flows,
                final(stages)@.skip(old(stages)@.len() as int),
            ) && flows.last().realized == set_items(*final(realized)) && flows.last().total == *final(total) && is_back(
                *aig,
                seeds,
                waves@,
                w as int,
                stands.last(),
                flows.last(),
                set_items(*final(open)),
            ),
        r is Some ==> untouched(*aig, seeds, final(stages)@, set_items(*final(realized)), set_items(*pending)),
        r is Some ==> on_track(
            *aig,
            seeds,
            goal,
            waves@,
            w as int,
            final(stages)@,
            set_items(*final(realized)),
            *final(total),
            set_items(*final(open)),
            set_items(*pending),
        ),
        r is Some ==> *final(total) <= BOOMERANG_MAX_WRITEOUTS - reserved,
        r is Some ==> old(stages)@.is_prefix_of(final(stages)@),
        r is Some ==> forall|x: usize| #[trigger]
            set_items(*req).contains(x) ==> set_items(*final(realized)).contains(x),
        r is Some ==> forall|x: usize| #[trigger]
            set_items(*keep).contains(x) && addressable(
                set_items(*old(open)),
                set_items(*old(realized)),
                old(stages)@,
                x,
            ) ==> addressable(set_items(*final(open)), set_items(*final(realized)), final(stages)@, x),
        (forall|x: usize| #[trigger] set_items(*req).contains(x) ==> set_items(*old(realized)).contains(x)) ==> {
            &&& r is Some
            &&& *final(realized) == *old(realized)
            &&& final(stages)@ == old(stages)@
            &&& *final(total) == *old(total)
            &&& forall|x: usize| #[trigger]
                set_items(*final(open)).contains(x) <==> set_items(*old(open)).contains(x) || (set_items(
                    *keep,
                ).contains(x) && !set_items(*old(realized)).contains(x))
        },
        forall|ready: Seq<usize>| #[trigger]
            are_ready(
                *aig,
                set_items(*old(realized)),
                set_items(*pending),
                set_items(*old(open)),
                set_items(*keep),
                ready,
            ) && one_stage_realizes(
                *aig,
                set_items(*old(realized)).to_set(),
                ready,
                set_items(*req),
                *old(total) as int,
                reserved as int,
            ) ==> r is Some && final(stages)@.len() <= old(stages)@.len() + 1,
        shallow_set(*aig, seeds, pins) && all_in(set_items(*old(open)), pins) && all_in(set_items(*keep), pins)
            && pins.len() <= BOOMERANG_MAX_WRITEOUTS && *old(total) + pins.len() <= BOOMERANG_MAX_WRITEOUTS - reserved
            && (forall|x: usize| #[trigger]
            set_items(*req).contains(x) ==> set_items(*keep).contains(x) && !waits(
                *aig,
                set_items(*old(realized)).to_set(),
                set_items(*pending),
                x,
            )) ==> r is Some && all_in(set_items(*final(open)), pins) && *final(total) <= *old(total) + pins.len(),
{
    let ghost total0 = *total;
    let ghost pend = set_items(*pending);
    let ghost real0 = set_items(*realized);
    let ghost done = real0.to_set();
    let ghost open0 = set_items(*open);
    let ghost stages0 = stages@;
    let ghost keep0 = set_items(*keep);
    add_unless(open, keep, realized);
    let ghost open1 = set_items(*open);
    proof {
        lemma_acyclic_more(*aig, Set::empty(), done);
        assert forall|i: int| 0 <= i < open1.len() implies #[trigger] open1[i] <= aig.num_aigpins by {
            assert(open1.contains(open1[i]));
            if open0.contains(open1[i]) {
                assert(open0[open0.index_of(open1[i])] <= aig.num_aigpins);
            } else {
                assert(keep0[keep0.index_of(open1[i])] <= aig.num_aigpins);
            }
        }
        assert forall|q: usize| #[trigger] pend.contains(q) implies !open1.contains(q) by {
            assert(seeds.contains(q));
        }
    }
    let blocked = targets_blocked_by_pending(aig, open, realized, pending);
    let ghost blk = set_items(blocked);
    assert(are_pins(*aig, blk)) by {
        assert forall|i: int| 0 <= i < blk.len() implies #[trigger] blk[i] <= aig.num_aigpins by {
            assert(blk.contains(blk[i]));
            assert(open1[open1.index_of(blk[i])] <= aig.num_aigpins);
        }
    }
    let leaves = realized_leaves_of(aig, &blocked, realized);
    let mut live = set_copy(keep);
    add_unless(&mut live, &leaves, pending);
    let ghost lv = set_items(live);
    remove_all(open, &blocked);
    let ghost free = set_items(*open);
    proof {
        assert forall|i: int| 0 <= i < free.len() implies #[trigger] free[i] <= aig.num_aigpins by {
            assert(free.contains(free[i]));
            assert(open1[open1.index_of(free[i])] <= aig.num_aigpins);
        }
    }
    let _ = set_len(&blocked);
    let ghost stand = stands.last();
    assert(stands.len() == phases.len() + 1) by {
        reveal(is_schedule);
    }
    let ghost flow0 = Flow { realized: real0, targets: free, total: total0 as int };
    proof {
        let v = w as int;
        assert forall|x: usize| is_owed(*aig, seeds, waves@, v, stand, x) <==> #[trigger] open1.contains(x) by {}
        assert forall|x: usize| is_deferred(*aig, seeds, waves@, v, stand, x) <==> #[trigger] blk.contains(x) by {
            assert(is_owed(*aig, seeds, waves@, v, stand, x) <==> open1.contains(x));
        }
        assert forall|x: usize| is_deferred_leaf(*aig, seeds, waves@, v, stand, x) <==> #[trigger] set_items(
            leaves,
        ).contains(x) && !pend.contains(x) by {
            if in_cone(*aig, done, blk, x) {
                let t = choose|t: usize| #[trigger] blk.contains(t) && aig.reaches(done, t, x);
                assert(is_deferred(*aig, seeds, waves@, v, stand, t));
            }
            if is_deferred_leaf(*aig, seeds, waves@, v, stand, x) {
                let t = choose|t: usize| #[trigger]
                    is_deferred(*aig, seeds, waves@, v, stand, t) && aig.reaches(done, t, x);
                assert(blk.contains(t));
            }
        }
        assert forall|x: usize| #[trigger] free.contains(x) <==> is_owed(*aig, seeds, waves@, v, stand, x)
            && !is_deferred(*aig, seeds, waves@, v, stand, x) by {
            assert(is_owed(*aig, seeds, waves@, v, stand, x) <==> open1.contains(x));
            assert(is_deferred(*aig, seeds, waves@, v, stand, x) <==> blk.contains(x));
        }
        assert(is_ready(*aig, seeds, waves@, v, stand, lv, flow0)) by {
            assert forall|x: usize| #[trigger] lv.contains(x) <==> is_needed(*aig, seeds, waves@, v, x)
                || is_deferred_leaf(*aig, seeds, waves@, v, stand, x) by {
                assert(is_deferred_leaf(*aig, seeds, waves@, v, stand, x) <==> set_items(leaves).contains(x)
                    && !pend.contains(x));
            }
        }
    }
    let ghost easy = shallow_set(*aig, seeds, pins) && all_in(open0, pins) && all_in(keep0, pins) && pins.len()
        <= BOOMERANG_MAX_WRITEOUTS && total0 + pins.len() <= BOOMERANG_MAX_WRITEOUTS - reserved && (forall|x: usize|
     #[trigger]
        set_items(*req).contains(x) ==> keep0.contains(x) && !waits(*aig, done, pend, x));
    proof {
        if easy {
            lemma_shallow_fits(*aig, seeds, pins, real0, free);
            lemma_shallow_fits(*aig, seeds, pins, real0, blk);
            assert forall|x: usize| #[trigger] set_items(*req).contains(x) && !done.contains(x) implies free.contains(x)
                && (is_leaf(*aig, done, x) || is_base_gate(*aig, done, x)) by {
                assert(open1.contains(x));
                assert(!blk.contains(x));
                assert(pins.contains(x));
            }
            assert(one_stage_realizes(*aig, done, free, set_items(*req), total0 as int, reserved as int));
        }
    }
    let r = run_boomerang_stages_until_realized(
        aig,
        open,
        Some(req),
        &live,
        realized,
        stages,
        total,
        reserved,
        Ghost(seeds),
    );
    let ghost open2 = set_items(*open);
    let ghost real2 = set_items(*realized);
    let ghost mut done_flows = Seq::<Flow>::empty();
    proof {
        if r is None {
            let flows = choose|flows: Seq<Flow>| #[trigger]
                ran(
                    *aig,
                    reserved as int,
                    pins_of(Some(req)),
                    lv,
                    flows,
                    stages@.skip(stages0.len() as int),
                    Flow { realized: real0, targets: free, total: total0 as int },
                    flow_of(*realized, *open, *total),
                ) && has_halted(*aig, pins_of(Some(req)), flows, reserved as int);
            assert(pins_of(Some(req)) == Some(set_items(*req)));
            assert(halts_at(
                *aig,
                seeds,
                goal,
                reserved as int,
                waves@,
                phases,
                stages0,
                stands,
                pins_of(Some(req)),
                lv,
                flows,
                stages@.skip(stages0.len() as int),
            ));
        } else {
            let flows = choose|flows: Seq<Flow>| #[trigger]
                ran(
                    *aig,
                    reserved as int,
                    pins_of(Some(req)),
                    lv,
                    flows,
                    stages@.skip(stages0.len() as int),
                    Flow { realized: real0, targets: free, total: total0 as int },
                    flow_of(*realized, *open, *total),
                ) && is_done(pins_of(Some(req)), flows.last());
            assert(pins_of(Some(req)) == Some(set_items(*req)));
            done_flows = flows;
            assert(is_phase_run(
                *aig,
                reserved as int,
                seeds,
                waves@,
                w as int,
                stand,
                set_items(*req),
                lv,
                flows,
                stages@.skip(stages0.len() as int),
            ));
        }
    }
    add_unless(open, &blocked, realized);
    proof {
        if r is Some {
            let open3 = set_items(*open);
            assert forall|x: usize| #[trigger] open3.contains(x) <==> done_flows.last().targets.contains(x) || (
            is_deferred(*aig, seeds, waves@, w as int, stand, x) && !done_flows.last().realized.contains(x)) by {
                assert(is_deferred(*aig, seeds, waves@, w as int, stand, x) <==> blk.contains(x));
            }
            assert(is_back(*aig, seeds, waves@, w as int, stand, done_flows.last(), open3));
        }
        let need = set_items(*req);
        if easy {
            let open3 = set_items(*open);
            assert forall|x: usize| #[trigger] open3.contains(x) implies pins.contains(x) by {
                if open2.contains(x) {
                    if !free.contains(x) {
                        assert(lv.contains(x));
                        if !keep0.contains(x) {
                            assert(set_items(leaves).contains(x));
                            assert(in_cone(*aig, done, blk, x));
                        }
                    } else {
                        assert(open1.contains(x));
                    }
                } else {
                    assert(blk.contains(x));
                    assert(open1.contains(x));
                }
            }
        }
        assert(need == set_items(*Some(req).unwrap()));
        assert forall|ready: Seq<usize>| #[trigger]
            are_ready(*aig, real0, pend, open0, keep0, ready) && one_stage_realizes(
                *aig,
                done,
                ready,
                need,
                total0 as int,
                reserved as int,
            ) implies r is Some && stages@.len() <= stages0.len() + 1 by {
            assert forall|x: usize| #[trigger] ready.contains(x) <==> free.contains(x) by {
                assert(open1.contains(x) <==> open0.contains(x) || (keep0.contains(x) && !real0.contains(x)));
                assert(blk.contains(x) <==> open1.contains(x) && waits(*aig, done, pend, x));
            }
            lemma_realizes_in_any_order(*aig, done, ready, free, need, total0 as int, reserved as int);
        }
        if forall|x: usize| #[trigger] need.contains(x) ==> real0.contains(x) {
            let open3 = set_items(*open);
            assert forall|x: usize| #[trigger] open3.contains(x) <==> open0.contains(x) || (keep0.contains(x)
                && !real0.contains(x)) by {
                assert(open1.contains(x) <==> open0.contains(x) || (keep0.contains(x) && !real0.contains(x)));
                if blk.contains(x) && real0.contains(x) {
                    lemma_realized_does_not_wait(*aig, done, pend, x);
                }
            }
        }
        if r is Some {
            let open3 = set_items(*open);
            assert forall|x: usize| #[trigger] set_items(*req).contains(x) implies real2.contains(x) by {
                assert(set_items(*Some(req).unwrap()).contains(x));
            }
            assert forall|b: usize| #[trigger] blk.contains(b) implies !real2.contains(b) by {
                lemma_blocked_stays(*aig, done, pend, open1, free, real2, real0, b);
            }
            assert forall|t: usize| #[trigger] goal.contains(t) implies accounted(stages@, open3, pend, t) by {
                assert(accounted(stages0, open0, pend, t));
                if open0.contains(t) {
                    assert(open1.contains(t));
                    if blk.contains(t) {
                        assert(open3.contains(t));
                    } else {
                        assert(free.contains(t));
                        assert(settled_since(stages@, open2, t));
                        if open2.contains(t) {
                            assert(open3.contains(t));
                        }
                    }
                } else if !pend.contains(t) {
                    let k = choose|k: int| 0 <= k < stages0.len() && (#[trigger] stages0[k]).writes(t);
                    assert(stages@[k].writes(t));
                }
            }
            assert forall|q: usize| #[trigger] pend.contains(q) implies !open3.contains(q) by {
                if open3.contains(q) {
                    if open2.contains(q) {
                        if free.contains(q) {
                            assert(open1.contains(q));
                        } else {
                            assert(lv.contains(q));
                            if keep0.contains(q) {
                                assert(seeds.contains(q));
                            }
                        }
                    } else {
                        assert(blk.contains(q));
                        assert(open1.contains(q));
                    }
                }
            }
            lemma_untouched_after(*aig, seeds, stages0, real0, stages@, real2, pend, free, lv, *total);
            assert forall|x: usize| #[trigger]
                keep0.contains(x) && addressable(open0, real0, stages0, x) implies addressable(
                open3,
                real2,
                stages@,
                x,
            ) by {
                assert(lv.contains(x));
                if real0.contains(x) {
                    assert(open1.contains(x));
                    lemma_realized_does_not_wait(*aig, done, pend, x);
                    assert(!blk.contains(x));
                    assert(free.contains(x));
                }
                assert(addressable(free, real0, stages0, x));
                assert(addressable(open2, real2, stages@, x));
                if real2.contains(x) {
                    assert(open3.contains(x));
                }
            }
            assert forall|i: int| 0 <= i < open3.len() implies #[trigger] open3[i] <= aig.num_aigpins by {
                let x = open3[i];
                assert(open3.contains(x));
                if open2.contains(x) {
                    assert(open2[open2.index_of(x)] <= aig.num_aigpins);
                } else {
                    assert(blk[blk.index_of(x)] <= aig.num_aigpins);
                }
            }
        }
    }
    r
}

/// The phase for the given macros.
fn make_phase(aig: &AIG, wave: &Vec<usize>, after_stage: usize) -> (phase: MacroStage)
    requires
        aig.macros_wf(),
        wave_ok(*aig, wave@),
    ensures
        phase.after_stage == after_stage,
        phase.lanes@.len() == wave@.len(),
        forall|l: int|
            0 <= l < wave@.len() ==> (#[trigger] phase.lanes@[l]).macro_i == wave@[l] && phase.lanes@[l].chain_start
                == spec_chain_start(*aig, wave@, l),
{
    let mut lanes: Vec<MacroLane> = Vec::new();
    let mut l: usize = 0;
    while l < wave.len()
        invariant
            aig.macros_wf(),
            wave_ok(*aig, wave@),
            l <= wave@.len(),
            lanes@.len() == l,
            forall|k: int|
                0 <= k < l ==> (#[trigger] lanes@[k]).macro_i == wave@[k] && lanes@[k].chain_start == spec_chain_start(
                    *aig,
                    wave@,
                    k,
                ),
        decreases wave@.len() - l,
    {
        lanes.push(MacroLane { macro_i: wave[l], chain_start: is_chain_start(aig, wave, l) });
        l += 1;
    }
    MacroStage { after_stage, lanes }
}

/// Once a phase has run, its outputs are there: those that are targets are
/// opened.
fn finish_phase(
    aig: &AIG,
    waves: &Vec<Vec<usize>>,
    w: usize,
    endpoint_targets: &IndexSet<usize>,
    open: &mut IndexSet<usize>,
    pending: &mut IndexSet<usize>,
    Ghost(seeds): Ghost<Set<usize>>,
    Ghost(stages): Ghost<Seq<BoomerangStage>>,
    Ghost(realized): Ghost<Seq<usize>>,
    Ghost(total): Ghost<usize>,
)
    requires
        aig.macros_wf(),
        outputs_ok(*aig),
        lanes_in_range(*aig, waves@),
        w < waves@.len(),
        are_pins(*aig, set_items(*endpoint_targets)),
        on_track(
            *aig,
            seeds,
            set_items(*endpoint_targets),
            waves@,
            w as int,
            stages,
            realized,
            total,
            set_items(*old(open)),
            set_items(*old(pending)),
        ),
        untouched(*aig, seeds, stages, realized, set_items(*old(pending))),
        all_pending(*aig, waves@, w as int, set_items(*old(pending))),
        forall|a: int, x: int, b: int, y: int| #[trigger] same_lane(waves@, a, x, b, y),
    ensures
        on_track(
            *aig,
            seeds,
            set_items(*endpoint_targets),
            waves@,
            w + 1,
            stages,
            realized,
            total,
            set_items(*final(open)),
            set_items(*final(pending)),
        ),
        forall|t: usize| #[trigger]
            set_items(*final(open)).contains(t) <==> set_items(*old(open)).contains(t) || (set_items(
                *endpoint_targets,
            ).contains(t) && output_between(*aig, waves@, w as int, w + 1, t)),
        forall|q: usize| #[trigger]
            set_items(*final(pending)).contains(q) <==> set_items(*old(pending)).contains(q) && !output_between(
                *aig,
                waves@,
                w as int,
                w + 1,
                q,
            ),
        untouched(*aig, seeds, stages, realized, set_items(*final(pending))),
        all_pending(*aig, waves@, w + 1, set_items(*final(pending))),
{
    let ghost goal = set_items(*endpoint_targets);
    let ghost first = set_items(*open);
    let ghost p_first = set_items(*pending);
    proof {
        reveal(all_pending);
        assert forall|q: usize| #[trigger] output_between(*aig, waves@, w + 1, waves@.len() as int, q)
            implies set_items(
            *pending,
        ).contains(q) by {
            assert(output_between(*aig, waves@, w as int, waves@.len() as int, q));
        }
    }
    let n = waves[w].len();
    let mut x: usize = 0;
    while x < n
        invariant
            aig.macros_wf(),
            outputs_ok(*aig),
            lanes_in_range(*aig, waves@),
            forall|a: int, x: int, b: int, y: int| #[trigger] same_lane(waves@, a, x, b, y),
            w < waves@.len(),
            n == waves@[w as int]@.len(),
            x <= n,
            goal == set_items(*endpoint_targets),
            are_pins(*aig, goal),
            first == set_items(*old(open)),
            p_first == set_items(*old(pending)),
            forall|q: usize| #[trigger] set_items(*pending).contains(q) ==> p_first.contains(q),
            forall|q: usize| #[trigger]
                output_between(*aig, waves@, w + 1, waves@.len() as int, q) ==> set_items(*pending).contains(q),
            forall|t: usize| #[trigger] first.contains(t) ==> set_items(*open).contains(t),
            forall|t: usize| #[trigger]
                set_items(*open).contains(t) ==> first.contains(t) || (goal.contains(t) && output_between(
                    *aig,
                    waves@,
                    w as int,
                    w + 1,
                    t,
                )),
            forall|q: usize| #[trigger]
                p_first.contains(q) && !output_between(*aig, waves@, w as int, w + 1, q) ==> set_items(
                    *pending,
                ).contains(q),
            forall|y: int, v: usize|
                0 <= y < x && #[trigger] mac(*aig, waves@[w as int]@[y]).mid_outputs().contains(v) && goal.contains(v)
                    ==> set_items(*open).contains(v),
            on_track(
                *aig,
                seeds,
                goal,
                waves@,
                w as int,
                stages,
                realized,
                total,
                set_items(*open),
                set_items(*pending),
            ),
            forall|y: int, v: usize|
                0 <= y < x && #[trigger] mac(*aig, waves@[w as int]@[y]).mid_outputs().contains(v)
                    ==> !set_items(*pending).contains(v),
        decreases n - x,
    {
        assert(is_lane(waves@, w as int, x as int));
        let macro_i = waves[w][x];
        assert(mac(*aig, macro_i).wf());
        let pins = aig.macros.value(macro_i).mid_partition_outputs();
        let mut k: usize = 0;
        while k < pins.len()
            invariant
                k <= pins@.len(),
                aig.macros_wf(),
                outputs_ok(*aig),
                lanes_in_range(*aig, waves@),
                is_lane(waves@, w as int, x as int),
                pins@ == mac(*aig, waves@[w as int]@[x as int]).mid_outputs(),
                forall|a: int, x: int, b: int, y: int| #[trigger] same_lane(waves@, a, x, b, y),
                goal == set_items(*endpoint_targets),
                are_pins(*aig, goal),
                first == set_items(*old(open)),
                p_first == set_items(*old(pending)),
                forall|q: usize| #[trigger] set_items(*pending).contains(q) ==> p_first.contains(q),
                forall|q: usize| #[trigger]
                    output_between(*aig, waves@, w + 1, waves@.len() as int, q) ==> set_items(*pending).contains(q),
                forall|t: usize| #[trigger] first.contains(t) ==> set_items(*open).contains(t),
                forall|t: usize| #[trigger]
                    set_items(*open).contains(t) ==> first.contains(t) || (goal.contains(t) && output_between(
                        *aig,
                        waves@,
                        w as int,
                        w + 1,
                        t,
                    )),
                forall|q: usize| #[trigger]
                    p_first.contains(q) && !output_between(*aig, waves@, w as int, w + 1, q) ==> set_items(
                        *pending,
                    ).contains(q),
                forall|y: int, v: usize|
                    0 <= y < x && #[trigger] mac(*aig, waves@[w as int]@[y]).mid_outputs().contains(v)
                        && goal.contains(v) ==> set_items(*open).contains(v),
                forall|j: int| 0 <= j < k && goal.contains(#[trigger] pins@[j]) ==> set_items(*open).contains(pins@[j]),
                on_track(
                    *aig,
                    seeds,
                    goal,
                    waves@,
                    w as int,
                    stages,
                    realized,
                    total,
                    set_items(*open),
                    set_items(*pending),
                ),
                forall|y: int, v: usize|
                    0 <= y < x && #[trigger] mac(*aig, waves@[w as int]@[y]).mid_outputs().contains(v)
                        ==> !set_items(*pending).contains(v),
                forall|j: int| 0 <= j < k ==> !set_items(*pending).contains(#[trigger] pins@[j]),
            decreases pins@.len() - k,
        {
            let pin = pins[k];
            let ghost p0 = set_items(*pending);
            let ghost o0 = set_items(*open);
            let _ = set_len(pending);
            let found = set_swap_remove(pending, pin);
            if set_contains(endpoint_targets, pin) {
                set_add(open, pin);
            }
            proof {
                let p1 = set_items(*pending);
                let o1 = set_items(*open);
                if found {
                    let j = choose|j: int|
                        0 <= j < p0.len() && #[trigger] p0[j] == pin && p1 == crate::collections::swap_out(p0, j);
                    crate::collections::lemma_swap_out(p0, j);
                }
                assert forall|v: usize| #[trigger] p1.contains(v) <==> p0.contains(v) && v != pin by {}
                assert(pins@.contains(pins@[k as int]));
                assert(output_between(*aig, waves@, w as int, w + 1, pin));
                assert forall|q: usize| #[trigger]
                    output_between(*aig, waves@, w + 1, waves@.len() as int, q) implies p1.contains(q) by {
                    let (a, y) = choose|a: int, y: int|
                        #![trigger is_lane(waves@, a, y)]
                        w + 1 <= a < waves@.len() && is_lane(waves@, a, y) && mac(
                            *aig,
                            waves@[a]@[y],
                        ).mid_outputs().contains(q);
                    if q == pin {
                        let here = waves@[w as int]@[x as int];
                        assert(here < aig.macros.vals().len());
                        assert(pins@.contains(pins@[k as int]));
                        lemma_mid_producer(*aig, here, q);
                        lemma_mid_producer(*aig, waves@[a]@[y], q);
                        assert(same_lane(waves@, w as int, x as int, a, y));
                    }
                }
                assert forall|t: usize| #[trigger] goal.contains(t) implies accounted(stages, o1, p1, t) by {
                    assert(accounted(stages, o0, p0, t));
                    if t == pin {
                        assert(o1.contains(t));
                    } else if o0.contains(t) {
                        assert(o1.contains(t));
                    }
                }
                assert forall|i: int| 0 <= i < o1.len() implies #[trigger] o1[i] <= aig.num_aigpins by {
                    let v = o1[i];
                    assert(o1.contains(v));
                    if o0.contains(v) {
                        assert(o0[o0.index_of(v)] <= aig.num_aigpins);
                    } else {
                        assert(goal[goal.index_of(pin)] <= aig.num_aigpins);
                    }
                }
                assert forall|q: usize| #[trigger] p1.contains(q) implies !o1.contains(q) by {
                    assert(p0.contains(q));
                }
            }
            k += 1;
        }
        proof {
            assert forall|y: int, v: usize|
                0 <= y < x + 1 && #[trigger] mac(*aig, waves@[w as int]@[y]).mid_outputs().contains(v)
                    implies !set_items(
            *pending).contains(v) by {
                if y == x {
                    assert(pins@[pins@.index_of(v)] == v);
                }
            }
            assert forall|y: int, v: usize|
                0 <= y < x + 1 && #[trigger] mac(*aig, waves@[w as int]@[y]).mid_outputs().contains(v) && goal.contains(
                    v,
                ) implies set_items(*open).contains(v) by {
                if y == x {
                    assert(pins@[pins@.index_of(v)] == v);
                }
            }
        }
        x += 1;
    }
    proof {
        assert forall|q: usize| #[trigger] output_between(*aig, waves@, w as int, w + 1, q) implies !set_items(
            *pending,
        ).contains(q) && (goal.contains(q) ==> set_items(*open).contains(q)) by {
            let (a, y) = choose|a: int, y: int|
                #![trigger is_lane(waves@, a, y)]
                w <= a < w + 1 && is_lane(waves@, a, y) && mac(*aig, waves@[a]@[y]).mid_outputs().contains(q);
            assert(mac(*aig, waves@[w as int]@[y]).mid_outputs().contains(q));
        }
        let p = set_items(*pending);
        reveal(all_pending);
        lemma_untouched_less(*aig, seeds, stages, realized, p_first, p);
        assert forall|q: usize| #[trigger] p.contains(q) implies seeds.contains(q) && output_between(
            *aig,
            waves@,
            w + 1,
            waves@.len() as int,
            q,
        ) by {
            assert(output_between(*aig, waves@, w as int, waves@.len() as int, q));
            let (a, y) = choose|a: int, y: int|
                #![trigger is_lane(waves@, a, y)]
                w <= a < waves@.len() && is_lane(waves@, a, y) && mac(*aig, waves@[a]@[y]).mid_outputs().contains(q);
            if a == w {
                assert(mac(*aig, waves@[w as int]@[y]).mid_outputs().contains(q));
            }
            assert(is_lane(waves@, a, y));
        }
    }
}

/// The pins that endpoint groups read are pins.
pub(crate) proof fn lemma_endpoint_pins(aig: AIG, staged: StagedAIG, endpoints: Seq<usize>)
    requires
        endpoints_readable(aig),
        staged.wf(aig),
        are_groups(staged, endpoints),
    ensures
        are_pins(aig, endpoint_pins(aig, staged, endpoints)),
    decreases endpoints.len(),
{
    if endpoints.len() > 0 {
        let init = endpoints.drop_last();
        assert(are_groups(staged, init)) by {
            assert forall|i: int| 0 <= i < init.len() implies #[trigger] init[i] < staged.group_count() by {
                assert(endpoints[i] < staged.group_count());
            }
        }
        lemma_endpoint_pins(aig, staged, init);
        assert(endpoints[endpoints.len() - 1] < staged.group_count());
        lemma_group_pins(aig, staged, endpoints.last() as int);
        let a = endpoint_pins(aig, staged, init);
        let b = staged.group(&aig, endpoints.last() as int).input_pins();
        assert forall|i: int| 0 <= i < (a + b).len() implies #[trigger] (a + b)[i] <= aig.num_aigpins by {
            if i < a.len() {
                assert(a[i] <= aig.num_aigpins);
            } else {
                assert(b[i - a.len()] <= aig.num_aigpins);
            }
        }
    }
}

/// What a partition has to write out are pins.
pub(crate) proof fn lemma_targets_are_pins(aig: AIG, staged: StagedAIG, endpoints: Seq<usize>)
    requires
        endpoints_readable(aig),
        staged.wf(aig),
        are_groups(staged, endpoints),
    ensures
        are_pins(aig, partition_targets(aig, staged, endpoints)),
{
    lemma_endpoint_pins(aig, staged, endpoints);
    let all = endpoint_pins(aig, staged, endpoints);
    let t = partition_targets(aig, staged, endpoints);
    law_first_occurrences(all);
    assert forall|i: int| 0 <= i < t.len() implies #[trigger] t[i] <= aig.num_aigpins by {
        assert(t.contains(t[i]));
        assert(all.contains(t[i]));
        assert(all[all.index_of(t[i])] <= aig.num_aigpins);
    }
}

/// A phase stays right when stages come behind it.
proof fn lemma_phase_stays(
    aig: AIG,
    seeds: Set<usize>,
    before: Seq<BoomerangStage>,
    after: Seq<BoomerangStage>,
    wave: Seq<usize>,
    phase: MacroStage,
)
    requires
        phase_ok(aig, seeds, before, wave, phase),
        before.is_prefix_of(after),
    ensures
        phase_ok(aig, seeds, after, wave, phase),
{
    assert(after.take(phase.after_stage as int) =~= before.take(phase.after_stage as int));
}

/// Are the first phases right?
spec fn phases_ok(
    aig: AIG,
    seeds: Set<usize>,
    stages: Seq<BoomerangStage>,
    waves: Seq<Vec<usize>>,
    phases: Seq<MacroStage>,
) -> bool {
    &&& phases.len() <= waves.len()
    &&& forall|w: int|
        0 <= w < phases.len() ==> phase_ok(aig, seeds, stages, waves[w]@, #[trigger] phases[w])
    &&& forall|w: int, v: int|
        0 <= w < v < phases.len() ==> (#[trigger] phases[w]).after_stage <= (#[trigger] phases[v]).after_stage
}

proof fn lemma_phases_stay(
    aig: AIG,
    seeds: Set<usize>,
    before: Seq<BoomerangStage>,
    after: Seq<BoomerangStage>,
    waves: Seq<Vec<usize>>,
    phases: Seq<MacroStage>,
)
    requires
        phases_ok(aig, seeds, before, waves, phases),
        before.is_prefix_of(after),
    ensures
        phases_ok(aig, seeds, after, waves, phases),
{
    assert forall|w: int| 0 <= w < phases.len() implies phase_ok(
        aig,
        seeds,
        after,
        waves[w]@,
        #[trigger] phases[w],
    ) by {
        lemma_phase_stays(aig, seeds, before, after, waves[w]@, phases[w]);
    }
}

/// The sets of pins that the phases gather beyond what is seeded.
spec fn reqs_ok(aig: AIG, seeds: Set<usize>, waves: Seq<Vec<usize>>, reqs: Seq<IndexSet<usize>>) -> bool {
    forall|w: int|
        0 <= w < reqs.len() ==> are_pins(aig, set_items(#[trigger] reqs[w])) && forall|pin: usize| #[trigger]
            set_items(reqs[w]).contains(pin) <==> gathers(aig, waves[w]@, pin) && !seeds.contains(pin)
}

/// The pins that the phases gather beyond what is realized, all of which are
/// opened as targets.
fn open_wave_inputs(
    aig: &AIG,
    waves: &Vec<Vec<usize>>,
    realized: &IndexSet<usize>,
    open: &mut IndexSet<usize>,
) -> (reqs: Vec<IndexSet<usize>>)
    requires
        aig.macros_wf(),
        macro_inputs_ok(*aig),
        lanes_in_range(*aig, waves@),
        are_pins(*aig, set_items(*old(open))),
    ensures
        reqs@.len() == waves@.len(),
        reqs_ok(*aig, set_items(*realized).to_set(), waves@, reqs@),
        are_pins(*aig, set_items(*final(open))),
        set_items(*old(open)).is_prefix_of(set_items(*final(open))),
        forall|x: usize| #[trigger]
            set_items(*final(open)).contains(x) <==> set_items(*old(open)).contains(x) || (!set_items(
                *realized,
            ).contains(x) && exists|w: int| 0 <= w < waves@.len() && gathers(*aig, (#[trigger] waves@[w])@, x)),
        waves@.len() == 0 ==> set_items(*final(open)) == set_items(*old(open)),
{
    let ghost done = set_items(*realized).to_set();
    let ghost open0 = set_items(*open);
    let none = set_new();
    let mut reqs: Vec<IndexSet<usize>> = Vec::new();
    let mut w: usize = 0;
    while w < waves.len()
        invariant
            aig.macros_wf(),
            macro_inputs_ok(*aig),
            lanes_in_range(*aig, waves@),
            set_items(none) == Seq::<usize>::empty(),
            done == set_items(*realized).to_set(),
            w <= waves@.len(),
            reqs@.len() == w,
            reqs_ok(*aig, done, waves@, reqs@),
            are_pins(*aig, set_items(*open)),
            open0.is_prefix_of(set_items(*open)),
            forall|x: usize| #[trigger]
                set_items(*open).contains(x) ==> open0.contains(x) || (!set_items(*realized).contains(x)
                    && exists|v: int| 0 <= v < waves@.len() && gathers(*aig, (#[trigger] waves@[v])@, x)),
            forall|v: int, x: usize|
                0 <= v < w && #[trigger] set_items(reqs@[v]).contains(x) ==> set_items(*open).contains(x),
            w == 0 ==> set_items(*open) == open0,
        decreases waves@.len() - w,
    {
        proof {
            assert forall|i: int| 0 <= i < waves@[w as int]@.len() implies #[trigger] waves@[w as int]@[i]
                < aig.macros.vals().len() by {
                assert(is_lane(waves@, w as int, i));
            }
        }
        let req = wave_inputs(aig, &waves[w], realized);
        let ghost o1 = set_items(*open);
        let ghost rq = set_items(req);
        add_unless(open, &req, &none);
        proof {
            assert forall|x: usize| #[trigger] rq.contains(x) implies exists|v: int|
                0 <= v < waves@.len() && gathers(*aig, (#[trigger] waves@[v])@, x) by {
                assert(gathers(*aig, waves@[w as int]@, x));
            }
            let o2 = set_items(*open);
            assert forall|i: int| 0 <= i < o2.len() implies #[trigger] o2[i] <= aig.num_aigpins by {
                assert(o2.contains(o2[i]));
                if o1.contains(o2[i]) {
                    assert(o1[o1.index_of(o2[i])] <= aig.num_aigpins);
                } else {
                    assert(rq[rq.index_of(o2[i])] <= aig.num_aigpins);
                }
            }
        }
        let ghost reqs0 = reqs@;
        reqs.push(req);
        proof {
            assert forall|v: int, x: usize| 0 <= v < w + 1 && #[trigger] set_items(reqs@[v]).contains(x)
                implies set_items(*open).contains(x) by {
                if v < w {
                    assert(reqs@[v] == reqs0[v]);
                    assert(o1.contains(x));
                }
            }
        }
        w += 1;
    }
    proof {
        assert forall|x: usize|
            open0.contains(x) || (!set_items(*realized).contains(x) && exists|w: int|
                0 <= w < waves@.len() && gathers(*aig, (#[trigger] waves@[w])@, x)) implies #[trigger] set_items(
            *open,
        ).contains(x) by {
            if open0.contains(x) {
                assert(set_items(*open)[open0.index_of(x)] == x);
            } else {
                let v = choose|v: int| 0 <= v < waves@.len() && gathers(*aig, (#[trigger] waves@[v])@, x);
                assert(set_items(reqs@[v]).contains(x));
            }
        }
    }
    reqs
}

/// Before all stages nothing is touched.
proof fn lemma_untouched_first(
    aig: AIG,
    seeds: Set<usize>,
    stages: Seq<BoomerangStage>,
    realized: Seq<usize>,
    pending: Seq<usize>,
)
    requires
        stages.len() == 0,
        seeds == realized.to_set(),
    ensures
        untouched(aig, seeds, stages, realized, pending),
{
    reveal(untouched);
    assert forall|v: usize| #[trigger] realized.contains(v) && !pending.contains(v) implies !waits(
        aig,
        seeds,
        pending,
        v,
    ) by {
        if waits(aig, seeds, pending, v) {
            let q = choose|q: usize| #[trigger] pending.contains(q) && aig.reaches(seeds, v, q);
            let s = choose|s: Seq<usize>| #[trigger] aig.is_walk(seeds, s) && s[0] == v && s.last() == q;
            if s.len() > 1 {
                assert(aig.is_step(seeds, s, 0));
            }
        }
    }
}

/// Is everything that the phases gather in the set?
spec fn gathers_in(aig: AIG, waves: Seq<Vec<usize>>, pins: Set<usize>) -> bool {
    forall|w: int, pin: usize|
        0 <= w < waves.len() && #[trigger] gathers(aig, waves[w]@, pin) ==> pins.contains(pin)
}

/// Does nothing that a phase gathers depend on outputs of that phase or of later
/// ones?
spec fn in_order(aig: AIG, seeds: Set<usize>, waves: Seq<Vec<usize>>) -> bool {
    forall|w: int, pin: usize, q: usize|
        #![trigger gathers(aig, waves[w]@, pin), output_between(aig, waves, w, waves.len() as int, q)]
        0 <= w < waves.len() && gathers(aig, waves[w]@, pin) && output_between(
            aig,
            waves,
            w,
            waves.len() as int,
            q,
        ) ==> !aig.reaches(seeds, pin, q)
}

/// There is room for a further stage.
proof fn lemma_room(n: nat, w: nat, p: nat)
    requires
        w < n,
    ensures
        w * p + p <= (n + 1) * p,
        p <= (n + 1) * p,
{
    assert(w * p + p <= (n + 1) * p) by (nonlinear_arith)
        requires
            w < n,
    ;
    assert(p <= (n + 1) * p) by (nonlinear_arith);
}

/// What is pending is not read by the stages so far.
proof fn lemma_unread(
    aig: AIG,
    seeds: Set<usize>,
    waves: Seq<Vec<usize>>,
    w: int,
    stages: Seq<BoomerangStage>,
    realized: Seq<usize>,
    pending: Seq<usize>,
)
    requires
        0 <= w < waves.len(),
        untouched(aig, seeds, stages, realized, pending),
        all_pending(aig, waves, w, pending),
    ensures
        unread(aig, seeds, stages, waves[w]@),
{
    reveal(untouched);
    reveal(all_pending);
    assert forall|k: int, v: usize, q: usize|
        0 <= k < stages.len() && #[trigger] stages[k].realizes(v) && #[trigger] is_wave_output(aig, waves[w]@, q)
            implies !aig.reaches(seeds, v, q) by {
        let l = choose|l: int| 0 <= l < waves[w]@.len() && mac(aig, #[trigger] waves[w]@[l]).mid_outputs().contains(q);
        assert(is_lane(waves, w, l));
        assert(output_between(aig, waves, w, waves.len() as int, q));
        assert(!waits(aig, seeds, pending, v));
    }
}

/// What phases gather are pins.
proof fn lemma_gathered_pin(aig: AIG, waves: Seq<Vec<usize>>, w: int, x: usize)
    requires
        aig.macros_wf(),
        macro_inputs_ok(aig),
        lanes_in_range(aig, waves),
        0 <= w < waves.len(),
        gathers(aig, waves[w]@, x),
    ensures
        x <= aig.num_aigpins,
{
    let (l, s) = choose|l: int, s: usize| #[trigger] gathers_at(aig, waves[w]@, l, s, x);
    assert(is_lane(waves, w, l));
    let p = waves[w]@[l];
    assert(mac(aig, p).wf());
    assert(mac(aig, p).inputs@[s as int] / 2 <= aig.num_aigpins);
}

/// Runs all phases with the stages that have to come before them.
fn run_phases(
    aig: &AIG,
    waves: &Vec<Vec<usize>>,
    reqs: &Vec<IndexSet<usize>>,
    endpoint_targets: &IndexSet<usize>,
    open: &mut IndexSet<usize>,
    pending: &mut IndexSet<usize>,
    realized: &mut IndexSet<usize>,
    stages: &mut Vec<BoomerangStage>,
    total: &mut usize,
    reserved: usize,
    Ghost(seeds): Ghost<Set<usize>>,
    Ghost(pins): Ghost<Set<usize>>,
) -> (r: Option<Vec<MacroStage>>)
    requires
        schedulable(*aig),
        lanes_in_range(*aig, waves@),
        reqs@.len() == waves@.len(),
        reqs_ok(*aig, seeds, waves@, reqs@),
        are_pins(*aig, set_items(*endpoint_targets)),
        reserved <= BOOMERANG_MAX_WRITEOUTS,
        *old(total) <= BOOMERANG_MAX_WRITEOUTS - reserved,
        old(stages)@.len() == 0,
        on_track(
            *aig,
            seeds,
            set_items(*endpoint_targets),
            waves@,
            0,
            old(stages)@,
            set_items(*old(realized)),
            *old(total),
            set_items(*old(open)),
            set_items(*old(pending)),
        ),
        untouched(*aig, seeds, old(stages)@, set_items(*old(realized)), set_items(*old(pending))),
        all_pending(*aig, waves@, 0, set_items(*old(pending))),
        forall|a: int, x: int, b: int, y: int| #[trigger] same_lane(waves@, a, x, b, y),
        is_start(
            *aig,
            seeds,
            set_items(*endpoint_targets),
            waves@,
            stand_of(*old(realized), *old(open), *old(pending), *old(total)),
        ),
    ensures
        r is None ==> halts(*aig, seeds, set_items(*endpoint_targets), reserved as int, waves@),
        r matches Some(phases) ==> on_track(
            *aig,
            seeds,
            set_items(*endpoint_targets),
            waves@,
            waves@.len() as int,
            final(stages)@,
            set_items(*final(realized)),
            *final(total),
            set_items(*final(open)),
            set_items(*final(pending)),
        ) && phases@.len() == waves@.len() && phases_ok(*aig, seeds, final(stages)@, waves@, phases@) && *final(total)
            <= BOOMERANG_MAX_WRITEOUTS - reserved && phase_start(phases@, phases@.len() as int) == final(stages)@.len(),
        r matches Some(phases) ==> comes_to(
            *aig,
            reserved as int,
            seeds,
            set_items(*endpoint_targets),
            waves@,
            phases@,
            final(stages)@,
            stand_of(*final(realized), *final(open), *final(pending), *final(total)),
        ),
        waves@.len() == 0 ==> r is Some && *final(open) == *old(open) && *final(realized) == *old(realized)
            && final(stages)@ == old(stages)@ && *final(total) == *old(total),
        shallow_set(*aig, seeds, pins) && all_in(set_items(*old(open)), pins) && all_in(
            set_items(*endpoint_targets),
            pins,
        ) && gathers_in(*aig, waves@, pins) && in_order(*aig, seeds, waves@) && *old(total) == 0 && (waves@.len() + 1)
            * pins.len() <= BOOMERANG_MAX_WRITEOUTS - reserved ==> r is Some && all_in(set_items(*final(open)), pins)
            && *final(total) <= waves@.len() * pins.len(),
{
    let ghost goal = set_items(*endpoint_targets);
    let ghost easy = shallow_set(*aig, seeds, pins) && all_in(set_items(*open), pins) && all_in(goal, pins)
        && gathers_in(*aig, waves@, pins) && in_order(*aig, seeds, waves@) && *total == 0 && (waves@.len() + 1)
        * pins.len() <= BOOMERANG_MAX_WRITEOUTS - reserved;
    assert(0 * pins.len() == 0) by (nonlinear_arith);
    let mut phases: Vec<MacroStage> = Vec::new();
    let mut w: usize = 0;
    let ghost mut stands = seq![stand_of(*realized, *open, *pending, *total)];
    assert(is_schedule(*aig, reserved as int, seeds, goal, waves@, phases@, stages@, stands)) by {
        reveal(is_schedule);
    }
    proof {
        assert forall|v: int, x: usize|
            0 <= v < reqs@.len() && #[trigger] set_items(reqs@[v]).contains(x) implies addressable(
            set_items(*open),
            set_items(*realized),
            stages@,
            x,
        ) by {
            if set_items(*realized).contains(x) {
                assert(realized_in(stages@, x));
            }
        }
    }
    while w < waves.len()
        invariant
            schedulable(*aig),
            lanes_in_range(*aig, waves@),
            reqs@.len() == waves@.len(),
            reqs_ok(*aig, seeds, waves@, reqs@),
            goal == set_items(*endpoint_targets),
            are_pins(*aig, goal),
            reserved <= BOOMERANG_MAX_WRITEOUTS,
            *total <= BOOMERANG_MAX_WRITEOUTS - reserved,
            w <= waves@.len(),
            phases@.len() == w,
            phases_ok(*aig, seeds, stages@, waves@, phases@),
            is_schedule(*aig, reserved as int, seeds, goal, waves@, phases@, stages@, stands),
            stands.len() == w + 1,
            stands.last() == stand_of(*realized, *open, *pending, *total),
            forall|v: int| 0 <= v < stands.len() ==> are_pins(*aig, (#[trigger] stands[v]).open) && are_pins(
                *aig,
                stands[v].realized,
            ),
            phase_start(phases@, w as int) == stages@.len(),
            on_track(
                *aig,
                seeds,
                goal,
                waves@,
                w as int,
                stages@,
                set_items(*realized),
                *total,
                set_items(*open),
                set_items(*pending),
            ),
            easy == (shallow_set(*aig, seeds, pins) && all_in(set_items(*old(open)), pins) && all_in(goal, pins)
                && gathers_in(*aig, waves@, pins) && in_order(*aig, seeds, waves@) && *old(total) == 0 && (waves@.len()
                + 1) * pins.len() <= BOOMERANG_MAX_WRITEOUTS - reserved),
            easy ==> all_in(set_items(*open), pins) && *total <= w * pins.len(),
            untouched(*aig, seeds, stages@, set_items(*realized), set_items(*pending)),
            all_pending(*aig, waves@, w as int, set_items(*pending)),
            old(stages)@.len() == 0,
            forall|a: int, x: int, b: int, y: int| #[trigger] same_lane(waves@, a, x, b, y),
            w == 0 ==> *open == *old(open) && *realized == *old(realized) && stages@ == old(stages)@ && *total
                == *old(total),
            forall|v: int, x: usize|
                w <= v < reqs@.len() && #[trigger] set_items(reqs@[v]).contains(x) ==> addressable(
                    set_items(*open),
                    set_items(*realized),
                    stages@,
                    x,
                ),
        decreases waves@.len() - w,
    {
        let ghost stages0 = stages@;
        let ghost open0 = set_items(*open);
        let ghost real0 = set_items(*realized);
        let keep = union_from(reqs, w);
        proof {
            let kp = set_items(keep);
            assert forall|x: usize| #[trigger] kp.contains(x) implies !seeds.contains(x) && x <= aig.num_aigpins by {
                let k = choose|k: int| w <= k < reqs@.len() && set_items(#[trigger] reqs@[k]).contains(x);
                let s = set_items(reqs@[k]);
                assert(s[s.index_of(x)] <= aig.num_aigpins);
            }
            assert forall|i: int| 0 <= i < kp.len() implies #[trigger] kp[i] <= aig.num_aigpins by {
                assert(kp.contains(kp[i]));
            }
        }
        proof {
            assert forall|x: usize| #[trigger] set_items(keep).contains(x) <==> is_needed(
                *aig,
                seeds,
                waves@,
                w as int,
                x,
            ) by {
                if set_items(keep).contains(x) {
                    let k = choose|k: int| w <= k < reqs@.len() && set_items(#[trigger] reqs@[k]).contains(x);
                    assert(gathers(*aig, waves@[k]@, x));
                }
                if is_needed(*aig, seeds, waves@, w as int, x) {
                    let k = choose|k: int| w <= k < waves@.len() && gathers(*aig, (#[trigger] waves@[k])@, x);
                    assert(set_items(reqs@[k]).contains(x));
                }
            }
            if easy {
                lemma_room(waves@.len(), w as nat, pins.len());
                assert forall|x: usize| #[trigger] set_items(keep).contains(x) implies pins.contains(x) by {
                    let k = choose|k: int| w <= k < reqs@.len() && set_items(#[trigger] reqs@[k]).contains(x);
                    assert(gathers(*aig, waves@[k]@, x));
                }
                assert forall|x: usize| #[trigger] set_items(reqs@[w as int]).contains(x) implies set_items(
                    keep,
                ).contains(x) && !waits(*aig, real0.to_set(), set_items(*pending), x) by {
                    assert(gathers(*aig, waves@[w as int]@, x));
                    if waits(*aig, real0.to_set(), set_items(*pending), x) {
                        let q = choose|q: usize| #[trigger]
                            set_items(*pending).contains(q) && aig.reaches(real0.to_set(), x, q);
                        lemma_reach_more(*aig, real0.to_set(), seeds, x, q);
                        assert(output_between(*aig, waves@, w as int, waves@.len() as int, q));
                    }
                }
            }
        }
        if run_before_phase(
            aig,
            waves,
            w,
            &reqs[w],
            &keep,
            open,
            pending,
            realized,
            stages,
            total,
            reserved,
            Ghost(seeds),
            Ghost(goal),
            Ghost(pins),
            Ghost(phases@),
            Ghost(stands),
        ).is_none() {
            return None;
        }
        assert(wave_ok(*aig, waves@[w as int]@)) by {
            assert forall|i: int| 0 <= i < waves@[w as int]@.len() implies #[trigger] waves@[w as int]@[i]
                < aig.macros.vals().len() || waves@[w as int]@[i] == usize::MAX by {
                assert(is_lane(waves@, w as int, i));
            }
        }
        let phase = make_phase(aig, &waves[w], stages.len());
        proof {
            lemma_phases_stay(*aig, seeds, stages0, stages@, waves@, phases@);
            assert forall|v: int, x: usize|
                w <= v < reqs@.len() && #[trigger] set_items(reqs@[v]).contains(x) implies addressable(
                set_items(*open),
                set_items(*realized),
                stages@,
                x,
            ) by {
                assert(addressable(open0, real0, stages0, x));
                assert(set_items(keep).contains(x));
            }
            assert(stages@.take(stages@.len() as int) =~= stages@);
            lemma_unread(*aig, seeds, waves@, w as int, stages@, set_items(*realized), set_items(*pending));
            assert(phase_ok(*aig, seeds, stages@, waves@[w as int]@, phase)) by {
                assert forall|pin: usize| #[trigger] gathers(*aig, waves@[w as int]@, pin) implies seeds.contains(pin)
                    || last_holds(stages@.take(phase.after_stage as int), pin) by {
                    if !seeds.contains(pin) {
                        assert(set_items(reqs@[w as int]).contains(pin));
                        assert(set_items(*realized).contains(pin));
                        assert(addressable(set_items(*open), set_items(*realized), stages@, pin));
                    }
                }
            }
            assert forall|a: int, b: int|
                0 <= a < b < phases@.push(phase).len() implies (#[trigger] phases@.push(phase)[a]).after_stage <= (
            #[trigger] phases@.push(phase)[b]).after_stage by {
                if b < phases@.len() {
                    assert(phases@[a].after_stage <= phases@[b].after_stage);
                } else {
                    assert(phase_ok(*aig, seeds, stages@, waves@[a]@, phases@[a]));
                }
            }
        }
        let ghost phases0 = phases@;
        phases.push(phase);
        proof {
            assert forall|v: int| 0 <= v < phases0.len() implies (#[trigger] phases0[v]).after_stage
                <= stages0.len() by {
                assert(phases0[v].after_stage <= phase_start(phases0, w as int));
            }
            lemma_schedule_stays(*aig, reserved as int, seeds, goal, waves@, phases0, stages0, stages@, stands);
            assert forall|v: int| 0 <= v < phases@.len() implies phase_ok(
                *aig,
                seeds,
                stages@,
                waves@[v]@,
                #[trigger] phases@[v],
            ) by {
                if v < phases0.len() {
                    assert(phases@[v] == phases0[v]);
                }
            }
        }
        let ghost open1 = set_items(*open);
        let ghost pend1 = set_items(*pending);
        finish_phase(
            aig,
            waves,
            w,
            endpoint_targets,
            open,
            pending,
            Ghost(seeds),
            Ghost(stages@),
            Ghost(set_items(*realized)),
            Ghost(*total),
        );
        proof {
            assert forall|v: int, x: usize|
                w < v < reqs@.len() && #[trigger] set_items(reqs@[v]).contains(x) implies addressable(
                set_items(*open),
                set_items(*realized),
                stages@,
                x,
            ) by {
                assert(addressable(open1, set_items(*realized), stages@, x));
            }
            let next = stand_of(*realized, *open, *pending, *total);
            let part = stages@.skip(stages0.len() as int);
            let (live, flows) = choose|live: Seq<usize>, flows: Seq<Flow>| #[trigger]
                is_phase_run(
                    *aig,
                    reserved as int,
                    seeds,
                    waves@,
                    w as int,
                    stands.last(),
                    set_items(reqs@[w as int]),
                    live,
                    flows,
                    part,
                ) && flows.last().realized == set_items(*realized) && flows.last().total == *total && is_back(
                    *aig,
                    seeds,
                    waves@,
                    w as int,
                    stands.last(),
                    flows.last(),
                    open1,
                );
            assert(leads_to(*aig, seeds, goal, waves@, w as int, stands.last(), flows.last(), next)) by {
                assert(is_back(*aig, seeds, waves@, w as int, stands.last(), flows.last(), open1));
            }
            assert(stages@.subrange(stages0.len() as int, stages@.len() as int) =~= part);
            assert(is_turn_of(*aig, reserved as int, seeds, goal, waves@, w as int, stands.last(), next, part));
            lemma_schedule_on(*aig, reserved as int, seeds, goal, waves@, phases0, phase, stages@, stands, next);
            stands = stands.push(next);
            if easy {
                assert((w + 1) * pins.len() == w * pins.len() + pins.len()) by (nonlinear_arith);
                assert forall|x: usize| #[trigger] set_items(*open).contains(x) implies pins.contains(x) by {
                    assert(open1.contains(x) || goal.contains(x));
                }
            }
        }
        w += 1;
    }
    proof {
        assert forall|v: int, x: usize|
            0 <= v < waves@.len() && #[trigger] gathers(*aig, waves@[v]@, x) implies x <= aig.num_aigpins by {
            lemma_gathered_pin(*aig, waves@, v, x);
        }
        lemma_leaves_stay(*aig, reserved as int, seeds, goal, waves@, phases@, stages@, stands);
        assert(has_come_to(
            *aig,
            reserved as int,
            seeds,
            goal,
            waves@,
            phases@,
            stages@,
            stands,
            stand_of(*realized, *open, *pending, *total),
        ));
        assert(comes_to(
            *aig,
            reserved as int,
            seeds,
            goal,
            waves@,
            phases@,
            stages@,
            stand_of(*realized, *open, *pending, *total),
        ));
    }
    Some(phases)
}

/// Logic without macros needs no phases.
proof fn lemma_plain_no_waves(aig: AIG, staged: StagedAIG, endpoints: Seq<usize>, waves: Seq<Vec<usize>>)
    requires
        waves_ok(aig, given_pins(aig, staged), partition_targets(aig, staged, endpoints), waves),
        is_plain(aig, staged, endpoints),
    ensures
        waves.len() == 0,
{
    if waves.len() > 0 {
        assert(1 <= waves[0]@.len());
        assert(is_lane(waves, 0, 0));
        assert(in_macro_cone(
            aig,
            given_pins(aig, staged),
            partition_targets(aig, staged, endpoints),
            waves[0]@[0],
        ));
    }
}

/// What makes the phases of tame logic succeed.
proof fn lemma_tame(aig: AIG, staged: StagedAIG, endpoints: Seq<usize>, waves: Seq<Vec<usize>>)
    requires
        schedulable(aig),
        staged.wf(aig),
        are_groups(staged, endpoints),
        lanes_in_range(aig, waves),
        waves_ok(aig, given_pins(aig, staged), partition_targets(aig, staged, endpoints), waves),
        is_tame(aig, staged, endpoints),
    ensures
        ({
            let seeds = seeded(aig, staged, waves);
            let goal = partition_targets(aig, staged, endpoints);
            let pins = wanted_pins(aig, seeds, waves, goal);
            &&& shallow_set(aig, seeds, pins)
            &&& all_in(goal, pins)
            &&& gathers_in(aig, waves, pins)
            &&& in_order(aig, seeds, waves)
            &&& (waves.len() + 1) * pins.len() <= BOOMERANG_MAX_WRITEOUTS - reserved_write_outs(
                aig,
                staged,
                endpoints,
            )
        }),
{
    let given = given_pins(aig, staged);
    let seeds = seeded(aig, staged, waves);
    let goal = partition_targets(aig, staged, endpoints);
    let pins = wanted_pins(aig, seeds, waves, goal);
    assert(is_tame_with(aig, staged, endpoints, waves));
    lemma_targets_are_pins(aig, staged, endpoints);
    assert(pins.finite()) by {
        lemma_pins_finite(aig, pins);
    }
    assert forall|t: usize| #[trigger] is_wanted(aig, waves, goal, t) implies t <= aig.num_aigpins by {
        if goal.contains(t) {
            assert(goal[goal.index_of(t)] <= aig.num_aigpins);
        } else {
            let w = choose|w: int| 0 <= w < waves.len() && gathers(aig, (#[trigger] waves[w])@, t);
            let (l, s) = choose|l: int, s: usize| #[trigger] gathers_at(aig, waves[w]@, l, s, t);
            assert(is_lane(waves, w, l));
            assert(mac(aig, waves[w]@[l]).wf());
            assert(mac(aig, waves[w]@[l]).inputs@[s as int] / 2 <= aig.num_aigpins);
        }
    }
    assert forall|t: usize| #[trigger] is_wanted(aig, waves, goal, t) implies pins.contains(t) by {
        aig.lemma_reaches_self(seeds, t);
    }
    assert forall|u: usize, v: usize| pins.contains(u) && #[trigger] aig.reaches(seeds, u, v) implies pins.contains(
        v,
    ) by {
        let t = choose|t: usize| #[trigger] is_wanted(aig, waves, goal, t) && aig.reaches(seeds, t, u);
        aig.lemma_reaches_trans(seeds, t, u, v);
        aig.lemma_reaches_pins(seeds, t, v);
    }
    assert forall|x: usize| #[trigger] goal.contains(x) implies pins.contains(x) by {
        assert(is_wanted(aig, waves, goal, x));
    }
    assert forall|w: int, pin: usize| 0 <= w < waves.len() && #[trigger] gathers(aig, waves[w]@, pin)
        implies pins.contains(
        pin,
    ) by {
        assert(is_wanted(aig, waves, goal, pin));
    }
    assert forall|w: int, pin: usize, q: usize|
        #![trigger gathers(aig, waves[w]@, pin), output_between(aig, waves, w, waves.len() as int, q)]
        0 <= w < waves.len() && gathers(aig, waves[w]@, pin) && output_between(
            aig,
            waves,
            w,
            waves.len() as int,
            q,
        ) implies !aig.reaches(seeds, pin, q) by {
        if aig.reaches(seeds, pin, q) {
            let (a, y) = choose|a: int, y: int|
                #![trigger is_lane(waves, a, y)]
                w <= a < waves.len() && is_lane(waves, a, y) && mac(aig, waves[a]@[y]).mid_outputs().contains(q);
            let p = waves[a]@[y];
            let (l, s) = choose|l: int, s: usize| #[trigger] gathers_at(aig, waves[w]@, l, s, pin);
            lemma_reach_more(aig, seeds, given, pin, q);
            assert(reaches_output(aig, given, pin, p));
            assert(gathers_at(aig, waves[w]@, l, s, pin));
            assert(is_lane(waves, w, l));
            assert(slot_waits(aig, given, waves[w]@[l], s as int, p));
            assert(stands_before(waves, w, p));
            let (v, z) = choose|v: int, z: int| #[trigger] is_lane(waves, v, z) && v < w && waves[v]@[z] == p;
            assert(same_lane(waves, v, z, a, y));
        }
    }
}

/// A set of pins is finite.
pub(crate) proof fn lemma_pins_finite(aig: AIG, pins: Set<usize>)
    requires
        forall|v: usize| #[trigger] pins.contains(v) ==> v <= aig.num_aigpins,
    ensures
        pins.finite(),
{
    let n = aig.num_aigpins + 1;
    let all = vstd::set_lib::set_int_range(0, n);
    let some = all.map(|i: int| i as usize);
    vstd::set_lib::lemma_int_range(0, n);
    all.lemma_map_finite(|i: int| i as usize);
    assert forall|v: usize| pins.contains(v) implies some.contains(v) by {
        assert(all.contains(v as int));
        assert(v == (v as int) as usize);
    }
    vstd::set_lib::lemma_set_subset_finite(some, pins);
}

impl Partition {
    /// Builds one partition given a set of endpoints to realize.
    ///
    /// There is `None` if the resources are exceeded, if macros depend directly
    /// on each other in a cycle, or if the stages that are built one after the
    /// other halt: the next one does not fit, or would bring no progress.
    #[verifier::rlimit(50)]
    pub fn build_one(aig: &AIG, staged: &StagedAIG, endpoints: &Vec<usize>) -> (r: Option<Partition>)
        requires
            schedulable(*aig),
            staged.wf(*aig),
            are_groups(*staged, endpoints@),
            endpoints@.len() <= usize::MAX / 16,
        ensures
            r matches Some(p) ==> partition_ok(*aig, *staged, endpoints@, p),
            over_budget(*aig, *staged, endpoints@) ==> r is None,
            r is None ==> is_refused(*aig, *staged, endpoints@),
            r matches Some(p) ==> is_plain(*aig, *staged, endpoints@) ==> runs_through(
                *aig,
                reserved_write_outs(*aig, *staged, endpoints@) as int,
                given_pins(*aig, *staged),
                partition_targets(*aig, *staged, endpoints@),
                p.stages@,
            ),
            !over_budget(*aig, *staged, endpoints@) && is_easy(*aig, *staged, endpoints@) ==> r is Some,
            !over_budget(*aig, *staged, endpoints@) && is_small(*aig, *staged, endpoints@) ==> r is Some && r.unwrap()
                .stages@.len() <= 1,
    {
        let demand = collect_demand(aig, staged, endpoints);
        if demand.rejected {
            return None;
        }
        let ghost goal = partition_targets(*aig, *staged, endpoints@);
        let ghost given = given_pins(*aig, *staged);
        let mut realized = match &staged.primary_inputs {
            Some(s) => set_copy(s),
            None => set_new(),
        };
        proof {
            assert(set_items(realized) == staged.inputs());
            assert forall|i: int| 0 <= i < staged.inputs().len() implies #[trigger] set_items(realized)[i]
                <= aig.num_aigpins by {
                assert(staged.inputs()[i] <= aig.num_aigpins);
            }
            lemma_targets_are_pins(*aig, *staged, endpoints@);
        }
        seed_start_outputs(aig, &mut realized);
        assert(set_items(realized).to_set() =~= given);
        let waves = match order_macro_waves(aig, &demand.targets, &realized) {
            None => {
                proof {
                    assert(!is_tame(*aig, *staged, endpoints@));
                    if is_plain(*aig, *staged, endpoints@) {
                        let rank = |m: usize| 0nat;
                        assert(macros_ranked(*aig, given, goal, rank));
                    }
                }
                return None;
            },
            Some(waves) => waves,
        };
        proof {
            assert forall|w: int, x: int| #[trigger] is_lane(waves@, w, x) implies waves@[w]@[x]
                < aig.macros.vals().len() by {
                let m = waves@[w]@[x];
                assert(in_macro_cone(*aig, given, goal, m));
                let pin = choose|pin: usize| #[trigger]
                    in_cone(*aig, given, goal, pin) && !given.contains(pin) && producer(*aig, pin) == Some(m) && !(mac(
                        *aig,
                        m,
                    ).kind is Dsp48e2);
                assert(map_view(aig.aigpin2macro)[pin] < aig.macros.vals().len());
            }
        }
        let mut pending = seed_mid_outputs(aig, &waves, &mut realized);
        let ghost seeds = set_items(realized).to_set();
        proof {
            assert forall|v: usize| output_between(*aig, waves@, 0, waves@.len() as int, v)
                <==> #[trigger] is_phase_output(*aig, waves@, v) by {
                if is_phase_output(*aig, waves@, v) {
                    let (w, x) = choose|w: int, x: int| #[trigger]
                        is_lane(waves@, w, x) && mac(*aig, waves@[w]@[x]).mid_outputs().contains(v);
                    assert(is_lane(waves@, w, x));
                }
            }
            assert(seeds =~= seeded(*aig, *staged, waves@));
        }
        let mut open = set_new();
        add_unless(&mut open, &demand.targets, &pending);
        let ghost open0 = set_items(open);
        proof {
            assert forall|i: int| 0 <= i < open0.len() implies #[trigger] open0[i] <= aig.num_aigpins by {
                assert(open0.contains(open0[i]));
                assert(goal[goal.index_of(open0[i])] <= aig.num_aigpins);
            }
        }
        let reqs = open_wave_inputs(aig, &waves, &realized, &mut open);
        let mut stages: Vec<BoomerangStage> = Vec::new();
        let mut total: usize = 0;
        proof {
            let pend = set_items(pending);
            let open1 = set_items(open);
            assert(stages_ok(*aig, seeds, stages@, set_items(realized), total));
            assert forall|t: usize| #[trigger] goal.contains(t) implies accounted(stages@, open1, pend, t) by {
                if !pend.contains(t) {
                    assert(open0.contains(t));
                    assert(open1[open0.index_of(t)] == t);
                }
            }
            assert forall|q: usize| #[trigger] pend.contains(q) implies !open1.contains(q) && seeds.contains(q) by {
                assert(set_items(realized).contains(q));
            }
            lemma_untouched_first(*aig, seeds, stages@, set_items(realized), pend);
            assert(all_pending(*aig, waves@, 0, pend)) by {
                reveal(all_pending);
            }
        }
        proof {
            let first = stand_of(realized, open, pending, total);
            assert forall|x: usize| #[trigger] first.open.contains(x) <==> (goal.contains(x) && !first.pending.contains(x))
                || is_needed(*aig, seeds, waves@, 0, x) by {
                assert(open0.contains(x) <==> goal.contains(x) && !first.pending.contains(x));
            }
            assert(is_start(*aig, seeds, goal, waves@, first));
        }
        let ghost pins = wanted_pins(*aig, seeds, waves@, goal);
        let ghost tame = is_tame(*aig, *staged, endpoints@);
        proof {
            if tame {
                lemma_tame(*aig, *staged, endpoints@, waves@);
                let open1 = set_items(open);
                assert forall|x: usize| #[trigger] open1.contains(x) implies pins.contains(x) by {
                    if !open0.contains(x) {
                        assert(is_wanted(*aig, waves@, goal, x));
                        aig.lemma_reaches_self(seeds, x);
                        assert(open1[open1.index_of(x)] <= aig.num_aigpins);
                    }
                }
            }
        }
        let phases = match run_phases(
            aig,
            &waves,
            &reqs,
            &demand.targets,
            &mut open,
            &mut pending,
            &mut realized,
            &mut stages,
            &mut total,
            demand.reserved,
            Ghost(seeds),
            Ghost(pins),
        ) {
            None => {
                proof {
                    if is_plain(*aig, *staged, endpoints@) {
                        lemma_plain_no_waves(*aig, *staged, endpoints@, waves@);
                    }
                }
                return None;
            },
            Some(phases) => phases,
        };
        let _ = set_len(&open);
        let ghost open2 = set_items(open);
        let ghost pend2 = set_items(pending);
        let ghost stages2 = stages@;
        let ghost real2 = set_items(realized);
        let ghost total2 = total;
        let ghost stands = choose|stands: Seq<Stand>| #[trigger]
            has_come_to(
                *aig,
                demand.reserved as int,
                seeds,
                goal,
                waves@,
                phases@,
                stages@,
                stands,
                stand_of(realized, open, pending, total),
            );
        assert(stands.len() == phases@.len() + 1) by {
            reveal(is_schedule);
        }
        let none = set_new();
        proof {
            lemma_acyclic_more(*aig, Set::empty(), set_items(realized).to_set());
            if tame {
                let n = waves@.len();
                let p = pins.len();
                assert(n * p + p == (n + 1) * p) by (nonlinear_arith);
                assert(p <= (n + 1) * p) by (nonlinear_arith);
                lemma_shallow_fits(*aig, seeds, pins, set_items(realized), open2);
                assert(one_stage_suffices(
                    *aig,
                    set_items(realized).to_set(),
                    open2,
                    total as int,
                    demand.reserved as int,
                ));
            }
            if is_plain(*aig, *staged, endpoints@) {
                lemma_plain_no_waves(*aig, *staged, endpoints@, waves@);
            }
            if waves@.len() == 0 {
                assert forall|v: usize| !#[trigger] output_between(*aig, waves@, 0, 0, v) by {}
                assert(set_items(realized).to_set() =~= given);
                assert(open2 == goal);
            }
        }
        if run_boomerang_stages_until_realized(
            aig,
            &mut open,
            None,
            &none,
            &mut realized,
            &mut stages,
            &mut total,
            demand.reserved,
            Ghost(seeds),
        ).is_none() {
            proof {
                let flows = choose|flows: Seq<Flow>| #[trigger]
                    ran(
                        *aig,
                        demand.reserved as int,
                        None,
                        Seq::empty(),
                        flows,
                        stages@.skip(stages2.len() as int),
                        Flow { realized: real2, targets: open2, total: total2 as int },
                        flow_of(realized, open, total),
                    ) && has_halted(*aig, None, flows, demand.reserved as int);
                assert(halts_at(
                    *aig,
                    seeds,
                    goal,
                    demand.reserved as int,
                    waves@,
                    phases@,
                    stages2,
                    stands,
                    None,
                    Seq::empty(),
                    flows,
                    stages@.skip(stages2.len() as int),
                ));
            }
            return None;
        }
        let p = Partition { endpoints: endpoints.clone(), stages, macro_stages: phases,
            state_macros: demand.state_macros };
        proof {
            assert(p.endpoints@ =~= endpoints@);
            lemma_phases_stay(*aig, seeds, stages2, p.stages@, waves@, p.macro_stages@);
            assert forall|v: int| 0 <= v < p.macro_stages@.len() implies (#[trigger] p.macro_stages@[v]).after_stage
                <= stages2.len() by {
                assert(p.macro_stages@[v].after_stage <= phase_start(p.macro_stages@, p.macro_stages@.len() as int));
            }
            lemma_schedule_stays(
                *aig,
                demand.reserved as int,
                seeds,
                goal,
                waves@,
                p.macro_stages@,
                stages2,
                p.stages@,
                stands,
            );
            assert(leaves_stay(*aig, seeds, waves@, p.macro_stages@, p.stages@, stands)) by {
                reveal(leaves_stay);
                assert forall|w: int, k: int, x: usize|
                    0 <= w < p.macro_stages@.len() && phase_start(p.macro_stages@, w) < k
                        < p.macro_stages@[w].after_stage && #[trigger] is_deferred_leaf(
                        *aig,
                        seeds,
                        waves@,
                        w,
                        stands[w],
                        x,
                    ) implies #[trigger] p.stages@[k].realizes(x) by {
                    assert(stages2[k].realizes(x));
                }
            }
            let flows = choose|flows: Seq<Flow>| #[trigger]
                ran(
                    *aig,
                    demand.reserved as int,
                    None,
                    Seq::empty(),
                    flows,
                    p.stages@.skip(stages2.len() as int),
                    Flow { realized: real2, targets: open2, total: total2 as int },
                    flow_of(realized, open, total),
                ) && is_done(None, flows.last());
            assert(is_run(
                *aig,
                demand.reserved as int,
                None,
                Seq::empty(),
                flows,
                p.stages@.skip(stages2.len() as int),
            ));
            assert forall|t: usize| #[trigger] goal.contains(t) implies written_in(p.stages@, t) by {
                assert(accounted(stages2, open2, pend2, t));
                assert(!pend2.contains(t));
                if open2.contains(t) {
                    assert(settled_since(p.stages@, set_items(open), t));
                } else {
                    let k = choose|k: int| 0 <= k < stages2.len() && (#[trigger] stages2[k]).writes(t);
                    assert(p.stages@[k].writes(t));
                }
            }
            assert(partition_with(*aig, *staged, endpoints@, waves@, p));
            if is_plain(*aig, *staged, endpoints@) {
                assert(p.stages@.skip(0) =~= p.stages@);
                assert(is_run(*aig, demand.reserved as int, None, Seq::empty(), flows, p.stages@));
            }
        }
        Some(p)
    }
}

} // verus!
