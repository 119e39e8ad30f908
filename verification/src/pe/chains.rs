//! Carry chains in the lanes of a phase.

use super::budget::partition_targets;
use super::partition::{given_pins, partition_ok, partition_with, phase_ok, seeded, Partition};
use super::waves::{is_lane, lemma_cone_macro, mac, macro_pins_ok};
use crate::aig::AIG;
use crate::staging::StagedAIG;
use vstd::prelude::*;

verus! {

/// Is the carry of a CARRY4 handed on by the lane before it? The carry-in of the one is
/// slot 0 of its inputs, and the last carry-out of the other is slot 7 of its outputs.
pub open spec fn is_handed_on(aig: AIG, before: usize, m: usize) -> bool {
    &&& mac(aig, before).kind is Carry4
    &&& mac(aig, m).kind is Carry4
    &&& mac(aig, m).inputs@[0] >= 2
    &&& mac(aig, before).outputs@[7] == mac(aig, m).inputs@[0] / 2
}

/// A lane starts a chain unless the lane before it hands its carry on. So where a lane
/// does not start a chain, there is a lane before it, and the pin at its carry-in is the
/// last carry-out of that lane.
pub proof fn law_carries_come_from_the_lane_before(
    aig: AIG,
    staged: StagedAIG,
    endpoints: Seq<usize>,
    p: Partition,
    w: int,
    l: int,
)
    requires
        partition_ok(aig, staged, endpoints, p),
        macro_pins_ok(aig),
        aig.macros.vals().len() <= usize::MAX,
        0 <= w < p.macro_stages@.len(),
        0 <= l < p.macro_stages@[w].lanes@.len(),
    ensures
        ({
            let lanes = p.macro_stages@[w].lanes@;
            &&& 1 <= lanes.len() <= 32
            &&& lanes[l].macro_i < aig.macros.vals().len()
            &&& l == 0 ==> lanes[l].chain_start
            &&& l > 0 ==> (lanes[l].chain_start <==> !is_handed_on(aig, lanes[l - 1].macro_i, lanes[l].macro_i))
        }),
{
    let waves = choose|waves: Seq<Vec<usize>>| #[trigger] partition_with(aig, staged, endpoints, waves, p);
    assert(partition_with(aig, staged, endpoints, waves, p));
    let wave = waves[w]@;
    let phase = p.macro_stages@[w];
    assert(phase_ok(aig, seeded(aig, staged, waves), p.stages@, waves[w]@, p.macro_stages@[w]));
    assert(1 <= waves[w]@.len() <= 32);
    let done = given_pins(aig, staged);
    let targets = partition_targets(aig, staged, endpoints);
    assert(is_lane(waves, w, l));
    lemma_cone_macro(aig, done, targets, wave[l]);
    if l > 0 {
        assert(is_lane(waves, w, l - 1));
        lemma_cone_macro(aig, done, targets, wave[l - 1]);
    }
    assert(phase.lanes@[l].macro_i == wave[l]);
    if l > 0 {
        assert(phase.lanes@[l - 1].macro_i == wave[l - 1]);
    }
}

} // verus!
