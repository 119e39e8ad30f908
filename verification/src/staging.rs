//! Major stages: cuts of the graph that are simulated one after the other.

use crate::aig::{EndpointGroup, AIG};
use crate::collections::{set_items, set_to_vec};
use crate::netlist::all_below;
use indexmap::IndexSet;
use vstd::prelude::*;

verus! {

/// What one major stage has to compute.
///
/// Its endpoint groups are the pins that it hands to later stages, followed by
/// endpoint groups of the graph.
pub struct StagedAIG {
    /// The pins that earlier stages hand to this one, if there are any.
    pub primary_inputs: Option<IndexSet<usize>>,
    /// The pins that this stage hands to later ones.
    pub primary_output_pins: Vec<usize>,
    /// The endpoint groups of the graph that this stage realizes.
    pub endpoints: Vec<usize>,
}

impl StagedAIG {
    /// The pins that earlier stages hand to this one.
    pub open spec fn inputs(self) -> Seq<usize> {
        match self.primary_inputs {
            Some(s) => set_items(s),
            None => Seq::empty(),
        }
    }

    /// The number of endpoint groups.
    pub open spec fn group_count(self) -> nat {
        self.primary_output_pins@.len() + self.endpoints@.len()
    }

    /// The endpoint group with the given number.
    pub open spec fn group<'aig>(&self, aig: &'aig AIG, i: int) -> EndpointGroup<'aig> {
        if i < self.primary_output_pins@.len() {
            EndpointGroup::StagedIOPin(self.primary_output_pins@[i])
        } else {
            aig.endpoint(self.endpoints@[i - self.primary_output_pins@.len()] as int)
        }
    }

    /// All endpoint groups and pins are in the graph.
    pub open spec fn wf(self, aig: AIG) -> bool {
        &&& self.group_count() <= usize::MAX
        &&& forall|i: int| 0 <= i < self.endpoints@.len() ==> #[trigger] self.endpoints@[i] < aig.endpoint_count()
        &&& forall|i: int| 0 <= i < self.inputs().len() ==> #[trigger] self.inputs()[i] <= aig.num_aigpins
        &&& forall|i: int|
            0 <= i < self.primary_output_pins@.len() ==> #[trigger] self.primary_output_pins@[i] <= aig.num_aigpins
    }

    /// Decides whether all endpoint groups and pins are in the graph.
    pub fn is_wf(&self, aig: &AIG) -> (b: bool)
        requires
            aig.endpoints_wf(),
            aig.num_aigpins < usize::MAX,
        ensures
            b == self.wf(*aig),
    {
        let n = aig.num_aigpins + 1;
        if self.endpoints.len() > usize::MAX - self.primary_output_pins.len() {
            return false;
        }
        if !all_below(&self.endpoints, aig.num_endpoint_groups()) || !all_below(&self.primary_output_pins, n) {
            return false;
        }
        match &self.primary_inputs {
            Some(s) => {
                let pins = set_to_vec(s);
                assert(pins@ == self.inputs());
                let b = all_below(&pins, n);
                proof {
                    if b {
                        assert forall|i: int| 0 <= i < self.inputs().len() implies #[trigger] self.inputs()[i]
                            <= aig.num_aigpins by {
                            assert(pins@[i] < n);
                        }
                    } else {
                        let i = choose|i: int| 0 <= i < pins@.len() && #[trigger] pins@[i] >= n;
                        assert(self.inputs()[i] > aig.num_aigpins);
                    }
                }
                b
            },
            None => true,
        }
    }

    /// The number of endpoint groups.
    pub fn num_endpoint_groups(&self) -> (n: usize)
        requires
            self.group_count() <= usize::MAX,
        ensures
            n == self.group_count(),
    {
        self.primary_output_pins.len() + self.endpoints.len()
    }

    /// The endpoint group with the given number.
    pub fn get_endpoint_group<'aig>(&self, aig: &'aig AIG, endpt_id: usize) -> (r: EndpointGroup<'aig>)
        requires
            aig.endpoints_wf(),
            self.wf(*aig),
            endpt_id < self.group_count(),
        ensures
            r == self.group(aig, endpt_id as int),
    {
        let n = self.primary_output_pins.len();
        if endpt_id < n {
            EndpointGroup::StagedIOPin(self.primary_output_pins[endpt_id])
        } else {
            aig.get_endpoint_group(self.endpoints[endpt_id - n])
        }
    }
}

} // verus!
