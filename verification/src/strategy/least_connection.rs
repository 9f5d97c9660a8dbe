use std::sync::atomic::Ordering;
use vstd::prelude::*;

use crate::error::LoadBalanceError;
use crate::node::Node;
use crate::strategy::BalanceStrategy;
use crate::strategy::Picker;
use crate::strategy::RequestMetadata;

verus! {

/// Least connection: a linear scan for the node with the fewest in-flight
/// requests; on a tie the earliest node wins.
pub struct LeastConnection;

/// Picker state of `LeastConnection`: only the snapshot; the decision reads
/// the live counters at pick time.
pub struct LeastConnPicker {
    pub nodes: Vec<Node>,
}

/// The position of the smallest load; on a tie, the earliest. The chosen
/// load never strictly exceeds any other observed load.
pub fn least_loaded_index(loads: &Vec<usize>) -> (r: usize)
    requires
        loads@.len() > 0,
    ensures
        r < loads@.len(),
        forall|j: int| 0 <= j < loads@.len() ==> loads@[r as int] <= #[trigger] loads@[j],
        forall|j: int| 0 <= j < r ==> loads@[r as int] < #[trigger] loads@[j],
{
    let mut best: usize = 0;
    let mut i: usize = 1;
    while i < loads.len()
        invariant
            0 < i <= loads@.len(),
            best < i,
            forall|j: int| 0 <= j < i ==> loads@[best as int] <= #[trigger] loads@[j],
            forall|j: int| 0 <= j < best ==> loads@[best as int] < #[trigger] loads@[j],
        decreases loads@.len() - i,
    {
        if loads[i] < loads[best] {
            best = i;
        }
        i = i + 1;
    }
    best
}

impl LeastConnPicker {
    pub fn pick(&self, _req: &RequestMetadata) -> (r: Result<Node, LoadBalanceError>)
        ensures
            r is Ok <==> self.nodes@.len() > 0,
            self.nodes@.len() == 0 ==> r == Err::<Node, LoadBalanceError>(
                LoadBalanceError::NoAvailableNodes,
            ),
            self.nodes@.len() == 1 ==> r == Ok::<Node, LoadBalanceError>(self.nodes@[0]),
            r matches Ok(n) ==> exists|j: int| 0 <= j < self.nodes@.len() && self.nodes@[j] == n,
    {
        let len = self.nodes.len();
        if len == 0 {
            return Err(LoadBalanceError::NoAvailableNodes);
        }
        let mut loads: Vec<usize> = Vec::new();
        let mut i: usize = 0;
        while i < len
            invariant
                len == self.nodes@.len(),
                i <= len,
                loads@.len() == i as int,
            decreases len - i,
        {
            loads.push(self.nodes[i].in_flight.load(Ordering::Acquire));
            i = i + 1;
        }
        let best = least_loaded_index(&loads);
        let n = self.nodes[best].clone();
        proof {
            assert(0 <= (best as int) && (best as int) < self.nodes@.len()
                && self.nodes@[best as int] == n);
        }
        Ok(n)
    }
}

impl BalanceStrategy for LeastConnection {
    open spec fn build_ensures(&self, nodes: Seq<Node>, p: Picker) -> bool {
        p matches Picker::LeastConnection(rp) && rp.nodes@ == nodes
    }

    proof fn build_ensures_implies_bound(&self, nodes: Seq<Node>, p: Picker) {
    }

    fn build_picker(&self, nodes: Vec<Node>) -> (p: Picker) {
        Picker::LeastConnection(LeastConnPicker { nodes })
    }
}

} // verus!
