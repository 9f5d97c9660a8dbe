use std::sync::atomic::Ordering;
use vstd::prelude::*;

use crate::error::LoadBalanceError;
use crate::node::Node;
use crate::random::random_index;
use crate::strategy::BalanceStrategy;
use crate::strategy::Picker;
use crate::strategy::RequestMetadata;

verus! {

/// Power of two choices: draws two distinct random nodes and returns the
/// one with fewer in-flight requests, breaking ties in favour of the first
/// draw.
pub struct PowerOfTwoChoices;

/// Picker state of `PowerOfTwoChoices`: only the snapshot; the decision
/// reads the live counters at pick time.
pub struct P2cPicker {
    pub nodes: Vec<Node>,
}

/// The two-draw decision: of the two sampled positions, the one whose
/// observed in-flight count is lower wins; a tie keeps the first draw.
pub fn choose_less_loaded(a: usize, b: usize, load_a: usize, load_b: usize) -> (r: usize)
    ensures
        r == (if load_a <= load_b {
            a
        } else {
            b
        }),
{
    if load_a <= load_b {
        a
    } else {
        b
    }
}

impl P2cPicker {
    /// A second random position, distinct from `first`: an offset of 1 to
    /// `len - 1` ahead of it, cyclically, which covers every other position
    /// exactly once.
    fn second_index(first: usize, len: usize) -> (r: usize)
        requires
            2 <= len,
            first < len,
        ensures
            r < len,
            r != first,
    {
        let offset = random_index(len - 1);
        let s: u128 = first as u128 + 1 + offset as u128;
        if s >= len as u128 {
            (s - len as u128) as usize
        } else {
            s as usize
        }
    }

    pub fn pick(&self, _req: &RequestMetadata) -> (r: Result<Node, LoadBalanceError>)
        ensures
            r is Ok <==> self.nodes@.len() > 0,
            self.nodes@.len() == 0 ==> r == Err::<Node, LoadBalanceError>(
                LoadBalanceError::NoAvailableNodes,
            ),
            self.nodes@.len() == 1 ==> r == Ok::<Node, LoadBalanceError>(self.nodes@[0]),
            r matches Ok(n) ==> exists|j: int| 0 <= j < self.nodes@.len() && self.nodes@[j] == n,
    {
        let len = self.nodes.len();
        if len == 0 {
            return Err(LoadBalanceError::NoAvailableNodes);
        }
        if len == 1 {
            let n = self.nodes[0].clone();
            proof {
                assert(self.nodes@[0] == n);
            }
            return Ok(n);
        }
        let a = random_index(len);
        let b = Self::second_index(a, len);
        let na = self.nodes[a].in_flight.load(Ordering::Acquire);
        let nb = self.nodes[b].in_flight.load(Ordering::Acquire);
        let chosen = choose_less_loaded(a, b, na, nb);
        let n = self.nodes[chosen].clone();
        proof {
            assert(0 <= (chosen as int) && (chosen as int) < self.nodes@.len()
                && self.nodes@[chosen as int] == n);
        }
        Ok(n)
    }
}

impl BalanceStrategy for PowerOfTwoChoices {
    open spec fn build_ensures(&self, nodes: Seq<Node>, p: Picker) -> bool {
        p matches Picker::PowerOfTwoChoices(rp) && rp.nodes@ == nodes
    }

    proof fn build_ensures_implies_bound(&self, nodes: Seq<Node>, p: Picker) {
    }

    fn build_picker(&self, nodes: Vec<Node>) -> (p: Picker) {
        Picker::PowerOfTwoChoices(P2cPicker { nodes })
    }
}

} // verus!
