use vstd::prelude::*;

use crate::error::LoadBalanceError;
use crate::node::Node;
use crate::random::make_weighted_index;
use crate::random::random_index;
use crate::random::sample_weighted_index;
use crate::random::sum_weights;
use crate::random::weighted_index_weights;
use crate::random::WeightedDist;
use crate::strategy::BalanceStrategy;
use crate::strategy::Picker;
use crate::strategy::RequestMetadata;

verus! {

/// Weighted random: draws each pick from a discrete distribution over the
/// node weights, so a node is chosen with probability proportional to its
/// weight, for any weight sum a `u64` can hold. An all-zero weight set
/// falls back to a uniform draw.
pub struct WeightedRandom;

/// Picker state of `WeightedRandom`: the snapshot and the prebuilt
/// distribution (absent when no positive-sum distribution over the weights
/// exists, in which case picks fall back to a uniform draw).
pub struct WeightedRandomPicker {
    pub nodes: Vec<Node>,
    pub dist: Option<WeightedDist>,
}

/// Whether every node weight is zero.
pub open spec fn all_zero(nodes: Seq<Node>) -> bool {
    forall|i: int| 0 <= i < nodes.len() ==> (#[trigger] nodes[i]).weight == 0
}

/// The weights the distribution is built over: the node weights, or all
/// ones when every weight is zero.
pub open spec fn adjusted_weights(nodes: Seq<Node>) -> Seq<u64> {
    if all_zero(nodes) {
        Seq::new(nodes.len(), |i: int| 1u64)
    } else {
        nodes.map(|i: int, n: Node| n.weight as u64)
    }
}

/// Internal consistency of the picker state.
pub open spec fn wr_wf(p: WeightedRandomPicker) -> bool {
    p.dist matches Some(d) ==> weighted_index_weights(d) == adjusted_weights(p.nodes@)
}

impl WeightedRandomPicker {
    /// Build the distribution over the (adjusted) weights; a weight sum of
    /// zero or beyond `u64` leaves the picker on its uniform fallback.
    pub fn new(nodes: Vec<Node>) -> (r: Self)
        ensures
            r.nodes@ == nodes@,
            wr_wf(r),
    {
        let len = nodes.len();
        let mut zero = true;
        let mut i: usize = 0;
        while i < len
            invariant
                len == nodes@.len(),
                i <= len,
                zero <==> (forall|j: int| 0 <= j < i ==> (#[trigger] nodes@[j]).weight == 0),
            decreases len - i,
        {
            if nodes[i].weight != 0 {
                zero = false;
            }
            i = i + 1;
        }
        let mut weights: Vec<u64> = Vec::new();
        let mut sum: u128 = 0;
        let mut k: usize = 0;
        while k < len
            invariant
                len == nodes@.len(),
                k <= len,
                zero == all_zero(nodes@),
                weights@ == adjusted_weights(nodes@).subrange(0, k as int),
                sum == sum_weights(weights@),
                sum <= (k as int) * (u32::MAX as int),
            decreases len - k,
        {
            let w: u64 = if zero {
                1
            } else {
                nodes[k].weight as u64
            };
            proof {
                assert(w == adjusted_weights(nodes@)[k as int]);
                assert((k as int) * (u32::MAX as int) + (u32::MAX as int) == ((k as int) + 1) * (
                u32::MAX as int)) by (nonlinear_arith);
            }
            weights.push(w);
            sum = sum + (w as u128);
            proof {
                assert(adjusted_weights(nodes@).subrange(0, (k + 1) as int) =~= adjusted_weights(
                    nodes@,
                ).subrange(0, k as int).push(w));
                assert(weights@.drop_last() =~= adjusted_weights(nodes@).subrange(0, k as int));
            }
            k = k + 1;
        }
        proof {
            assert(adjusted_weights(nodes@).subrange(0, len as int) =~= adjusted_weights(nodes@));
        }
        let dist = if sum > 0 && sum <= u64::MAX as u128 {
            make_weighted_index(&weights)
        } else {
            None
        };
        WeightedRandomPicker { nodes, dist }
    }

    pub fn pick(&self, _req: &RequestMetadata) -> (r: Result<Node, LoadBalanceError>)
        requires
            wr_wf(*self),
        ensures
            r is Ok <==> self.nodes@.len() > 0,
            self.nodes@.len() == 0 ==> r == Err::<Node, LoadBalanceError>(
                LoadBalanceError::NoAvailableNodes,
            ),
            self.nodes@.len() == 1 ==> r == Ok::<Node, LoadBalanceError>(self.nodes@[0]),
            r matches Ok(n) ==> exists|j: int| 0 <= j < self.nodes@.len() && self.nodes@[j] == n,
            self.dist is Some && !all_zero(self.nodes@) ==> (r matches Ok(n) ==> n.weight > 0),
    {
        let len = self.nodes.len();
        if len == 0 {
            return Err(LoadBalanceError::NoAvailableNodes);
        }
        if len == 1 {
            let n = self.nodes[0].clone();
            proof {
                assert(self.nodes@[0] == n);
            }
            return Ok(n);
        }
        let idx = match &self.dist {
            Some(d) => {
                let i = sample_weighted_index(d);
                proof {
                    assert(adjusted_weights(self.nodes@).len() == self.nodes@.len());
                    if !all_zero(self.nodes@) {
                        assert(adjusted_weights(self.nodes@)[i as int] == self.nodes@[i as int]
                            .weight);
                    }
                }
                i
            },
            None => random_index(len),
        };
        let n = self.nodes[idx].clone();
        proof {
            assert(0 <= (idx as int) && (idx as int) < self.nodes@.len() && self.nodes@[idx as int]
                == n);
        }
        Ok(n)
    }
}

impl BalanceStrategy for WeightedRandom {
    open spec fn build_ensures(&self, nodes: Seq<Node>, p: Picker) -> bool {
        p matches Picker::WeightedRandom(rp) && rp.nodes@ == nodes && wr_wf(rp)
    }

    proof fn build_ensures_implies_bound(&self, nodes: Seq<Node>, p: Picker) {
    }

    fn build_picker(&self, nodes: Vec<Node>) -> (p: Picker) {
        Picker::WeightedRandom(WeightedRandomPicker::new(nodes))
    }
}

} // verus!
