use std::sync::atomic::Ordering;
use vstd::prelude::*;

use crate::error::LoadBalanceError;
use crate::node::Node;
use crate::strategy::BalanceStrategy;
use crate::strategy::Picker;
use crate::strategy::RequestMetadata;

verus! {

/// Response-time weighted: picks the node with the highest score
/// `(10^9 / max(rtt, 1)) / (1 + in_flight)`, favouring low latency and a
/// short queue; on a tie the earliest node wins. A node without an rtt
/// sample (rtt 0) gets the optimistic top quotient.
pub struct ResponseTimeWeighted;

/// Picker state of `ResponseTimeWeighted`: only the snapshot; the decision
/// reads the live counters at pick time.
pub struct RtWeightedPicker {
    pub nodes: Vec<Node>,
}

/// The response-time quotient `10^9 / max(rtt, 1)`.
pub open spec fn rtt_quotient(rtt: u64) -> int {
    1_000_000_000int / (if rtt == 0 {
        1int
    } else {
        rtt as int
    })
}

/// Whether `(rtt_a, load_a)` scores strictly higher than `(rtt_b, load_b)`:
/// the exact cross-multiplied comparison of the two score quotients.
pub open spec fn score_gt(rtt_a: u64, load_a: usize, rtt_b: u64, load_b: usize) -> bool {
    rtt_quotient(rtt_a) * (load_b as int + 1) > rtt_quotient(rtt_b) * (load_a as int + 1)
}

/// Whether the first pair scores strictly higher than the second, computed
/// exactly in integers.
fn beats(rtt_a: u64, load_a: usize, rtt_b: u64, load_b: usize) -> (r: bool)
    ensures
        r == score_gt(rtt_a, load_a, rtt_b, load_b),
{
    let qa: u64 = 1_000_000_000 / (if rtt_a == 0 {
        1
    } else {
        rtt_a
    });
    let qb: u64 = 1_000_000_000 / (if rtt_b == 0 {
        1
    } else {
        rtt_b
    });
    proof {
        assert(qa <= 1_000_000_000 && qb <= 1_000_000_000) by (nonlinear_arith)
            requires
                qa == 1_000_000_000int / (if rtt_a == 0 {
                    1int
                } else {
                    rtt_a as int
                }),
                qb == 1_000_000_000int / (if rtt_b == 0 {
                    1int
                } else {
                    rtt_b as int
                }),
        ;
        assert((qa as u128) * ((load_b as u128) + 1) <= 1_000_000_000u128
            * 0x1_0000_0000_0000_0000u128 && (qb as u128) * ((load_a as u128) + 1)
            <= 1_000_000_000u128 * 0x1_0000_0000_0000_0000u128) by (nonlinear_arith)
            requires
                qa <= 1_000_000_000,
                qb <= 1_000_000_000,
                (load_b as u128) + 1 <= 0x1_0000_0000_0000_0000u128,
                (load_a as u128) + 1 <= 0x1_0000_0000_0000_0000u128,
        ;
    }
    let left: u128 = (qa as u128) * ((load_b as u128) + 1);
    let right: u128 = (qb as u128) * ((load_a as u128) + 1);
    left > right
}

/// The position with the highest score; on a tie, the earliest.
pub fn best_scored_index(rtts: &Vec<u64>, loads: &Vec<usize>) -> (r: usize)
    requires
        rtts@.len() == loads@.len(),
        rtts@.len() > 0,
    ensures
        r < rtts@.len(),
        forall|j: int|
            0 <= j < rtts@.len() ==> !score_gt(
                #[trigger] rtts@[j],
                loads@[j],
                rtts@[r as int],
                loads@[r as int],
            ),
        forall|j: int|
            0 <= j < r ==> score_gt(rtts@[r as int], loads@[r as int], #[trigger] rtts@[j], loads@[j]),
{
    let mut best: usize = 0;
    let mut i: usize = 1;
    while i < rtts.len()
        invariant
            rtts@.len() == loads@.len(),
            0 < i <= rtts@.len(),
            best < i,
            forall|j: int|
                0 <= j < i ==> !score_gt(
                    #[trigger] rtts@[j],
                    loads@[j],
                    rtts@[best as int],
                    loads@[best as int],
                ),
            forall|j: int|
                0 <= j < best ==> score_gt(
                    rtts@[best as int],
                    loads@[best as int],
                    #[trigger] rtts@[j],
                    loads@[j],
                ),
        decreases rtts@.len() - i,
    {
        if beats(rtts[i], loads[i], rtts[best], loads[best]) {
            proof {
                assert forall|j: int| 0 <= j < i implies !score_gt(
                    #[trigger] rtts@[j],
                    loads@[j],
                    rtts@[i as int],
                    loads@[i as int],
                ) by {
                    lemma_score_order(
                        rtts@[i as int],
                        loads@[i as int],
                        rtts@[best as int],
                        loads@[best as int],
                        rtts@[j],
                        loads@[j],
                    );
                }
                assert forall|j: int| 0 <= j < i implies score_gt(
                    rtts@[i as int],
                    loads@[i as int],
                    #[trigger] rtts@[j],
                    loads@[j],
                ) by {
                    lemma_score_order(
                        rtts@[i as int],
                        loads@[i as int],
                        rtts@[best as int],
                        loads@[best as int],
                        rtts@[j],
                        loads@[j],
                    );
                }
            }
            best = i;
        }
        i = i + 1;
    }
    best
}

/// Scores order transitively: if `a` beats `b` and `c` does not beat `b`,
/// then `a` beats `c` and `c` does not beat `a`.
proof fn lemma_score_order(
    rtt_a: u64,
    load_a: usize,
    rtt_b: u64,
    load_b: usize,
    rtt_c: u64,
    load_c: usize,
)
    requires
        score_gt(rtt_a, load_a, rtt_b, load_b),
        !score_gt(rtt_c, load_c, rtt_b, load_b),
    ensures
        score_gt(rtt_a, load_a, rtt_c, load_c),
        !score_gt(rtt_c, load_c, rtt_a, load_a),
{
    let qa = rtt_quotient(rtt_a);
    let qb = rtt_quotient(rtt_b);
    let qc = rtt_quotient(rtt_c);
    let fa = load_a as int + 1;
    let fb = load_b as int + 1;
    let fc = load_c as int + 1;
    assert(qa >= 0 && qb >= 0 && qc >= 0) by (nonlinear_arith)
        requires
            qa == rtt_quotient(rtt_a),
            qb == rtt_quotient(rtt_b),
            qc == rtt_quotient(rtt_c),
    ;
    assert(qa * fc > qc * fa && !(qc * fa > qa * fc)) by (nonlinear_arith)
        requires
            qa * fb > qb * fa,
            !(qc * fb > qb * fc),
            qa >= 0 && qb >= 0 && qc >= 0,
            fa > 0 && fb > 0 && fc > 0,
    ;
}

impl RtWeightedPicker {
    pub fn pick(&self, _req: &RequestMetadata) -> (r: Result<Node, LoadBalanceError>)
        ensures
            r is Ok <==> self.nodes@.len() > 0,
            self.nodes@.len() == 0 ==> r == Err::<Node, LoadBalanceError>(
                LoadBalanceError::NoAvailableNodes,
            ),
            self.nodes@.len() == 1 ==> r == Ok::<Node, LoadBalanceError>(self.nodes@[0]),
            r matches Ok(n) ==> exists|j: int| 0 <= j < self.nodes@.len() && self.nodes@[j] == n,
    {
        let len = self.nodes.len();
        if len == 0 {
            return Err(LoadBalanceError::NoAvailableNodes);
        }
        if len == 1 {
            let n = self.nodes[0].clone();
            proof {
                assert(self.nodes@[0] == n);
            }
            return Ok(n);
        }
        let mut rtts: Vec<u64> = Vec::new();
        let mut loads: Vec<usize> = Vec::new();
        let mut i: usize = 0;
        while i < len
            invariant
                len == self.nodes@.len(),
                i <= len,
                rtts@.len() == i as int,
                loads@.len() == i as int,
            decreases len - i,
        {
            rtts.push(self.nodes[i].last_rtt_ns.load(Ordering::Acquire));
            loads.push(self.nodes[i].in_flight.load(Ordering::Acquire));
            i = i + 1;
        }
        let best = best_scored_index(&rtts, &loads);
        let n = self.nodes[best].clone();
        proof {
            assert(0 <= (best as int) && (best as int) < self.nodes@.len()
                && self.nodes@[best as int] == n);
        }
        Ok(n)
    }
}

impl BalanceStrategy for ResponseTimeWeighted {
    open spec fn build_ensures(&self, nodes: Seq<Node>, p: Picker) -> bool {
        p matches Picker::ResponseTimeWeighted(rp) && rp.nodes@ == nodes
    }

    proof fn build_ensures_implies_bound(&self, nodes: Seq<Node>, p: Picker) {
    }

    fn build_picker(&self, nodes: Vec<Node>) -> (p: Picker) {
        Picker::ResponseTimeWeighted(RtWeightedPicker { nodes })
    }
}

} // verus!
