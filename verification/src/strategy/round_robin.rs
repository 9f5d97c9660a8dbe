use vstd::prelude::*;

use crate::error::LoadBalanceError;
use crate::node::Node;
use crate::strategy::BalanceStrategy;
use crate::strategy::Picker;
use crate::strategy::RequestMetadata;

verus! {

/// Plain round robin: walks the snapshot in order, one node per pick,
/// ignoring weights.
pub struct RoundRobin;

/// Picker state of `RoundRobin`: the snapshot and a monotonically advancing
/// cursor that wraps to 0 at the largest representable index.
pub struct RoundRobinPicker {
    pub nodes: Vec<Node>,
    pub idx: usize,
}

/// The cursor after one pick: unchanged on an empty snapshot, otherwise
/// advanced by one, wrapping at the maximum representable value.
pub open spec fn rr_next_state(p: RoundRobinPicker) -> RoundRobinPicker {
    if p.nodes@.len() == 0 {
        p
    } else {
        RoundRobinPicker {
            nodes: p.nodes,
            idx: if p.idx == usize::MAX {
                0usize
            } else {
                (p.idx + 1) as usize
            },
        }
    }
}

/// What one pick returns: the node at the cursor position modulo the
/// snapshot length, or `NoAvailableNodes` on an empty snapshot.
pub open spec fn rr_result(p: RoundRobinPicker) -> Result<Node, LoadBalanceError> {
    if p.nodes@.len() == 0 {
        Err(LoadBalanceError::NoAvailableNodes)
    } else {
        Ok(p.nodes@[p.idx as int % p.nodes@.len() as int])
    }
}

impl RoundRobinPicker {
    pub fn pick(&mut self, _req: &RequestMetadata) -> (r: Result<Node, LoadBalanceError>)
        ensures
            *final(self) == rr_next_state(*old(self)),
            r == rr_result(*old(self)),
            r matches Ok(n) ==> exists|j: int|
                0 <= j < old(self).nodes@.len() && old(self).nodes@[j] == n,
    {
        let len = self.nodes.len();
        if len == 0 {
            return Err(LoadBalanceError::NoAvailableNodes);
        }
        let i = self.idx % len;
        if self.idx == usize::MAX {
            self.idx = 0;
        } else {
            self.idx = self.idx + 1;
        }
        let n = self.nodes[i].clone();
        proof {
            assert(0 <= (i as int) && (i as int) < old(self).nodes@.len() && old(self).nodes@[i as int] == n);
        }
        Ok(n)
    }
}

/// How many of the first `t` picks of a fresh round-robin cursor land on
/// snapshot position `j`: pick number `i` lands on position `i % n` (the
/// cursor starts at 0 and advances by one per pick).
pub open spec fn rr_hit_count(n: int, t: int, j: int) -> int
    decreases t,
{
    if t <= 0 {
        0
    } else {
        rr_hit_count(n, t - 1, j) + if (t - 1) % n == j {
            1int
        } else {
            0int
        }
    }
}

/// Closed form of the hit count: `t / n` full cycles plus one more hit when
/// the partial cycle has passed position `j`.
pub proof fn lemma_rr_count(n: int, t: int, j: int)
    requires
        0 < n,
        0 <= j < n,
        0 <= t,
    ensures
        rr_hit_count(n, t, j) == t / n + if j < t % n {
            1int
        } else {
            0int
        },
    decreases t,
{
    if t == 0 {
        vstd::arithmetic::div_mod::lemma_div_of0(n);
        vstd::arithmetic::div_mod::lemma_small_mod(0, n as nat);
    } else {
        lemma_rr_count(n, t - 1, j);
        vstd::arithmetic::div_mod::lemma_fundamental_div_mod(t - 1, n);
        let q = (t - 1) / n;
        let r = (t - 1) % n;
        vstd::arithmetic::div_mod::lemma_remainder_lower(t - 1, n);
        vstd::arithmetic::div_mod::lemma_remainder_upper(t - 1, n);
        vstd::arithmetic::div_mod::lemma_div_pos_is_pos(t - 1, n);
        if r == n - 1 {
            assert(t == (q + 1) * n + 0) by (nonlinear_arith)
                requires
                    t - 1 == q * n + r,
                    r == n - 1,
            ;
            vstd::arithmetic::div_mod::lemma_fundamental_div_mod_converse(t, n, q + 1, 0);
        } else {
            assert(t == q * n + (r + 1)) by (nonlinear_arith)
                requires
                    t - 1 == q * n + r,
            ;
            vstd::arithmetic::div_mod::lemma_fundamental_div_mod_converse(t, n, q, r + 1);
        }
    }
}

/// Fairness of plain round robin: the first `k * n` picks of a fresh cursor
/// over a snapshot of `n` nodes land on every position exactly `k` times.
pub proof fn lemma_round_robin_fairness(n: int, k: int, j: int)
    requires
        0 < n,
        0 <= j < n,
        0 <= k,
    ensures
        rr_hit_count(n, k * n, j) == k,
{
    assert(0 <= k * n) by (nonlinear_arith)
        requires
            0 <= k && 0 < n,
    ;
    lemma_rr_count(n, k * n, j);
    vstd::arithmetic::div_mod::lemma_mod_multiples_basic(k, n);
    vstd::arithmetic::div_mod::lemma_div_multiples_vanish(k, n);
}

impl BalanceStrategy for RoundRobin {
    open spec fn build_ensures(&self, nodes: Seq<Node>, p: Picker) -> bool {
        p matches Picker::RoundRobin(rp) && rp.nodes@ == nodes && rp.idx == 0
    }

    proof fn build_ensures_implies_bound(&self, nodes: Seq<Node>, p: Picker) {
    }

    fn build_picker(&self, nodes: Vec<Node>) -> (p: Picker) {
        Picker::RoundRobin(RoundRobinPicker { nodes, idx: 0 })
    }
}

} // verus!
