use vstd::prelude::*;

pub mod consistent_hash;
pub mod least_connection;
pub mod p2c;
pub mod response_time;
pub mod round_robin;
pub mod weighted_random;
pub mod weighted_round_robin;

pub use consistent_hash::ConsistentHash;
pub use consistent_hash::ConsistentHashPicker;
pub use least_connection::LeastConnPicker;
pub use least_connection::LeastConnection;
pub use p2c::P2cPicker;
pub use p2c::PowerOfTwoChoices;
pub use response_time::ResponseTimeWeighted;
pub use response_time::RtWeightedPicker;
pub use round_robin::RoundRobin;
pub use round_robin::RoundRobinPicker;
pub use weighted_random::WeightedRandom;
pub use weighted_random::WeightedRandomPicker;
pub use weighted_round_robin::WeightedRoundRobin;
pub use weighted_round_robin::WrrPicker;

use crate::error::LoadBalanceError;
use crate::node::clone_nodes;
use crate::node::Node;

verus! {

/// Per-request input to a pick: an optional pre-hashed 64-bit key that
/// hash-requiring strategies use for affinity.
#[derive(Clone, Debug)]
pub struct RequestMetadata {
    pub hash_key: Option<u64>,
}

impl Default for RequestMetadata {
    fn default() -> (r: Self)
        ensures
            r.hash_key is None,
    {
        RequestMetadata { hash_key: None }
    }
}

/// A selector bound to one immutable snapshot of nodes.
///
/// Each variant carries the state of one strategy; `pick` answers which
/// backend handles the next request. The snapshot a picker was built from
/// never changes afterwards; only cursor state does.
pub enum Picker {
    RoundRobin(RoundRobinPicker),
    WeightedRoundRobin(WrrPicker),
    PowerOfTwoChoices(P2cPicker),
    WeightedRandom(WeightedRandomPicker),
    LeastConnection(LeastConnPicker),
    ResponseTimeWeighted(RtWeightedPicker),
    ConsistentHash(ConsistentHashPicker),
}

impl Picker {
    /// The snapshot this picker selects from.
    pub open spec fn snapshot(self) -> Seq<Node> {
        match self {
            Picker::RoundRobin(p) => p.nodes@,
            Picker::WeightedRoundRobin(p) => p.nodes@,
            Picker::PowerOfTwoChoices(p) => p.nodes@,
            Picker::WeightedRandom(p) => p.nodes@,
            Picker::LeastConnection(p) => p.nodes@,
            Picker::ResponseTimeWeighted(p) => p.nodes@,
            Picker::ConsistentHash(p) => p.nodes@,
        }
    }

    /// Internal consistency of the per-strategy state.
    pub open spec fn wf(self) -> bool {
        match self {
            Picker::RoundRobin(p) => true,
            Picker::WeightedRoundRobin(p) => weighted_round_robin::wrr_wf(p),
            Picker::PowerOfTwoChoices(p) => true,
            Picker::WeightedRandom(p) => weighted_random::wr_wf(p),
            Picker::LeastConnection(p) => true,
            Picker::ResponseTimeWeighted(p) => true,
            Picker::ConsistentHash(p) => consistent_hash::ch_wf(p),
        }
    }

    /// Whether this strategy demands `hash_key` on every request.
    pub open spec fn requires_key(self) -> bool {
        match self {
            Picker::RoundRobin(p) => false,
            Picker::WeightedRoundRobin(p) => false,
            Picker::PowerOfTwoChoices(p) => false,
            Picker::WeightedRandom(p) => false,
            Picker::LeastConnection(p) => false,
            Picker::ResponseTimeWeighted(p) => false,
            Picker::ConsistentHash(p) => true,
        }
    }

    /// Choose one node of the snapshot for this request.
    ///
    /// The whole behaviour is `pick_transition`: an empty snapshot yields
    /// exactly `NoAvailableNodes`; a hash-requiring strategy yields exactly
    /// `MissingHashKey` when the key is absent; every successful pick
    /// returns a node present in the snapshot; and the deterministic
    /// strategies' results and next states are fixed exactly.
    pub fn pick(&mut self, req: &RequestMetadata) -> (r: Result<Node, LoadBalanceError>)
        requires
            old(self).wf(),
        ensures
            final(self).wf(),
            pick_transition(*old(self), *final(self), *req, r),
    {
        let ghost pre = *self;
        let r = match self {
            Picker::RoundRobin(p) => p.pick(req),
            Picker::WeightedRoundRobin(p) => {
                proof {
                    if p.nodes@.len() > 0 && p.max_w != 0 {
                        weighted_round_robin::lemma_wrr_search_in_range(
                            p.weights@,
                            p.gcd_w,
                            p.max_w,
                            p.idx,
                            p.cw,
                            (2 * p.nodes@.len() as int) as nat,
                        );
                    }
                }
                p.pick(req)
            },
            Picker::PowerOfTwoChoices(p) => p.pick(req),
            Picker::WeightedRandom(p) => p.pick(req),
            Picker::LeastConnection(p) => p.pick(req),
            Picker::ResponseTimeWeighted(p) => p.pick(req),
            Picker::ConsistentHash(p) => p.pick(req),
        };
        proof {
            assert(pick_transition(pre, *self, *req, r));
        }
        r
    }
}

/// Everything one pick does: how the picker state `post` follows from
/// `pre`, and what the result is, for the given request.
pub open spec fn pick_transition(
    pre: Picker,
    post: Picker,
    req: RequestMetadata,
    r: Result<Node, LoadBalanceError>,
) -> bool {
    &&& post.snapshot() == pre.snapshot()
    &&& post.requires_key() == pre.requires_key()
    &&& (pre.snapshot().len() == 0 <==> r == Err::<Node, LoadBalanceError>(
        LoadBalanceError::NoAvailableNodes,
    ))
    &&& (r is Ok <==> (pre.snapshot().len() > 0 && (pre.requires_key()
        ==> req.hash_key is Some)))
    &&& (pre.snapshot().len() > 0 && pre.requires_key() && req.hash_key is None ==> r == Err::<
        Node,
        LoadBalanceError,
    >(LoadBalanceError::MissingHashKey))
    &&& (r matches Ok(n) ==> exists|i: int|
        0 <= i < pre.snapshot().len() && pre.snapshot()[i] == n)
    &&& (pre matches Picker::RoundRobin(p0) ==> {
        &&& post == Picker::RoundRobin(round_robin::rr_next_state(p0))
        &&& r == round_robin::rr_result(p0)
    })
    &&& (pre matches Picker::WeightedRoundRobin(p0) ==> {
        &&& post == Picker::WeightedRoundRobin(weighted_round_robin::wrr_next_state(p0))
        &&& r == weighted_round_robin::wrr_result(p0)
    })
    &&& (pre matches Picker::ConsistentHash(p0) ==> {
        &&& post == pre
        &&& r == consistent_hash::ch_result(p0, req.hash_key)
    })
    &&& (pre matches Picker::PowerOfTwoChoices(p0) ==> {
        &&& post == pre
        &&& (p0.nodes@.len() == 1 ==> r == Ok::<Node, LoadBalanceError>(p0.nodes@[0]))
    })
    &&& (pre matches Picker::WeightedRandom(p0) ==> {
        &&& post == pre
        &&& (p0.nodes@.len() == 1 ==> r == Ok::<Node, LoadBalanceError>(p0.nodes@[0]))
        &&& (p0.dist is Some && !weighted_random::all_zero(p0.nodes@) ==> (r matches Ok(n)
            ==> n.weight > 0))
    })
    &&& (pre matches Picker::LeastConnection(p0) ==> {
        &&& post == pre
        &&& (p0.nodes@.len() == 1 ==> r == Ok::<Node, LoadBalanceError>(p0.nodes@[0]))
    })
    &&& (pre matches Picker::ResponseTimeWeighted(p0) ==> {
        &&& post == pre
        &&& (p0.nodes@.len() == 1 ==> r == Ok::<Node, LoadBalanceError>(p0.nodes@[0]))
    })
}

/// One selection policy: builds a fresh `Picker` from a node snapshot.
pub trait BalanceStrategy: Sized {
    /// What this strategy's `build_picker` promises about the picker.
    spec fn build_ensures(&self, nodes: Seq<Node>, p: Picker) -> bool;

    /// Whatever a strategy promises, the picker is well formed and bound to
    /// exactly the given snapshot.
    proof fn build_ensures_implies_bound(&self, nodes: Seq<Node>, p: Picker)
        requires
            self.build_ensures(nodes, p),
        ensures
            p.wf(),
            p.snapshot() == nodes,
    ;

    /// Build a picker over `nodes`.
    fn build_picker(&self, nodes: Vec<Node>) -> (p: Picker)
        ensures
            self.build_ensures(nodes@, p),
    ;
}

/// Holds the current node set for one strategy and vends pickers over a
/// stable snapshot of it.
pub struct BaseBalancer<S: BalanceStrategy> {
    pub strategy: S,
    pub nodes: Vec<Node>,
}

impl<S: BalanceStrategy> BaseBalancer<S> {
    /// A balancer with an initially empty node set.
    pub fn new(strategy: S) -> (r: Self)
        ensures
            r.strategy == strategy,
            r.nodes@.len() == 0,
    {
        BaseBalancer { strategy, nodes: Vec::new() }
    }

    /// Replace the node set; pickers built earlier keep their snapshot.
    pub fn update_nodes(&mut self, nodes: Vec<Node>)
        ensures
            final(self).strategy == old(self).strategy,
            final(self).nodes == nodes,
    {
        self.nodes = nodes;
    }

    /// Build a picker over a snapshot of the current node set.
    pub fn picker(&self) -> (p: Picker)
        ensures
            self.strategy.build_ensures(self.nodes@, p),
            p.wf(),
            p.snapshot() == self.nodes@,
    {
        let snapshot = clone_nodes(&self.nodes);
        let p = self.strategy.build_picker(snapshot);
        proof {
            self.strategy.build_ensures_implies_bound(self.nodes@, p);
        }
        p
    }
}

} // verus!
