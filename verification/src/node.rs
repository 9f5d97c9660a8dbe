use std::sync::atomic::{AtomicU64, AtomicUsize, Ordering};
use std::sync::Arc;
use vstd::prelude::*;

verus! {

/// Identity of one backend: a stable 64-bit id and its printable address.
///
/// Two records with the same id stand for the same logical backend.
#[derive(Debug)]
pub struct Endpoint {
    pub id: u64,
    pub address: String,
}

impl Clone for Endpoint {
    fn clone(&self) -> (r: Self)
        ensures
            r == *self,
    {
        Endpoint { id: self.id, address: self.address.clone() }
    }
}

/// One backend record: identity, static weight, and shared live counters.
///
/// The counters sit behind shared handles: cloning a `Node` yields a record
/// that observes and updates the same counters, as every handle to one
/// backend must. Their values are updated by many writers without
/// coordination, so nothing is stated about what a load returns.
#[derive(Debug)]
pub struct Node {
    pub endpoint: Endpoint,
    pub weight: u32,
    pub in_flight: Arc<AtomicUsize>,
    pub success: Arc<AtomicU64>,
    pub fail: Arc<AtomicU64>,
    pub last_rtt_ns: Arc<AtomicU64>,
}

/// Relies on std's `Arc::clone`: the returned handle is the same shared value.
#[verifier::external_body]
fn share<T>(cell: &Arc<T>) -> (r: Arc<T>)
    ensures
        r == *cell,
{
    Arc::clone(cell)
}

impl Clone for Node {
    fn clone(&self) -> (r: Self)
        ensures
            r == *self,
    {
        Node {
            endpoint: self.endpoint.clone(),
            weight: self.weight,
            in_flight: share(&self.in_flight),
            success: share(&self.success),
            fail: share(&self.fail),
            last_rtt_ns: share(&self.last_rtt_ns),
        }
    }
}

impl Node {
    /// A fresh record for `endpoint` with all counters starting at zero.
    pub fn new(endpoint: Endpoint, weight: u32) -> (r: Self)
        ensures
            r.endpoint == endpoint,
            r.weight == weight,
    {
        Node {
            endpoint,
            weight,
            in_flight: Arc::new(AtomicUsize::new(0)),
            success: Arc::new(AtomicU64::new(0)),
            fail: Arc::new(AtomicU64::new(0)),
            last_rtt_ns: Arc::new(AtomicU64::new(0)),
        }
    }

    /// A new record under fresh identity metadata that starts from the
    /// current counter values of `self` (the counters are copied, not
    /// shared).
    pub fn clone_with_metadata(&self, endpoint: Endpoint, weight: u32) -> (r: Self)
        ensures
            r.endpoint == endpoint,
            r.weight == weight,
    {
        let node = Node::new(endpoint, weight);
        let in_flight = self.in_flight.load(Ordering::Relaxed);
        let success = self.success.load(Ordering::Relaxed);
        let fail = self.fail.load(Ordering::Relaxed);
        let last_rtt = self.last_rtt_ns.load(Ordering::Relaxed);
        node.in_flight.store(in_flight, Ordering::Relaxed);
        node.success.store(success, Ordering::Relaxed);
        node.fail.store(fail, Ordering::Relaxed);
        node.last_rtt_ns.store(last_rtt, Ordering::Relaxed);
        node
    }
}

/// An element-wise copy of a node list; the copies share their originals'
/// counters.
pub fn clone_nodes(v: &Vec<Node>) -> (r: Vec<Node>)
    ensures
        r@ == v@,
{
    let mut r: Vec<Node> = Vec::new();
    let mut i: usize = 0;
    while i < v.len()
        invariant
            i <= v@.len(),
            r@ == v@.subrange(0, i as int),
        decreases v@.len() - i,
    {
        r.push(v[i].clone());
        proof {
            assert(v@.subrange(0, (i + 1) as int) =~= v@.subrange(0, i as int).push(v@[i as int]));
        }
        i = i + 1;
    }
    proof {
        assert(v@.subrange(0, v@.len() as int) =~= v@);
    }
    r
}

} // verus!
