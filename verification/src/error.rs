use vstd::prelude::*;

verus! {

/// The two failure kinds of the balancing core.
///
/// `NoAvailableNodes` is returned when a pick runs against an empty snapshot
/// or discovery produced an empty instance set; `MissingHashKey` when a
/// hash-requiring strategy received request metadata without a hash key.
#[derive(Clone, Copy, Debug, PartialEq, Eq, Structural)]
pub enum LoadBalanceError {
    NoAvailableNodes,
    MissingHashKey,
}

impl LoadBalanceError {
    /// A short human-readable description of the error.
    pub fn message(&self) -> (r: &'static str)
        ensures
            *self == LoadBalanceError::NoAvailableNodes ==> r@ == "no available nodes"@,
            *self == LoadBalanceError::MissingHashKey ==> r@ == "hash key missing"@,
    {
        match self {
            LoadBalanceError::NoAvailableNodes => "no available nodes",
            LoadBalanceError::MissingHashKey => "hash key missing",
        }
    }
}

} // verus!
