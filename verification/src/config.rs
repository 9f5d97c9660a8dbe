use vstd::prelude::*;

verus! {

/// Static metadata attached to a backend when it is registered.
#[derive(Clone, Debug)]
pub struct NodeMeta {
    pub weight: u32,
}

impl Default for NodeMeta {
    fn default() -> (r: Self)
        ensures
            r.weight == 0,
    {
        NodeMeta { weight: 0 }
    }
}

/// Construction-time defaults for the balancing core.
#[derive(Clone, Debug)]
pub struct BalanceConfig {
    pub default_weight: u32,
}

impl Default for BalanceConfig {
    fn default() -> (r: Self)
        ensures
            r.default_weight == 100,
    {
        BalanceConfig { default_weight: 100 }
    }
}

} // verus!
