use std::hash::BuildHasher;
use std::hash::Hasher;
use vstd::prelude::*;

use crate::error::LoadBalanceError;
use crate::hashing::HASH_SEED_A;
use crate::hashing::HASH_SEED_B;
use crate::hashing::HASH_SEED_C;
use crate::hashing::HASH_SEED_D;
use crate::node::Endpoint;
use crate::node::Node;
use crate::strategy::pick_transition;
use crate::strategy::BalanceStrategy;
use crate::strategy::Picker;
use crate::strategy::RequestMetadata;
use crate::table::table_find;
use crate::table::table_has;
use crate::table::table_has_key;
use crate::table::table_put;
use crate::table::table_remove_key;
use crate::table::table_wf;

verus! {

/// One backend instance as the discovery subsystem reports it: an opaque
/// printable address, a static weight, and attached tags (sorted by key by
/// the caller, so that their order is stable).
pub struct InstanceInfo {
    pub address: String,
    pub weight: u32,
    pub tags: Vec<(String, String)>,
}

/// An element-wise copy of a tag list.
fn clone_tags(v: &Vec<(String, String)>) -> (r: Vec<(String, String)>)
    ensures
        r@ == v@,
{
    let mut r: Vec<(String, String)> = Vec::new();
    let mut i: usize = 0;
    while i < v.len()
        invariant
            i <= v@.len(),
            r@ == v@.subrange(0, i as int),
        decreases v@.len() - i,
    {
        let e = &v[i];
        r.push((e.0.clone(), e.1.clone()));
        proof {
            assert(v@.subrange(0, (i + 1) as int) =~= v@.subrange(0, i as int).push(v@[i as int]));
        }
        i = i + 1;
    }
    proof {
        assert(v@.subrange(0, v@.len() as int) =~= v@);
    }
    r
}

impl Clone for InstanceInfo {
    fn clone(&self) -> (r: Self)
        ensures
            r.address@ == self.address@,
            r.weight == self.weight,
            r.tags@ == self.tags@,
    {
        InstanceInfo {
            address: self.address.clone(),
            weight: self.weight,
            tags: clone_tags(&self.tags),
        }
    }
}

/// One logical endpoint a caller resolves: its service name, an optional
/// caller-supplied address, and attached tags (sorted by key by the
/// caller).
pub struct EndpointInfo {
    pub service_name: String,
    pub address: Option<String>,
    pub tags: Vec<(String, String)>,
}

/// A change event from the discovery subsystem: the discovery key it
/// concerns and the full instance list after the change.
pub struct ChangeInfo {
    pub key: String,
    pub all: Vec<InstanceInfo>,
}

/// The views of a tag list.
pub open spec fn tags_view(tags: Seq<(String, String)>) -> Seq<(Seq<char>, Seq<char>)> {
    tags.map(|i: int, t: (String, String)| (t.0@, t.1@))
}

/// The view of an optional address.
pub open spec fn opt_str_view(a: Option<String>) -> Option<Seq<char>> {
    match a {
        Some(s) => Some(s@),
        None => None,
    }
}

/// A node's stable identity: a function of its address and tags alone.
pub uninterp spec fn node_id_of(address: Seq<char>, tags: Seq<(Seq<char>, Seq<char>)>) -> u64;

/// The cache key mix: a function of the service name, the optional
/// caller-supplied address, the discovery key and the endpoint tags.
pub uninterp spec fn cache_key_of(
    service: Seq<char>,
    address: Option<Seq<char>>,
    discovery_key: Seq<char>,
    tags: Seq<(Seq<char>, Seq<char>)>,
) -> u64;

/// The signature of an instance set: a function of the ordered
/// `(address, weight)` pairs alone.
pub uninterp spec fn signature_of(entries: Seq<(Seq<char>, u32)>) -> u64;

/// The stable identity of one instance.
pub open spec fn inst_id(inst: InstanceInfo) -> u64 {
    node_id_of(inst.address@, tags_view(inst.tags@))
}

/// The `(address, weight)` pairs the signature is taken over.
pub open spec fn sig_view(instances: Seq<InstanceInfo>) -> Seq<(Seq<char>, u32)> {
    instances.map(|i: int, inst: InstanceInfo| (inst.address@, inst.weight))
}

/// Relies on ahash (`RandomState::with_seeds`, `AHasher`): with fixed seeds
/// the digest is a function of the written bytes, here the instance address
/// and tags.
#[verifier::external_body]
pub fn instance_node_id(address: &String, tags: &Vec<(String, String)>) -> (r: u64)
    ensures
        r == node_id_of(address@, tags_view(tags@)),
{
    let state = ahash::RandomState::with_seeds(HASH_SEED_A, HASH_SEED_B, HASH_SEED_C, HASH_SEED_D);
    let mut h = state.build_hasher();
    h.write(address.as_bytes());
    for t in tags.iter() { h.write(t.0.as_bytes()); h.write(t.1.as_bytes()); }
    h.finish()
}

/// Relies on ahash (`RandomState::with_seeds`, `AHasher`): with fixed seeds
/// the digest is a function of the written bytes, here the service name,
/// the optional address, the discovery key and the tags.
#[verifier::external_body]
pub fn endpoint_cache_key(
    service: &String,
    address: &Option<String>,
    discovery_key: &String,
    tags: &Vec<(String, String)>,
) -> (r: u64)
    ensures
        r == cache_key_of(service@, opt_str_view(*address), discovery_key@, tags_view(tags@)),
{
    let state = ahash::RandomState::with_seeds(HASH_SEED_A, HASH_SEED_B, HASH_SEED_C, HASH_SEED_D);
    let mut h = state.build_hasher();
    h.write(service.as_bytes());
    match address {
        Some(a) => { h.write_u8(1); h.write(a.as_bytes()); },
        None => h.write_u8(0),
    }
    h.write(discovery_key.as_bytes());
    for t in tags.iter() { h.write(t.0.as_bytes()); h.write(t.1.as_bytes()); }
    h.finish()
}

/// Relies on ahash (`RandomState::with_seeds`, `AHasher`): with fixed seeds
/// the digest is a function of the written bytes, here each instance's
/// address and weight, in the order the set was returned.
#[verifier::external_body]
pub fn instances_signature(instances: &Vec<InstanceInfo>) -> (r: u64)
    ensures
        r == signature_of(sig_view(instances@)),
{
    let state = ahash::RandomState::with_seeds(HASH_SEED_A, HASH_SEED_B, HASH_SEED_C, HASH_SEED_D);
    let mut h = state.build_hasher();
    for inst in instances.iter() { h.write(inst.address.as_bytes()); h.write_u32(inst.weight); }
    h.finish()
}

/// What `sync_instances` promises about the refreshed node vector, given
/// the node map the cache held before.
///
/// Each node carries the identity, address and weight of its instance, and
/// an instance whose id is new in this batch and whose address and weight
/// match the cached record keeps that record, counters and all.
pub open spec fn sync_post(
    old_map: Seq<(u64, Node)>,
    instances: Seq<InstanceInfo>,
    nodes: Seq<Node>,
) -> bool {
    &&& nodes.len() == instances.len()
    &&& forall|i: int|
        0 <= i < instances.len() ==> (#[trigger] nodes[i]).endpoint.id == inst_id(instances[i])
    &&& forall|i: int|
        0 <= i < instances.len() ==> (#[trigger] nodes[i]).endpoint.address@
            == instances[i].address@
    &&& forall|i: int|
        0 <= i < instances.len() ==> (#[trigger] nodes[i]).weight == instances[i].weight
    &&& forall|i: int, n: Node|
        0 <= i < instances.len() && (forall|k: int|
            0 <= k < i ==> inst_id(#[trigger] instances[k]) != inst_id(instances[i]))
            && #[trigger] table_has(old_map, inst_id(instances[i]), n) && n.endpoint.address@
            == instances[i].address@ && n.weight == instances[i].weight ==> nodes[i] == n
}

/// What a refresh promises about the stored node map itself: it holds
/// exactly the batch's ids, and an id that occurs once in the batch keeps
/// its cached record when address and weight are unchanged.
pub open spec fn sync_map_post(
    old_map: Seq<(u64, Node)>,
    instances: Seq<InstanceInfo>,
    new_map: Seq<(u64, Node)>,
) -> bool {
    &&& (forall|id: u64|
        #[trigger] table_has_key(new_map, id) <==> exists|i: int|
            0 <= i < instances.len() && inst_id(#[trigger] instances[i]) == id)
    &&& forall|i: int, n: Node|
        0 <= i < instances.len() && (forall|k: int|
            0 <= k < instances.len() && k != i ==> inst_id(#[trigger] instances[k]) != inst_id(
                instances[i],
            )) && #[trigger] table_has(old_map, inst_id(instances[i]), n) && n.endpoint.address@
            == instances[i].address@ && n.weight == instances[i].weight ==> table_has(
            new_map,
            inst_id(instances[i]),
            n,
        )
}

/// Refreshing twice from the same batch promises no less than refreshing
/// once: the stored-map guarantees chain.
proof fn lemma_sync_map_post_chain(
    a: Seq<(u64, Node)>,
    instances: Seq<InstanceInfo>,
    b: Seq<(u64, Node)>,
    c: Seq<(u64, Node)>,
)
    requires
        sync_map_post(a, instances, b),
        sync_map_post(b, instances, c),
    ensures
        sync_map_post(a, instances, c),
{
    assert forall|i: int, n: Node|
        0 <= i < instances.len() && (forall|k: int|
            0 <= k < instances.len() && k != i ==> inst_id(#[trigger] instances[k]) != inst_id(
                instances[i],
            )) && #[trigger] table_has(a, inst_id(instances[i]), n) && n.endpoint.address@
            == instances[i].address@ && n.weight == instances[i].weight implies table_has(
        c,
        inst_id(instances[i]),
        n,
    ) by {
        assert(table_has(b, inst_id(instances[i]), n));
    }
}

/// Bridges a discovery subsystem to the strategy kernel: a picker cache
/// keyed by the endpoint cache key, a node cache that preserves node
/// identity across rebuilds, and a reverse index from discovery keys to the
/// cache keys that depend on them.
pub struct VoloLoadBalancer<S: BalanceStrategy> {
    pub strategy: S,
    pub picker_cache: Vec<(u64, CacheEntry)>,
    pub node_cache: Vec<(u64, Vec<(u64, Node)>)>,
    pub key_index: Vec<(String, Vec<u64>)>,
    pub next_generation: u64,
}

/// One cached picker: the signature of the instance set it was built from,
/// a generation number that identifies this build, and the picker itself.
pub struct CacheEntry {
    pub signature: u64,
    pub generation: u64,
    pub picker: Picker,
}

/// A node map with distinct keys, each node recorded under its own id.
pub open spec fn node_map_good(m: Seq<(u64, Node)>) -> bool {
    &&& table_wf(m)
    &&& forall|i: int| 0 <= i < m.len() ==> (#[trigger] m[i]).1.endpoint.id == m[i].0
}

/// Distinct discovery keys in the reverse index.
pub open spec fn key_index_wf(m: Seq<(String, Vec<u64>)>) -> bool {
    forall|i: int, j: int|
        0 <= i < j < m.len() ==> (#[trigger] m[i]).0@ != (#[trigger] m[j]).0@
}

/// Whether the reverse index lists `ck` under `key`.
pub open spec fn key_index_has(m: Seq<(String, Vec<u64>)>, key: Seq<char>, ck: u64) -> bool {
    exists|i: int, j: int|
        0 <= i < m.len() && 0 <= j < m[i].1@.len() && m[i].0@ == key && (#[trigger] m[i].1@[j])
            == ck
}

impl<S: BalanceStrategy> VoloLoadBalancer<S> {
    /// Internal consistency: distinct cache keys everywhere, every cached
    /// picker well formed, every node map keyed by its nodes' ids, and
    /// every cached generation below the next one to be handed out.
    pub open spec fn wf(self) -> bool {
        &&& table_wf(self.picker_cache@)
        &&& table_wf(self.node_cache@)
        &&& key_index_wf(self.key_index@)
        &&& forall|i: int|
            0 <= i < self.picker_cache@.len() ==> (#[trigger] self.picker_cache@[i]).1.picker.wf()
        &&& forall|i: int|
            0 <= i < self.picker_cache@.len() ==> (#[trigger] self.picker_cache@[i]).1.generation
                < self.next_generation
        &&& forall|i: int|
            0 <= i < self.node_cache@.len() ==> node_map_good(
                (#[trigger] self.node_cache@[i]).1@,
            )
    }

    /// The node map cached under `ck` (empty when none is).
    pub open spec fn node_map_of(self, ck: u64) -> Seq<(u64, Node)> {
        if table_has_key(self.node_cache@, ck) {
            self.node_cache@[choose|i: int|
                0 <= i < self.node_cache@.len() && (#[trigger] self.node_cache@[i]).0 == ck].1@
        } else {
            Seq::empty()
        }
    }

    /// An adapter with the given strategy and empty caches.
    pub fn new(strategy: S) -> (r: Self)
        ensures
            r.strategy == strategy,
            r.wf(),
            r.picker_cache@.len() == 0,
            r.node_cache@.len() == 0,
            r.key_index@.len() == 0,
    {
        VoloLoadBalancer {
            strategy,
            picker_cache: Vec::new(),
            node_cache: Vec::new(),
            key_index: Vec::new(),
            next_generation: 0,
        }
    }

    /// The cache key of one endpoint under one discovery key.
    pub fn cache_key(&self, endpoint: &EndpointInfo, discovery_key: &String) -> (r: u64)
        ensures
            r == cache_key_of(
                endpoint.service_name@,
                opt_str_view(endpoint.address),
                discovery_key@,
                tags_view(endpoint.tags@),
            ),
    {
        endpoint_cache_key(
            &endpoint.service_name,
            &endpoint.address,
            discovery_key,
            &endpoint.tags,
        )
    }

    /// Refresh the node map cached under `ck` from a discovered instance
    /// list, reusing each cached node whose address and weight are
    /// unchanged (so its counters survive), replacing records whose
    /// metadata changed, creating records for new ids, and purging ids
    /// that vanished. Returns the nodes in the order the instances came.
    pub fn sync_instances(&mut self, ck: u64, instances: &Vec<InstanceInfo>) -> (nodes: Vec<Node>)
        requires
            old(self).wf(),
        ensures
            final(self).wf(),
            final(self).strategy == old(self).strategy,
            final(self).picker_cache == old(self).picker_cache,
            final(self).key_index == old(self).key_index,
            final(self).next_generation == old(self).next_generation,
            sync_post(old(self).node_map_of(ck), instances@, nodes@),
            forall|id: u64|
                #[trigger] table_has_key(final(self).node_map_of(ck), id) <==> exists|i: int|
                    0 <= i < instances@.len() && inst_id(#[trigger] instances@[i]) == id,
            forall|i: int|
                0 <= i < instances@.len() && (forall|k: int|
                    0 <= k < instances@.len() && k != i ==> inst_id(#[trigger] instances@[k])
                        != inst_id(instances@[i])) ==> table_has(
                    final(self).node_map_of(ck),
                    inst_id(#[trigger] instances@[i]),
                    nodes@[i],
                ),
            sync_map_post(old(self).node_map_of(ck), instances@, final(self).node_map_of(ck)),
            forall|ck2: u64|
                ck2 != ck ==> final(self).node_map_of(ck2) == old(self).node_map_of(ck2),
    {
        let ghost old_map_ghost = old(self).node_map_of(ck);
        let found = table_find(&self.node_cache, ck);
        let old_map: Vec<(u64, Node)> = match found {
            Some(i) => clone_node_map(&self.node_cache[i].1),
            None => Vec::new(),
        };
        proof {
            match found {
                Some(i) => {
                    let j = choose|j: int|
                        0 <= j < self.node_cache@.len() && (#[trigger] self.node_cache@[j]).0
                            == ck;
                    assert(j == i as int);
                    assert(old_map@ == old_map_ghost);
                },
                None => {
                    assert(old_map@ =~= old_map_ghost);
                },
            }
            assert(node_map_good(old_map@));
        }
        let mut keep: Vec<(u64, Node)> = Vec::new();
        let mut nodes: Vec<Node> = Vec::new();
        let mut i: usize = 0;
        while i < instances.len()
            invariant
                self == old(self),
                i <= instances@.len(),
                old_map@ == old_map_ghost,
                node_map_good(old_map@),
                node_map_good(keep@),
                nodes@.len() == i as int,
                forall|id: u64| #[trigger]
                    table_has_key(keep@, id) <==> exists|k: int|
                        0 <= k < i && inst_id(#[trigger] instances@[k]) == id,
                forall|j: int|
                    0 <= j < i ==> (#[trigger] nodes@[j]).endpoint.id == inst_id(instances@[j]),
                forall|j: int|
                    0 <= j < i ==> (#[trigger] nodes@[j]).endpoint.address@
                        == instances@[j].address@,
                forall|j: int|
                    0 <= j < i ==> (#[trigger] nodes@[j]).weight == instances@[j].weight,
                forall|j: int, n: Node|
                    0 <= j < i && (forall|k: int|
                        0 <= k < j ==> inst_id(#[trigger] instances@[k]) != inst_id(instances@[j]))
                        && #[trigger] table_has(old_map@, inst_id(instances@[j]), n)
                        && n.endpoint.address@ == instances@[j].address@ && n.weight
                        == instances@[j].weight ==> nodes@[j] == n,
                forall|j: int|
                    0 <= j < i && (forall|k: int|
                        0 <= k < i && k != j ==> inst_id(#[trigger] instances@[k]) != inst_id(
                            instances@[j],
                        )) ==> table_has(keep@, inst_id(#[trigger] instances@[j]), nodes@[j]),
            decreases instances@.len() - i,
        {
            let inst = &instances[i];
            let id = instance_node_id(&inst.address, &inst.tags);
            let keep_found = table_find(&keep, id);
            let candidate: Option<Node> = match keep_found {
                Some(k) => Some(keep[k].1.clone()),
                None => {
                    let old_found = table_find(&old_map, id);
                    match old_found {
                        Some(k) => Some(old_map[k].1.clone()),
                        None => None,
                    }
                },
            };
            proof {
                // provenance: an id not seen earlier in the batch falls back
                // to exactly what the cached map held under it
                if !table_has_key(keep@, id) {
                    assert forall|n: Node| table_has(old_map@, id, n) implies candidate == Some(
                        n,
                    ) by {
                        let j = choose|j: int| 0 <= j < old_map@.len() && old_map@[j] == (id, n);
                    }
                }
                assert(candidate matches Some(n) ==> n.endpoint.id == id);
            }
            let node = match candidate {
                Some(n) => {
                    if n.weight == inst.weight && n.endpoint.address == inst.address {
                        n
                    } else {
                        n.clone_with_metadata(
                            Endpoint { id, address: inst.address.clone() },
                            inst.weight,
                        )
                    }
                },
                None => Node::new(Endpoint { id, address: inst.address.clone() }, inst.weight),
            };
            let ghost keep_prev = keep@;
            let node_kept = node.clone();
            let ghost node_kept_g = node_kept;
            table_put(&mut keep, id, node_kept);
            nodes.push(node);
            proof {
                assert(nodes@[i as int] == node);
                assert(node.endpoint.id == id);
                assert(node_kept_g == node);
                assert(table_has(keep@, id, node_kept_g));
                assert forall|j: int|
                    0 <= j < i + 1 && (forall|k: int|
                        0 <= k < i + 1 && k != j ==> inst_id(#[trigger] instances@[k]) != inst_id(
                            instances@[j],
                        )) implies table_has(
                    keep@,
                    inst_id(#[trigger] instances@[j]),
                    nodes@[j],
                ) by {
                    if j < i {
                        assert(inst_id(instances@[i as int]) != inst_id(instances@[j]));
                        assert(table_has(keep_prev, inst_id(instances@[j]), nodes@[j]));
                    }
                }
                let jh = choose|jh: int| 0 <= jh < keep@.len() && keep@[jh] == (id, node_kept_g);
                assert forall|i2: int| 0 <= i2 < keep@.len() implies (#[trigger] keep@[i2]).1
                    .endpoint.id == keep@[i2].0 by {
                    let e = keep@[i2];
                    if e.0 == id {
                        assert(i2 == jh);
                    } else {
                        assert(table_has(keep@, e.0, e.1));
                        assert(table_has(keep_prev, e.0, e.1));
                        let j3 = choose|j3: int|
                            0 <= j3 < keep_prev.len() && keep_prev[j3] == (e.0, e.1);
                    }
                }
            }
            i = i + 1;
        }
        let ghost keep_full: Vec<(u64, Node)> = keep;
        let ghost keep_ghost = keep@;
        table_put(&mut self.node_cache, ck, keep);
        proof {
            assert(table_has(self.node_cache@, ck, keep_full));
            let jh = choose|jh: int|
                0 <= jh < self.node_cache@.len() && self.node_cache@[jh] == (ck, keep_full);
            assert(table_has_key(self.node_cache@, ck));
            let j = choose|j: int|
                0 <= j < self.node_cache@.len() && (#[trigger] self.node_cache@[j]).0 == ck;
            assert(j == jh);
            assert(final(self).node_map_of(ck) == keep_ghost);
            assert forall|ck2: u64| ck2 != ck implies final(self).node_map_of(ck2) == old(
                self,
            ).node_map_of(ck2) by {
                if table_has_key(self.node_cache@, ck2) {
                    let a = choose|a: int|
                        0 <= a < self.node_cache@.len() && (#[trigger] self.node_cache@[a]).0
                            == ck2;
                    assert(table_has(self.node_cache@, ck2, self.node_cache@[a].1));
                    assert(table_has(old(self).node_cache@, ck2, self.node_cache@[a].1));
                    let b = choose|b: int|
                        0 <= b < old(self).node_cache@.len() && old(self).node_cache@[b] == (
                        ck2,
                        self.node_cache@[a].1,
                        );
                    assert(table_has_key(old(self).node_cache@, ck2));
                    let c = choose|c: int|
                        0 <= c < old(self).node_cache@.len() && (#[trigger] old(
                            self,
                        ).node_cache@[c]).0 == ck2;
                    assert(c == b);
                } else {
                    if table_has_key(old(self).node_cache@, ck2) {
                        let a = choose|a: int|
                            0 <= a < old(self).node_cache@.len() && (#[trigger] old(
                                self,
                            ).node_cache@[a]).0 == ck2;
                        assert(table_has(old(self).node_cache@, ck2, old(self).node_cache@[a].1));
                        assert(table_has(self.node_cache@, ck2, old(self).node_cache@[a].1));
                    }
                }
            }
            assert forall|i2: int|
                0 <= i2 < instances@.len() && (forall|k: int|
                    0 <= k < instances@.len() && k != i2 ==> inst_id(#[trigger] instances@[k])
                        != inst_id(instances@[i2])) implies table_has(
                final(self).node_map_of(ck),
                inst_id(#[trigger] instances@[i2]),
                nodes@[i2],
            ) by {
                assert(table_has(keep_ghost, inst_id(instances@[i2]), nodes@[i2]));
            }
            assert(sync_map_post(
                old(self).node_map_of(ck),
                instances@,
                final(self).node_map_of(ck),
            )) by {
                assert forall|i2: int, n: Node|
                    0 <= i2 < instances@.len() && (forall|k: int|
                        0 <= k < instances@.len() && k != i2 ==> inst_id(#[trigger] instances@[k])
                            != inst_id(instances@[i2])) && #[trigger] table_has(
                        old(self).node_map_of(ck),
                        inst_id(instances@[i2]),
                        n,
                    ) && n.endpoint.address@ == instances@[i2].address@ && n.weight
                    == instances@[i2].weight implies table_has(
                    final(self).node_map_of(ck),
                    inst_id(instances@[i2]),
                    n,
                ) by {
                    assert(nodes@[i2] == n);
                    assert(table_has(keep_ghost, inst_id(instances@[i2]), nodes@[i2]));
                }
            }
            assert forall|i2: int| 0 <= i2 < self.node_cache@.len() implies node_map_good(
                (#[trigger] self.node_cache@[i2]).1@,
            ) by {
                let e = self.node_cache@[i2];
                if e.0 == ck {
                    assert(i2 == jh);
                } else {
                    assert(table_has(self.node_cache@, e.0, e.1));
                    assert(table_has(old(self).node_cache@, e.0, e.1));
                    let j3 = choose|j3: int|
                        0 <= j3 < old(self).node_cache@.len() && old(self).node_cache@[j3] == (
                        e.0,
                        e.1,
                        );
                }
            }
        }
        nodes
    }

    /// The generation of the picker cached under `ck`, if any: the fast
    /// path, taken before any discovery call.
    pub fn lookup_picker(&self, ck: u64) -> (r: Option<u64>)
        requires
            self.wf(),
        ensures
            r is None <==> !table_has_key(self.picker_cache@, ck),
            forall|e: CacheEntry|
                #[trigger] table_has(self.picker_cache@, ck, e) ==> r == Some(e.generation),
    {
        let found = table_find(&self.picker_cache, ck);
        match found {
            Some(i) => {
                let g = self.picker_cache[i].1.generation;
                proof {
                    assert forall|e: CacheEntry| table_has(self.picker_cache@, ck, e) implies g
                        == e.generation by {
                        let j = choose|j: int|
                            0 <= j < self.picker_cache@.len() && self.picker_cache@[j] == (ck, e);
                        assert(j == i);
                    }
                    assert(table_has_key(self.picker_cache@, ck));
                }
                Some(g)
            },
            None => {
                proof {
                    assert forall|e: CacheEntry| !table_has(self.picker_cache@, ck, e) by {
                        if table_has(self.picker_cache@, ck, e) {
                            let j = choose|j: int|
                                0 <= j < self.picker_cache@.len() && self.picker_cache@[j] == (
                                ck,
                                e,
                                );
                        }
                    }
                }
                None
            },
        }
    }

    /// Serve one endpoint resolution from the cache or build a fresh
    /// picker: a cached picker whose instance-set signature is unchanged is
    /// returned as it is (its cursor state survives); otherwise an empty
    /// instance set is refused, and a non-empty one is synced into the node
    /// cache (preserving unchanged nodes) and a new picker is built, cached
    /// and indexed under the discovery key. Returns the generation that
    /// identifies the picker build.
    pub fn get_picker(
        &mut self,
        endpoint: &EndpointInfo,
        discovery_key: &String,
        instances: &Vec<InstanceInfo>,
    ) -> (r: Result<u64, LoadBalanceError>)
        requires
            old(self).wf(),
            // one build per call: a u64 build counter cannot be exhausted
            old(self).next_generation < u64::MAX,
        ensures
            final(self).wf(),
            final(self).strategy == old(self).strategy,
            ({
                let ck = cache_key_of(
                    endpoint.service_name@,
                    opt_str_view(endpoint.address),
                    discovery_key@,
                    tags_view(endpoint.tags@),
                );
                let sig = signature_of(sig_view(instances@));
                let hit = exists|e: CacheEntry|
                    #[trigger] table_has(old(self).picker_cache@, ck, e) && e.signature == sig;
                &&& (forall|e: CacheEntry|
                    #[trigger] table_has(old(self).picker_cache@, ck, e) && e.signature == sig
                        ==> (*final(self) == *old(self) && r == Ok::<u64, LoadBalanceError>(
                        e.generation,
                    )))
                &&& (r is Ok <==> (hit || instances@.len() > 0))
                &&& (!hit && instances@.len() == 0 ==> r == Err::<u64, LoadBalanceError>(
                    LoadBalanceError::NoAvailableNodes,
                ) && *final(self) == *old(self))
                &&& (!hit && instances@.len() > 0 ==> exists|e2: CacheEntry, ns: Seq<Node>|
                    {
                        &&& #[trigger] table_has(final(self).picker_cache@, ck, e2)
                        &&& #[trigger] sync_post(old(self).node_map_of(ck), instances@, ns)
                        &&& e2.signature == sig
                        &&& e2.generation == old(self).next_generation
                        &&& r == Ok::<u64, LoadBalanceError>(e2.generation)
                        &&& e2.picker.wf()
                        &&& old(self).strategy.build_ensures(ns, e2.picker)
                        &&& e2.picker.snapshot() == ns
                        &&& key_index_has(final(self).key_index@, discovery_key@, ck)
                    })
                &&& (!hit && instances@.len() > 0 ==> final(self).next_generation == old(
                    self,
                ).next_generation + 1)
            }),
    {
        let ck = self.cache_key(endpoint, discovery_key);
        let sig = instances_signature(instances);
        let found = table_find(&self.picker_cache, ck);
        let hit_generation: Option<u64> = match found {
            Some(i) => {
                proof {
                    assert(self.picker_cache@[i as int] == (
                        ck,
                        self.picker_cache@[i as int].1,
                    ));
                    assert(table_has(self.picker_cache@, ck, self.picker_cache@[i as int].1));
                    assert forall|e: CacheEntry| table_has(self.picker_cache@, ck, e) implies e
                        == self.picker_cache@[i as int].1 by {
                        let j = choose|j: int|
                            0 <= j < self.picker_cache@.len() && self.picker_cache@[j] == (ck, e);
                        assert(j == i as int);
                    }
                }
                let e = &self.picker_cache[i].1;
                if e.signature == sig {
                    Some(e.generation)
                } else {
                    None
                }
            },
            None => {
                proof {
                    assert forall|e: CacheEntry| !table_has(self.picker_cache@, ck, e) by {
                        if table_has(self.picker_cache@, ck, e) {
                            let j = choose|j: int|
                                0 <= j < self.picker_cache@.len() && self.picker_cache@[j] == (
                                ck,
                                e,
                                );
                        }
                    }
                }
                None
            },
        };
        if let Some(g) = hit_generation {
            return Ok(g);
        }
        if instances.len() == 0 {
            return Err(LoadBalanceError::NoAvailableNodes);
        }
        let nodes = self.sync_instances(ck, instances);
        let ghost ns = nodes@;
        let p = self.strategy.build_picker(nodes);
        proof {
            self.strategy.build_ensures_implies_bound(ns, p);
        }
        let generation = self.next_generation;
        self.next_generation = generation + 1;
        let entry = CacheEntry { signature: sig, generation, picker: p };
        let ghost entry_g = entry;
        let ghost cache_prev = self.picker_cache@;
        table_put(&mut self.picker_cache, ck, entry);
        index_add(&mut self.key_index, discovery_key, ck);
        proof {
            assert(table_has(self.picker_cache@, ck, entry_g));
            let jh = choose|jh: int|
                0 <= jh < self.picker_cache@.len() && self.picker_cache@[jh] == (ck, entry_g);
            assert forall|i2: int| 0 <= i2 < self.picker_cache@.len() implies ((#[trigger] self
                .picker_cache@[i2]).1.picker.wf() && self.picker_cache@[i2].1.generation
                < self.next_generation) by {
                let e = self.picker_cache@[i2];
                if e.0 == ck {
                    assert(i2 == jh);
                } else {
                    assert(table_has(self.picker_cache@, e.0, e.1));
                    assert(table_has(cache_prev, e.0, e.1));
                    let j3 = choose|j3: int|
                        0 <= j3 < cache_prev.len() && cache_prev[j3] == (e.0, e.1);
                }
            }
        }
        Ok(generation)
    }

    /// One selection through the picker cached under `ck`, with the given
    /// request metadata; an unknown cache key reports no available nodes.
    /// Only the cached picker's cursor state changes, and result and new
    /// cursor follow the picker's own `pick_transition` exactly.
    pub fn pick_from(&mut self, ck: u64, req: &RequestMetadata) -> (r: Result<
        Node,
        LoadBalanceError,
    >)
        requires
            old(self).wf(),
        ensures
            final(self).wf(),
            final(self).strategy == old(self).strategy,
            final(self).node_cache == old(self).node_cache,
            final(self).key_index == old(self).key_index,
            !table_has_key(old(self).picker_cache@, ck) ==> (r == Err::<Node, LoadBalanceError>(
                LoadBalanceError::NoAvailableNodes,
            ) && *final(self) == *old(self)),
            forall|e: CacheEntry|
                #[trigger] table_has(old(self).picker_cache@, ck, e) ==> {
                    &&& (r is Ok <==> (e.picker.snapshot().len() > 0 && (e.picker.requires_key()
                        ==> req.hash_key is Some)))
                    &&& (e.picker.snapshot().len() == 0 <==> r == Err::<Node, LoadBalanceError>(
                        LoadBalanceError::NoAvailableNodes,
                    ))
                    &&& (e.picker.snapshot().len() > 0 && e.picker.requires_key()
                        && req.hash_key is None ==> r == Err::<Node, LoadBalanceError>(
                        LoadBalanceError::MissingHashKey,
                    ))
                    &&& (r matches Ok(n) ==> exists|j: int|
                        0 <= j < e.picker.snapshot().len() && e.picker.snapshot()[j] == n)
                    &&& (exists|e2: CacheEntry|
                        #[trigger] table_has(final(self).picker_cache@, ck, e2) && e2.signature
                            == e.signature && e2.generation == e.generation && pick_transition(
                            e.picker,
                            e2.picker,
                            *req,
                            r,
                        ))
                },
            forall|k2: u64, v2: CacheEntry|
                k2 != ck ==> (table_has(final(self).picker_cache@, k2, v2) <==> table_has(
                    old(self).picker_cache@,
                    k2,
                    v2,
                )),
    {
        let found = table_find(&self.picker_cache, ck);
        let i = match found {
            Some(i) => i,
            None => {
                proof {
                    assert forall|e: CacheEntry| !table_has(self.picker_cache@, ck, e) by {
                        if table_has(self.picker_cache@, ck, e) {
                            let j = choose|j: int|
                                0 <= j < self.picker_cache@.len() && self.picker_cache@[j] == (
                                ck,
                                e,
                                );
                        }
                    }
                }
                return Err(LoadBalanceError::NoAvailableNodes);
            },
        };
        let mut pair = self.picker_cache.remove(i);
        proof {
            assert(pair.0 == ck);
        }
        let r = pair.1.picker.pick(req);
        let ghost pair_g = pair;
        self.picker_cache.insert(i, pair);
        proof {
            assert(pair_g.0 == ck);
            assert(self.picker_cache@ =~= old(self).picker_cache@.update(i as int, pair_g));
            assert(self.picker_cache@[i as int] == (ck, pair_g.1));
            assert forall|e: CacheEntry| table_has(old(self).picker_cache@, ck, e) implies e == old(
                self,
            ).picker_cache@[i as int].1 by {
                let j = choose|j: int|
                    0 <= j < old(self).picker_cache@.len() && old(self).picker_cache@[j] == (ck, e);
                assert(j == i);
            }
            assert(table_has(self.picker_cache@, ck, pair_g.1));
            assert forall|i2: int| 0 <= i2 < self.picker_cache@.len() implies (#[trigger] self
                .picker_cache@[i2]).1.picker.wf() by {
                if i2 != i {
                    assert(self.picker_cache@[i2] == old(self).picker_cache@[i2]);
                }
            }
            assert forall|k2: u64, v2: CacheEntry| k2 != ck implies (table_has(
                self.picker_cache@,
                k2,
                v2,
            ) <==> table_has(old(self).picker_cache@, k2, v2)) by {
                if table_has(self.picker_cache@, k2, v2) {
                    let j = choose|j: int|
                        0 <= j < self.picker_cache@.len() && self.picker_cache@[j] == (k2, v2);
                    assert(j != i);
                    assert(old(self).picker_cache@[j] == (k2, v2));
                }
                if table_has(old(self).picker_cache@, k2, v2) {
                    let j = choose|j: int|
                        0 <= j < old(self).picker_cache@.len() && old(self).picker_cache@[j] == (
                        k2,
                        v2,
                        );
                    assert(j != i);
                    assert(self.picker_cache@[j] == (k2, v2));
                }
            }
        }
        r
    }

    /// Handle one discovery change event: refresh the node cache of every
    /// cache key that depends on the changed discovery key (unchanged nodes
    /// keep their records and counters), evict their cached pickers, and
    /// drop the reverse-index entry. Entries of other cache keys and other
    /// discovery keys are untouched.
    pub fn rebalance(&mut self, change: &ChangeInfo)
        requires
            old(self).wf(),
        ensures
            final(self).wf(),
            final(self).strategy == old(self).strategy,
            final(self).next_generation == old(self).next_generation,
            !key_index_has_key(final(self).key_index@, change.key@),
            forall|ck: u64|
                #[trigger] key_index_has(old(self).key_index@, change.key@, ck) ==> (
                !table_has_key(final(self).picker_cache@, ck) && sync_map_post(
                    old(self).node_map_of(ck),
                    change.all@,
                    final(self).node_map_of(ck),
                )),
            forall|k2: u64, v2: CacheEntry|
                !key_index_has(old(self).key_index@, change.key@, k2) ==> (table_has(
                    final(self).picker_cache@,
                    k2,
                    v2,
                ) <==> table_has(old(self).picker_cache@, k2, v2)),
            forall|ck2: u64|
                !key_index_has(old(self).key_index@, change.key@, ck2)
                    ==> final(self).node_map_of(ck2) == old(self).node_map_of(ck2),
            forall|key2: Seq<char>, c2: u64|
                key2 != change.key@ ==> (key_index_has(final(self).key_index@, key2, c2)
                    <==> key_index_has(old(self).key_index@, key2, c2)),
    {
        let cks = index_take(&mut self.key_index, &change.key);
        let ghost mid = *self;
        let mut i: usize = 0;
        while i < cks.len()
            invariant
                self.wf(),
                self.strategy == old(self).strategy,
                self.next_generation == old(self).next_generation,
                self.key_index == mid.key_index,
                i <= cks@.len(),
                forall|j: int| 0 <= j < i ==> !table_has_key(self.picker_cache@, cks@[j]),
                forall|j: int|
                    0 <= j < i ==> sync_map_post(
                        old(self).node_map_of(#[trigger] cks@[j]),
                        change.all@,
                        self.node_map_of(cks@[j]),
                    ),
                forall|k2: u64, v2: CacheEntry|
                    (forall|j: int| 0 <= j < i ==> cks@[j] != k2) ==> (table_has(
                        self.picker_cache@,
                        k2,
                        v2,
                    ) <==> table_has(old(self).picker_cache@, k2, v2)),
                forall|ck2: u64|
                    (forall|j: int| 0 <= j < i ==> cks@[j] != ck2) ==> self.node_map_of(ck2)
                        == old(self).node_map_of(ck2),
            decreases cks@.len() - i,
        {
            let ck = cks[i];
            let ghost before = *self;
            let _nodes = self.sync_instances(ck, &change.all);
            let ghost cache_prev = self.picker_cache@;
            table_remove_key(&mut self.picker_cache, ck);
            proof {
                assert forall|j: int| 0 <= j <= i implies !table_has_key(
                    self.picker_cache@,
                    cks@[j],
                ) by {
                    if cks@[j] != ck {
                        if table_has_key(self.picker_cache@, cks@[j]) {
                            let a = choose|a: int|
                                0 <= a < self.picker_cache@.len() && (#[trigger] self
                                    .picker_cache@[a]).0 == cks@[j];
                            assert(table_has(self.picker_cache@, cks@[j], self.picker_cache@[a].1));
                            assert(table_has(cache_prev, cks@[j], self.picker_cache@[a].1));
                            let b = choose|b: int|
                                0 <= b < cache_prev.len() && cache_prev[b] == (
                                cks@[j],
                                self.picker_cache@[a].1,
                                );
                        }
                    }
                }
                assert forall|i2: int| 0 <= i2 < self.picker_cache@.len() implies ((
                #[trigger] self.picker_cache@[i2]).1.picker.wf() && self.picker_cache@[i2].1
                    .generation < self.next_generation) by {
                    let e = self.picker_cache@[i2];
                    assert(table_has(self.picker_cache@, e.0, e.1));
                    assert(e.0 != ck);
                    assert(table_has(cache_prev, e.0, e.1));
                    let j3 = choose|j3: int|
                        0 <= j3 < cache_prev.len() && cache_prev[j3] == (e.0, e.1);
                }
                assert forall|j: int| 0 <= j <= i implies sync_map_post(
                    old(self).node_map_of(#[trigger] cks@[j]),
                    change.all@,
                    self.node_map_of(cks@[j]),
                ) by {
                    if cks@[j] == ck {
                        if exists|j2: int| 0 <= j2 < i && cks@[j2] == ck {
                            lemma_sync_map_post_chain(
                                old(self).node_map_of(ck),
                                change.all@,
                                before.node_map_of(ck),
                                self.node_map_of(ck),
                            );
                        } else {
                            assert(before.node_map_of(ck) == old(self).node_map_of(ck));
                        }
                    } else {
                        assert(self.node_map_of(cks@[j]) == before.node_map_of(cks@[j]));
                    }
                }
            }
            i = i + 1;
        }
        proof {
            assert forall|ck: u64| #[trigger] key_index_has(
                old(self).key_index@,
                change.key@,
                ck,
            ) implies (!table_has_key(final(self).picker_cache@, ck) && sync_map_post(
                old(self).node_map_of(ck),
                change.all@,
                final(self).node_map_of(ck),
            )) by {
                assert(cks@.contains(ck));
                let j = choose|j: int| 0 <= j < cks@.len() && cks@[j] == ck;
            }
            assert forall|k2: u64, v2: CacheEntry| !key_index_has(
                old(self).key_index@,
                change.key@,
                k2,
            ) implies (table_has(final(self).picker_cache@, k2, v2) <==> table_has(
                old(self).picker_cache@,
                k2,
                v2,
            )) by {
                assert forall|j: int| 0 <= j < cks@.len() implies cks@[j] != k2 by {
                    if cks@[j] == k2 {
                        assert(cks@.contains(k2));
                    }
                }
            }
            assert forall|ck2: u64| !key_index_has(
                old(self).key_index@,
                change.key@,
                ck2,
            ) implies final(self).node_map_of(ck2) == old(self).node_map_of(ck2) by {
                assert forall|j: int| 0 <= j < cks@.len() implies cks@[j] != ck2 by {
                    if cks@[j] == ck2 {
                        assert(cks@.contains(ck2));
                    }
                }
            }
        }
    }
}

/// Iterates addresses drawn from the picker cached under one cache key:
/// each advance performs one pick with empty request metadata, and a failed
/// pick ends the iteration.
pub struct VoloInstanceIter {
    pub key: u64,
}

impl VoloInstanceIter {
    /// An iterator over the picker cached under `key`.
    pub fn new(key: u64) -> (r: Self)
        ensures
            r.key == key,
    {
        VoloInstanceIter { key }
    }

    /// The next address: exactly one pick with empty request metadata
    /// against the cached picker; a successful pick yields that node's
    /// address, a failed pick ends the iteration.
    pub fn next<S: BalanceStrategy>(&self, lb: &mut VoloLoadBalancer<S>) -> (r: Option<String>)
        requires
            old(lb).wf(),
        ensures
            final(lb).wf(),
            final(lb).strategy == old(lb).strategy,
            !table_has_key(old(lb).picker_cache@, self.key) ==> (r is None && *final(lb) == *old(
                lb,
            )),
            forall|e: CacheEntry|
                #[trigger] table_has(old(lb).picker_cache@, self.key, e) ==> {
                    &&& (r is Some <==> (e.picker.snapshot().len() > 0
                        && !e.picker.requires_key()))
                    &&& (r matches Some(a) ==> exists|j: int|
                        0 <= j < e.picker.snapshot().len() && (#[trigger] e.picker.snapshot()[j])
                            .endpoint.address@ == a@)
                    &&& (exists|e2: CacheEntry, res: Result<Node, LoadBalanceError>|
                        {
                            &&& table_has(final(lb).picker_cache@, self.key, e2)
                            &&& e2.signature == e.signature
                            &&& e2.generation == e.generation
                            &&& #[trigger] pick_transition(
                                e.picker,
                                e2.picker,
                                RequestMetadata { hash_key: None },
                                res,
                            )
                            &&& (res matches Ok(n) ==> (r matches Some(a) && a@
                                == n.endpoint.address@))
                            &&& (res is Err ==> r is None)
                        })
                },
    {
        let req = RequestMetadata { hash_key: None };
        let picked = lb.pick_from(self.key, &req);
        let ghost picked_g = picked;
        let r = match picked {
            Ok(n) => Some(n.endpoint.address),
            Err(_) => None,
        };
        proof {
            if table_has_key(old(lb).picker_cache@, self.key) {
                let a = choose|a: int|
                    0 <= a < old(lb).picker_cache@.len() && (#[trigger] old(
                        lb,
                    ).picker_cache@[a]).0 == self.key;
                assert(table_has(
                    old(lb).picker_cache@,
                    self.key,
                    old(lb).picker_cache@[a].1,
                ));
                assert forall|e: CacheEntry| #[trigger] table_has(
                    old(lb).picker_cache@,
                    self.key,
                    e,
                ) implies (exists|e2: CacheEntry, res: Result<Node, LoadBalanceError>|
                    {
                        &&& table_has(final(lb).picker_cache@, self.key, e2)
                        &&& e2.signature == e.signature
                        &&& e2.generation == e.generation
                        &&& #[trigger] pick_transition(
                            e.picker,
                            e2.picker,
                            RequestMetadata { hash_key: None },
                            res,
                        )
                        &&& (res matches Ok(n) ==> (r matches Some(a2) && a2@
                            == n.endpoint.address@))
                        &&& (res is Err ==> r is None)
                    }) by {
                    let e2 = choose|e2: CacheEntry|
                        #[trigger] table_has(final(lb).picker_cache@, self.key, e2)
                            && e2.signature == e.signature && e2.generation == e.generation
                            && pick_transition(e.picker, e2.picker, req, picked_g);
                    assert(table_has(final(lb).picker_cache@, self.key, e2) && e2.signature
                        == e.signature && e2.generation == e.generation && pick_transition(
                        e.picker,
                        e2.picker,
                        RequestMetadata { hash_key: None },
                        picked_g,
                    ) && (picked_g matches Ok(n) ==> (r matches Some(a2) && a2@
                        == n.endpoint.address@)) && (picked_g is Err ==> r is None));
                }
            }
        }
        r
    }
}

/// An adapter that selects with plain round robin.
pub fn round_robin() -> (r: VoloLoadBalancer<crate::strategy::RoundRobin>)
    ensures
        r.wf(),
        r.picker_cache@.len() == 0,
{
    VoloLoadBalancer::new(crate::strategy::RoundRobin)
}

/// An adapter that selects with smooth weighted round robin.
pub fn weighted_round_robin() -> (r: VoloLoadBalancer<crate::strategy::WeightedRoundRobin>)
    ensures
        r.wf(),
        r.picker_cache@.len() == 0,
{
    VoloLoadBalancer::new(crate::strategy::WeightedRoundRobin)
}

/// An adapter that selects with power of two choices.
pub fn power_of_two_choices() -> (r: VoloLoadBalancer<crate::strategy::PowerOfTwoChoices>)
    ensures
        r.wf(),
        r.picker_cache@.len() == 0,
{
    VoloLoadBalancer::new(crate::strategy::PowerOfTwoChoices)
}

/// An adapter that selects weighted-randomly.
pub fn weighted_random() -> (r: VoloLoadBalancer<crate::strategy::WeightedRandom>)
    ensures
        r.wf(),
        r.picker_cache@.len() == 0,
{
    VoloLoadBalancer::new(crate::strategy::WeightedRandom)
}

/// An adapter that selects the least-connected node.
pub fn least_connection() -> (r: VoloLoadBalancer<crate::strategy::LeastConnection>)
    ensures
        r.wf(),
        r.picker_cache@.len() == 0,
{
    VoloLoadBalancer::new(crate::strategy::LeastConnection)
}

/// An adapter that selects by response-time score.
pub fn response_time_weighted() -> (r: VoloLoadBalancer<crate::strategy::ResponseTimeWeighted>)
    ensures
        r.wf(),
        r.picker_cache@.len() == 0,
{
    VoloLoadBalancer::new(crate::strategy::ResponseTimeWeighted)
}

/// An adapter that selects by consistent hashing, with the default virtual
/// factor.
pub fn consistent_hash() -> (r: VoloLoadBalancer<crate::strategy::ConsistentHash>)
    ensures
        r.wf(),
        r.picker_cache@.len() == 0,
        r.strategy.virtual_factor == 10,
{
    VoloLoadBalancer::new(crate::strategy::ConsistentHash { virtual_factor: 10 })
}

/// Whether the reverse index holds any entry under this discovery key.
pub open spec fn key_index_has_key(m: Seq<(String, Vec<u64>)>, key: Seq<char>) -> bool {
    exists|i: int| 0 <= i < m.len() && (#[trigger] m[i]).0@ == key
}

/// Whether a cache-key list contains `x`.
fn vec_contains_u64(v: &Vec<u64>, x: u64) -> (r: bool)
    ensures
        r == v@.contains(x),
{
    let mut i: usize = 0;
    while i < v.len()
        invariant
            i <= v@.len(),
            forall|j: int| 0 <= j < i ==> v@[j] != x,
        decreases v@.len() - i,
    {
        if v[i] == x {
            return true;
        }
        i = i + 1;
    }
    false
}

/// The position of the reverse-index entry under `key`, if any.
fn key_index_find(m: &Vec<(String, Vec<u64>)>, key: &String) -> (r: Option<usize>)
    ensures
        r matches Some(i) ==> i < m@.len() && m@[i as int].0@ == key@,
        r is None ==> !key_index_has_key(m@, key@),
{
    let mut i: usize = 0;
    while i < m.len()
        invariant
            i <= m@.len(),
            forall|j: int| 0 <= j < i ==> (#[trigger] m@[j]).0@ != key@,
        decreases m@.len() - i,
    {
        let e = &m[i];
        if e.0 == *key {
            return Some(i);
        }
        i = i + 1;
    }
    None
}

/// Register `ck` under `key` in the reverse index.
fn index_add(m: &mut Vec<(String, Vec<u64>)>, key: &String, ck: u64)
    requires
        key_index_wf(old(m)@),
    ensures
        key_index_wf(final(m)@),
        key_index_has(final(m)@, key@, ck),
        forall|k2: Seq<char>, c2: u64|
            k2 != key@ ==> (key_index_has(final(m)@, k2, c2) <==> key_index_has(old(m)@, k2, c2)),
{
    let found = key_index_find(m, key);
    match found {
        Some(i) => {
            let mut pair = m.remove(i);
            let ghost list0 = pair.1@;
            if !vec_contains_u64(&pair.1, ck) {
                pair.1.push(ck);
                proof {
                    assert(pair.1@[pair.1@.len() - 1] == ck);
                    assert(pair.1@.contains(ck));
                }
            }
            let ghost pair_g = pair;
            m.insert(i, pair);
            proof {
                assert(m@ =~= old(m)@.update(i as int, pair_g));
                assert(pair_g.1@.contains(ck));
                let jw = choose|jw: int| 0 <= jw < pair_g.1@.len() && pair_g.1@[jw] == ck;
                assert(m@[i as int].0@ == key@ && m@[i as int].1@[jw] == ck);
                assert forall|k2: Seq<char>, c2: u64| k2 != key@ implies (key_index_has(
                    m@,
                    k2,
                    c2,
                ) <==> key_index_has(old(m)@, k2, c2)) by {
                    if key_index_has(m@, k2, c2) {
                        let (a, b) = choose|a: int, b: int|
                            0 <= a < m@.len() && 0 <= b < m@[a].1@.len() && m@[a].0@ == k2 && (
                            #[trigger] m@[a].1@[b]) == c2;
                        assert(a != i);
                        assert(old(m)@[a].0@ == k2 && old(m)@[a].1@[b] == c2);
                    }
                    if key_index_has(old(m)@, k2, c2) {
                        let (a, b) = choose|a: int, b: int|
                            0 <= a < old(m)@.len() && 0 <= b < old(m)@[a].1@.len() && old(
                                m,
                            )@[a].0@ == k2 && (#[trigger] old(m)@[a].1@[b]) == c2;
                        assert(a != i);
                        assert(m@[a].0@ == k2 && m@[a].1@[b] == c2);
                    }
                }
            }
        },
        None => {
            let mut list: Vec<u64> = Vec::new();
            list.push(ck);
            m.push((key.clone(), list));
            proof {
                let last = m@.len() - 1;
                assert(m@[last].0@ == key@ && m@[last].1@[0] == ck);
                assert forall|k2: Seq<char>, c2: u64| k2 != key@ implies (key_index_has(
                    m@,
                    k2,
                    c2,
                ) <==> key_index_has(old(m)@, k2, c2)) by {
                    if key_index_has(m@, k2, c2) {
                        let (a, b) = choose|a: int, b: int|
                            0 <= a < m@.len() && 0 <= b < m@[a].1@.len() && m@[a].0@ == k2 && (
                            #[trigger] m@[a].1@[b]) == c2;
                        assert(a != last);
                        assert(old(m)@[a].0@ == k2 && old(m)@[a].1@[b] == c2);
                    }
                    if key_index_has(old(m)@, k2, c2) {
                        let (a, b) = choose|a: int, b: int|
                            0 <= a < old(m)@.len() && 0 <= b < old(m)@[a].1@.len() && old(
                                m,
                            )@[a].0@ == k2 && (#[trigger] old(m)@[a].1@[b]) == c2;
                        assert(m@[a].0@ == k2 && m@[a].1@[b] == c2);
                    }
                }
            }
        },
    }
}

/// Remove the reverse-index entry under `key` and hand back its cache keys.
fn index_take(m: &mut Vec<(String, Vec<u64>)>, key: &String) -> (r: Vec<u64>)
    requires
        key_index_wf(old(m)@),
    ensures
        key_index_wf(final(m)@),
        !key_index_has_key(final(m)@, key@),
        forall|ck: u64| #[trigger] key_index_has(old(m)@, key@, ck) <==> r@.contains(ck),
        forall|k2: Seq<char>, c2: u64|
            k2 != key@ ==> (key_index_has(final(m)@, k2, c2) <==> key_index_has(old(m)@, k2, c2)),
{
    let found = key_index_find(m, key);
    match found {
        Some(i) => {
            let pair = m.remove(i);
            proof {
                assert forall|j: int| 0 <= j < m@.len() implies (#[trigger] m@[j]).0@ != key@ by {
                    if j < i {
                        assert(m@[j] == old(m)@[j]);
                    } else {
                        assert(m@[j] == old(m)@[j + 1]);
                    }
                }
                assert forall|ck: u64| key_index_has(old(m)@, key@, ck) implies pair.1@.contains(
                    ck,
                ) by {
                    let (a, b) = choose|a: int, b: int|
                        0 <= a < old(m)@.len() && 0 <= b < old(m)@[a].1@.len() && old(m)@[a].0@
                            == key@ && (#[trigger] old(m)@[a].1@[b]) == ck;
                    assert(a == i);
                }
                assert forall|ck: u64| pair.1@.contains(ck) implies key_index_has(
                    old(m)@,
                    key@,
                    ck,
                ) by {
                    let b = choose|b: int| 0 <= b < pair.1@.len() && pair.1@[b] == ck;
                    assert(old(m)@[i as int].0@ == key@ && old(m)@[i as int].1@[b] == ck);
                }
                assert forall|k2: Seq<char>, c2: u64| k2 != key@ implies (key_index_has(
                    m@,
                    k2,
                    c2,
                ) <==> key_index_has(old(m)@, k2, c2)) by {
                    if key_index_has(m@, k2, c2) {
                        let (a, b) = choose|a: int, b: int|
                            0 <= a < m@.len() && 0 <= b < m@[a].1@.len() && m@[a].0@ == k2 && (
                            #[trigger] m@[a].1@[b]) == c2;
                        if a < i {
                            assert(old(m)@[a].0@ == k2 && old(m)@[a].1@[b] == c2);
                        } else {
                            assert(old(m)@[a + 1].0@ == k2 && old(m)@[a + 1].1@[b] == c2);
                        }
                    }
                    if key_index_has(old(m)@, k2, c2) {
                        let (a, b) = choose|a: int, b: int|
                            0 <= a < old(m)@.len() && 0 <= b < old(m)@[a].1@.len() && old(
                                m,
                            )@[a].0@ == k2 && (#[trigger] old(m)@[a].1@[b]) == c2;
                        assert(a != i);
                        if a < i {
                            assert(m@[a].0@ == k2 && m@[a].1@[b] == c2);
                        } else {
                            assert(m@[a - 1].0@ == k2 && m@[a - 1].1@[b] == c2);
                        }
                    }
                }
            }
            pair.1
        },
        None => {
            proof {
                assert forall|ck: u64| !key_index_has(old(m)@, key@, ck) by {
                    if key_index_has(old(m)@, key@, ck) {
                        let (a, b) = choose|a: int, b: int|
                            0 <= a < old(m)@.len() && 0 <= b < old(m)@[a].1@.len() && old(
                                m,
                            )@[a].0@ == key@ && (#[trigger] old(m)@[a].1@[b]) == ck;
                    }
                }
            }
            Vec::new()
        },
    }
}

/// An element-wise copy of a node map; the copied records share their
/// originals' counters.
fn clone_node_map(v: &Vec<(u64, Node)>) -> (r: Vec<(u64, Node)>)
    ensures
        r@ == v@,
{
    let mut r: Vec<(u64, Node)> = Vec::new();
    let mut i: usize = 0;
    while i < v.len()
        invariant
            i <= v@.len(),
            r@ == v@.subrange(0, i as int),
        decreases v@.len() - i,
    {
        let e = &v[i];
        r.push((e.0, e.1.clone()));
        proof {
            assert(v@.subrange(0, (i + 1) as int) =~= v@.subrange(0, i as int).push(v@[i as int]));
        }
        i = i + 1;
    }
    proof {
        assert(v@.subrange(0, v@.len() as int) =~= v@);
    }
    r
}

} // verus!
