use vstd::prelude::*;

use crate::error::LoadBalanceError;
use crate::hashing::hash64;
use crate::hashing::hash64_of;
use crate::hashing::point_hash;
use crate::hashing::point_hash_of;
use crate::node::Node;
use crate::strategy::BalanceStrategy;
use crate::strategy::Picker;
use crate::strategy::RequestMetadata;
use vstd::multiset::Multiset;
use vstd::seq_lib::group_to_multiset_ensures;

verus! {

/// Consistent hashing over a ring of virtual points: requests with the same
/// hash key always land on the same node of a given ring.
pub struct ConsistentHash {
    /// Virtual points per unit of weight per node.
    pub virtual_factor: usize,
}

impl Default for ConsistentHash {
    fn default() -> (r: Self)
        ensures
            r.virtual_factor == 10,
    {
        ConsistentHash { virtual_factor: 10 }
    }
}

/// Picker state of `ConsistentHash`: the snapshot and the ring of
/// `(point hash, node index)` pairs, sorted by hash.
pub struct ConsistentHashPicker {
    pub nodes: Vec<Node>,
    pub ring: Vec<(u64, usize)>,
}

/// How many virtual points a node of weight `w` gets: `max(w, 1)` times the
/// virtual factor, saturating at the largest representable count.
pub open spec fn vnode_count(w: u32, vf: usize) -> usize {
    let raw = (if w == 0 {
        1int
    } else {
        w as int
    }) * (vf as int);
    if raw > usize::MAX as int {
        usize::MAX
    } else {
        raw as usize
    }
}

/// The virtual points of the node at snapshot position `i`.
pub open spec fn node_points(n: Node, i: int, vf: usize) -> Seq<(u64, usize)> {
    Seq::new(
        vnode_count(n.weight, vf) as nat,
        |j: int| (point_hash_of(n.endpoint.id, j as u64), i as usize),
    )
}

/// The unsorted ring: the virtual points of the first `n` nodes, in order.
pub open spec fn ring_points_up_to(nodes: Seq<Node>, vf: usize, n: int) -> Seq<(u64, usize)>
    decreases n,
{
    if n <= 0 {
        Seq::empty()
    } else {
        ring_points_up_to(nodes, vf, n - 1) + node_points(nodes[n - 1], n - 1, vf)
    }
}

/// Insertion of `x` into `s` behind every entry whose hash does not exceed
/// it; keeps the sequence sorted and is deterministic.
pub open spec fn insert_sorted(s: Seq<(u64, usize)>, x: (u64, usize)) -> Seq<(u64, usize)>
    decreases s.len(),
{
    if s.len() == 0 {
        seq![x]
    } else if x.0 < s.last().0 {
        insert_sorted(s.drop_last(), x).push(s.last())
    } else {
        s.push(x)
    }
}

/// Insertion sort of the ring by point hash; stable and deterministic.
pub open spec fn sort_points(s: Seq<(u64, usize)>) -> Seq<(u64, usize)>
    decreases s.len(),
{
    if s.len() == 0 {
        Seq::empty()
    } else {
        insert_sorted(sort_points(s.drop_last()), s.last())
    }
}

/// Sorted by point hash, ascending.
pub open spec fn ring_sorted(s: Seq<(u64, usize)>) -> bool {
    forall|i: int, j: int| 0 <= i <= j < s.len() ==> (#[trigger] s[i]).0 <= (#[trigger] s[j]).0
}

/// Every ring entry points into the snapshot.
pub open spec fn ring_bounded(s: Seq<(u64, usize)>, len: int) -> bool {
    forall|i: int| 0 <= i < s.len() ==> (#[trigger] s[i]).1 < len
}

pub proof fn lemma_insert_sorted_props(s: Seq<(u64, usize)>, x: (u64, usize))
    requires
        ring_sorted(s),
    ensures
        ring_sorted(insert_sorted(s, x)),
        insert_sorted(s, x).to_multiset() == s.to_multiset().insert(x),
        insert_sorted(s, x).len() == s.len() + 1,
    decreases s.len(),
{
    broadcast use group_to_multiset_ensures;

    if s.len() == 0 {
        assert(insert_sorted(s, x) =~= Seq::empty().push(x));
        assert(Seq::<(u64, usize)>::empty().to_multiset() =~= Multiset::empty());
        assert(insert_sorted(s, x).to_multiset() =~= s.to_multiset().insert(x));
    } else if x.0 < s.last().0 {
        lemma_insert_sorted_props(s.drop_last(), x);
        let t = insert_sorted(s.drop_last(), x);
        // every entry of t is either x or an entry of s.drop_last()
        assert forall|i: int| 0 <= i < t.len() implies (#[trigger] t[i]).0 <= s.last().0 by {
            assert(t.to_multiset().count(t[i]) > 0);
            assert(t.contains(t[i]));
            if t[i] != x {
                assert(s.drop_last().to_multiset().count(t[i]) > 0);
                assert(s.drop_last().contains(t[i]));
                let k = choose|k: int| 0 <= k < s.drop_last().len() && s.drop_last()[k] == t[i];
                assert(s[k].0 <= s.last().0);
            }
        }
        assert(ring_sorted(t.push(s.last())));
        assert(s.drop_last().push(s.last()) =~= s);
        assert(t.push(s.last()).to_multiset() =~= t.to_multiset().insert(s.last()));
        assert(s.drop_last().to_multiset().insert(x).insert(s.last()) =~= s.drop_last()
            .to_multiset().insert(s.last()).insert(x));
        assert(s.drop_last().push(s.last()).to_multiset() =~= s.drop_last().to_multiset().insert(
            s.last(),
        ));
        assert(insert_sorted(s, x).to_multiset() == s.to_multiset().insert(x));
    } else {
        assert forall|i: int, j: int|
            0 <= i <= j < s.push(x).len() implies (#[trigger] s.push(x)[i]).0 <= (#[trigger] s.push(
            x,
        )[j]).0 by {
            if j < s.len() {
            } else {
                if i < s.len() {
                    assert(s[i].0 <= s.last().0);
                }
            }
        }
    }
}

pub proof fn lemma_sort_points_props(s: Seq<(u64, usize)>)
    ensures
        ring_sorted(sort_points(s)),
        sort_points(s).to_multiset() == s.to_multiset(),
        sort_points(s).len() == s.len(),
    decreases s.len(),
{
    broadcast use group_to_multiset_ensures;

    if s.len() == 0 {
    } else {
        lemma_sort_points_props(s.drop_last());
        lemma_insert_sorted_props(sort_points(s.drop_last()), s.last());
        assert(s.drop_last().push(s.last()) =~= s);
        assert(s.drop_last().push(s.last()).to_multiset() =~= s.drop_last().to_multiset().insert(
            s.last(),
        ));
    }
}

/// Sorting keeps exactly the original entries.
pub proof fn lemma_sort_points_contains(s: Seq<(u64, usize)>)
    ensures
        forall|x: (u64, usize)| sort_points(s).contains(x) <==> s.contains(x),
{
    broadcast use group_to_multiset_ensures;

    lemma_sort_points_props(s);
    assert forall|x: (u64, usize)| sort_points(s).contains(x) <==> s.contains(x) by {
        assert(sort_points(s).to_multiset().count(x) == s.to_multiset().count(x));
    }
}

/// The least ring position whose hash is at least `h`, or the ring length
/// when there is none.
pub open spec fn ring_lower_bound(s: Seq<(u64, usize)>, h: u64) -> int
    decreases s.len(),
{
    if s.len() == 0 {
        0
    } else if s[0].0 >= h {
        0
    } else {
        1 + ring_lower_bound(s.subrange(1, s.len() as int), h)
    }
}

/// What characterises `ring_lower_bound`.
pub proof fn lemma_ring_lower_bound(s: Seq<(u64, usize)>, h: u64)
    ensures
        0 <= ring_lower_bound(s, h) <= s.len(),
        forall|j: int| 0 <= j < ring_lower_bound(s, h) ==> (#[trigger] s[j]).0 < h,
        ring_lower_bound(s, h) < s.len() ==> s[ring_lower_bound(s, h)].0 >= h,
    decreases s.len(),
{
    if s.len() == 0 {
    } else if s[0].0 >= h {
    } else {
        let sub = s.subrange(1, s.len() as int);
        lemma_ring_lower_bound(sub, h);
        let lb = ring_lower_bound(s, h);
        assert forall|j: int| 0 <= j < lb implies (#[trigger] s[j]).0 < h by {
            if j > 0 {
                assert(s[j] == sub[j - 1]);
            }
        }
        if lb < s.len() {
            assert(s[lb] == sub[lb - 1]);
        }
    }
}

/// Internal consistency of the picker state.
pub open spec fn ch_wf(p: ConsistentHashPicker) -> bool {
    &&& ring_sorted(p.ring@)
    &&& ring_bounded(p.ring@, p.nodes@.len() as int)
}

/// What one pick returns: the node owning the first ring point at or after
/// the request hash, wrapping to the front; with an empty ring, the node at
/// the hash modulo the snapshot length.
pub open spec fn ch_result(p: ConsistentHashPicker, key: Option<u64>) -> Result<
    Node,
    LoadBalanceError,
> {
    let len = p.nodes@.len() as int;
    if len == 0 {
        Err(LoadBalanceError::NoAvailableNodes)
    } else {
        match key {
            None => Err(LoadBalanceError::MissingHashKey),
            Some(k) => {
                let h = hash64_of(k);
                if p.ring@.len() == 0 {
                    Ok(p.nodes@[h as int % len])
                } else {
                    let lb = ring_lower_bound(p.ring@, h);
                    let pos = if lb == p.ring@.len() as int {
                        0
                    } else {
                        lb
                    };
                    Ok(p.nodes@[p.ring@[pos].1 as int])
                }
            },
        }
    }
}

/// Lower-bound binary search over the sorted ring: the first position whose
/// hash is at least `h`.
fn ring_search(ring: &Vec<(u64, usize)>, h: u64) -> (r: usize)
    requires
        ring_sorted(ring@),
    ensures
        r == ring_lower_bound(ring@, h),
{
    let mut lo: usize = 0;
    let mut hi: usize = ring.len();
    while lo < hi
        invariant
            lo <= hi <= ring@.len(),
            ring_sorted(ring@),
            forall|j: int| 0 <= j < lo ==> (#[trigger] ring@[j]).0 < h,
            forall|j: int| hi <= j < ring@.len() ==> (#[trigger] ring@[j]).0 >= h,
        decreases hi - lo,
    {
        let mid = lo + (hi - lo) / 2;
        if ring[mid].0 < h {
            proof {
                assert forall|j: int| 0 <= j < mid + 1 implies (#[trigger] ring@[j]).0 < h by {
                    assert(ring@[j].0 <= ring@[mid as int].0);
                }
            }
            lo = mid + 1;
        } else {
            proof {
                assert forall|j: int| mid <= j < ring@.len() implies (#[trigger] ring@[j]).0
                    >= h by {
                    assert(ring@[mid as int].0 <= ring@[j].0);
                }
            }
            hi = mid;
        }
    }
    proof {
        lemma_ring_lower_bound(ring@, h);
        let lb = ring_lower_bound(ring@, h);
        if lb < lo as int {
            assert(ring@[lb].0 < h);
            assert(ring@[lb].0 >= h);
        }
        if (lo as int) < lb {
            assert(ring@[lo as int].0 < h);
            assert(ring@[lo as int].0 >= h);
        }
    }
    lo
}

/// Insert `x` into the sorted `v`, behind every entry whose hash does not
/// exceed it.
fn insert_point(v: &mut Vec<(u64, usize)>, x: (u64, usize))
    ensures
        final(v)@ == insert_sorted(old(v)@, x),
{
    let ghost s0 = v@;
    proof {
        assert(s0.subrange(0, s0.len() as int) =~= s0);
        assert(insert_sorted(s0, x) + s0.subrange(s0.len() as int, s0.len() as int)
            =~= insert_sorted(s0, x));
    }
    let mut pos: usize = v.len();
    while pos > 0 && v[pos - 1].0 > x.0
        invariant
            v@ == s0,
            pos <= s0.len(),
            insert_sorted(s0, x) == insert_sorted(s0.subrange(0, pos as int), x) + s0.subrange(
                pos as int,
                s0.len() as int,
            ),
        decreases pos,
    {
        proof {
            let pre = s0.subrange(0, pos as int);
            let shorter = s0.subrange(0, pos as int - 1);
            assert(pre.last() == s0[pos as int - 1]);
            assert(pre.drop_last() =~= shorter);
            assert(insert_sorted(pre, x) == insert_sorted(shorter, x).push(s0[pos as int - 1]));
            assert(insert_sorted(shorter, x).push(s0[pos as int - 1]) + s0.subrange(
                pos as int,
                s0.len() as int,
            ) =~= insert_sorted(shorter, x) + s0.subrange(pos as int - 1, s0.len() as int));
        }
        pos = pos - 1;
    }
    proof {
        let pre = s0.subrange(0, pos as int);
        if pos == 0 {
            assert(pre =~= Seq::empty());
            assert(insert_sorted(pre, x) =~= Seq::empty().push(x));
        } else {
            assert(pre.last() == s0[pos as int - 1]);
            assert(!(x.0 < pre.last().0));
            assert(insert_sorted(pre, x) == pre.push(x));
        }
        assert(insert_sorted(s0, x) =~= s0.subrange(0, pos as int).push(x) + s0.subrange(
            pos as int,
            s0.len() as int,
        ));
    }
    v.insert(pos, x);
    proof {
        assert(v@ =~= s0.subrange(0, pos as int).push(x) + s0.subrange(
            pos as int,
            s0.len() as int,
        ));
    }
}

/// Sort the unsorted ring points by hash, stably.
fn sort_ring(points: Vec<(u64, usize)>) -> (r: Vec<(u64, usize)>)
    ensures
        r@ == sort_points(points@),
{
    let mut r: Vec<(u64, usize)> = Vec::new();
    let mut k: usize = 0;
    while k < points.len()
        invariant
            k <= points@.len(),
            r@ == sort_points(points@.subrange(0, k as int)),
        decreases points@.len() - k,
    {
        proof {
            assert(points@.subrange(0, (k + 1) as int).drop_last() =~= points@.subrange(
                0,
                k as int,
            ));
            assert(points@.subrange(0, (k + 1) as int).last() == points@[k as int]);
        }
        insert_point(&mut r, points[k]);
        k = k + 1;
    }
    proof {
        assert(points@.subrange(0, points@.len() as int) =~= points@);
    }
    r
}

impl ConsistentHashPicker {
    /// Build the ring for `nodes`: `max(weight, 1) * virtual_factor` points
    /// per node, hashed from the node's stable id and the virtual index,
    /// sorted by hash.
    pub fn new(nodes: Vec<Node>, virtual_factor: usize) -> (r: Self)
        ensures
            r.nodes@ == nodes@,
            r.ring@ == sort_points(ring_points_up_to(nodes@, virtual_factor, nodes@.len() as int)),
            ch_wf(r),
    {
        let mut points: Vec<(u64, usize)> = Vec::new();
        let mut i: usize = 0;
        while i < nodes.len()
            invariant
                i <= nodes@.len(),
                points@ == ring_points_up_to(nodes@, virtual_factor, i as int),
                ring_bounded(points@, i as int),
            decreases nodes@.len() - i,
        {
            let id = nodes[i].endpoint.id;
            let w = nodes[i].weight;
            let w1: u128 = if w == 0 {
                1
            } else {
                w as u128
            };
            proof {
                assert(w1 * (virtual_factor as u128) <= 0xFFFF_FFFFu128
                    * 0xFFFF_FFFF_FFFF_FFFFu128) by (nonlinear_arith)
                    requires
                        w1 <= 0xFFFF_FFFFu128,
                        (virtual_factor as u128) <= 0xFFFF_FFFF_FFFF_FFFFu128,
                ;
            }
            let raw: u128 = w1 * (virtual_factor as u128);
            let cnt: usize = if raw > usize::MAX as u128 {
                usize::MAX
            } else {
                raw as usize
            };
            proof {
                assert(cnt == vnode_count(w, virtual_factor));
            }
            let ghost before = points@;
            let mut j: usize = 0;
            while j < cnt
                invariant
                    j <= cnt,
                    cnt == vnode_count(nodes@[i as int].weight, virtual_factor),
                    id == nodes@[i as int].endpoint.id,
                    i < nodes@.len(),
                    points@ == before + node_points(nodes@[i as int], i as int, virtual_factor)
                        .subrange(0, j as int),
                decreases cnt - j,
            {
                points.push((point_hash(id, j as u64), i));
                proof {
                    let np = node_points(nodes@[i as int], i as int, virtual_factor);
                    assert(np.subrange(0, (j + 1) as int) =~= np.subrange(0, j as int).push(
                        np[j as int],
                    ));
                    assert(points@ =~= before + np.subrange(0, (j + 1) as int));
                }
                j = j + 1;
            }
            proof {
                let np = node_points(nodes@[i as int], i as int, virtual_factor);
                assert(np.subrange(0, np.len() as int) =~= np);
                assert(points@ =~= ring_points_up_to(nodes@, virtual_factor, i as int + 1));
            }
            i = i + 1;
        }
        let ring = sort_ring(points);
        proof {
            lemma_sort_points_props(points@);
            lemma_sort_points_contains(points@);
            assert forall|k: int| 0 <= k < ring@.len() implies (#[trigger] ring@[k]).1
                < nodes@.len() by {
                assert(ring@.contains(ring@[k]));
                assert(points@.contains(ring@[k]));
                let m = choose|m: int| 0 <= m < points@.len() && points@[m] == ring@[k];
                assert(points@[m].1 < nodes@.len());
            }
        }
        ConsistentHashPicker { nodes, ring }
    }

    pub fn pick(&self, req: &RequestMetadata) -> (r: Result<Node, LoadBalanceError>)
        requires
            ch_wf(*self),
        ensures
            r == ch_result(*self, req.hash_key),
            r matches Ok(n) ==> exists|j: int| 0 <= j < self.nodes@.len() && self.nodes@[j] == n,
    {
        let len = self.nodes.len();
        if len == 0 {
            return Err(LoadBalanceError::NoAvailableNodes);
        }
        let key = match req.hash_key {
            Some(k) => k,
            None => {
                return Err(LoadBalanceError::MissingHashKey);
            },
        };
        let h = hash64(key);
        if self.ring.len() == 0 {
            let idx = (h % (len as u64)) as usize;
            let n = self.nodes[idx].clone();
            proof {
                assert(0 <= (idx as int) && (idx as int) < self.nodes@.len() && self.nodes@[idx as int]
                    == n);
            }
            return Ok(n);
        }
        let pos = ring_search(&self.ring, h);
        let pos = if pos >= self.ring.len() {
            0
        } else {
            pos
        };
        proof {
            lemma_ring_lower_bound(self.ring@, h);
        }
        let node_idx = self.ring[pos].1;
        let n = self.nodes[node_idx].clone();
        proof {
            assert(0 <= (node_idx as int) && (node_idx as int) < self.nodes@.len()
                && self.nodes@[node_idx as int] == n);
        }
        Ok(n)
    }
}

impl BalanceStrategy for ConsistentHash {
    open spec fn build_ensures(&self, nodes: Seq<Node>, p: Picker) -> bool {
        p matches Picker::ConsistentHash(rp) && rp.nodes@ == nodes && rp.ring@ == sort_points(
            ring_points_up_to(nodes, self.virtual_factor, nodes.len() as int),
        ) && ch_wf(rp)
    }

    proof fn build_ensures_implies_bound(&self, nodes: Seq<Node>, p: Picker) {
    }

    fn build_picker(&self, nodes: Vec<Node>) -> (p: Picker) {
        Picker::ConsistentHash(ConsistentHashPicker::new(nodes, self.virtual_factor))
    }
}

/// Two consistent-hash pickers built with the same factor from the same
/// snapshot return the same node for every hash key: the key alone decides.
pub proof fn lemma_consistent_hash_affinity(
    s1: ConsistentHash,
    s2: ConsistentHash,
    nodes: Seq<Node>,
    p1: Picker,
    p2: Picker,
    key: Option<u64>,
)
    requires
        s1.virtual_factor == s2.virtual_factor,
        s1.build_ensures(nodes, p1),
        s2.build_ensures(nodes, p2),
    ensures
        p1 matches Picker::ConsistentHash(q1) ==> (p2 matches Picker::ConsistentHash(q2)
            ==> ch_result(q1, key) == ch_result(q2, key)),
{
}

} // verus!
