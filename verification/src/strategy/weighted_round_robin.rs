use vstd::prelude::*;

use crate::error::LoadBalanceError;
use crate::node::Node;
use crate::strategy::BalanceStrategy;
use crate::strategy::Picker;
use crate::strategy::RequestMetadata;

verus! {

/// Smooth weighted round robin: over a full period each node is selected in
/// proportion to its weight, interleaved rather than in consecutive blocks.
pub struct WeightedRoundRobin;

/// Picker state of `WeightedRoundRobin`.
///
/// `weights` mirrors the weight of each snapshot node; `max_w` is the
/// largest weight, `gcd_w` the greatest common divisor of the positive
/// weights (1 when there is none). The cursor `idx` starts at the sentinel
/// `usize::MAX`, meaning "before the first node", and `cw` is the current
/// weight threshold.
pub struct WrrPicker {
    pub nodes: Vec<Node>,
    pub weights: Vec<u64>,
    pub max_w: u64,
    pub gcd_w: u64,
    pub idx: usize,
    pub cw: u64,
}

/// The weight of each node, as the picker records it.
pub open spec fn weights_of(nodes: Seq<Node>) -> Seq<u64> {
    nodes.map(|i: int, n: Node| n.weight as u64)
}

/// Greatest common divisor by Euclid's rule.
pub open spec fn spec_gcd(a: nat, b: nat) -> nat
    decreases b,
{
    if b == 0 {
        a
    } else {
        spec_gcd(b, a % b)
    }
}

/// The largest weight of the sequence (0 when empty or all zero).
pub open spec fn max_weight(w: Seq<u64>) -> u64
    decreases w.len(),
{
    if w.len() == 0 {
        0u64
    } else {
        let rest = max_weight(w.drop_last());
        if w.last() > rest {
            w.last()
        } else {
            rest
        }
    }
}

/// Left fold of gcd over the positive weights (0 when there is none).
pub open spec fn gcd_of_positive(w: Seq<u64>) -> u64
    decreases w.len(),
{
    if w.len() == 0 {
        0u64
    } else {
        let rest = gcd_of_positive(w.drop_last());
        if w.last() == 0 {
            rest
        } else if rest == 0 {
            w.last()
        } else {
            spec_gcd(rest as nat, w.last() as nat) as u64
        }
    }
}

/// The state a freshly built weighted-round-robin picker must have.
pub open spec fn wrr_built(p: WrrPicker, nodes: Seq<Node>) -> bool {
    &&& p.nodes@ == nodes
    &&& p.idx == usize::MAX
    &&& p.cw == 0
}

/// Internal consistency of the picker state.
pub open spec fn wrr_wf(p: WrrPicker) -> bool {
    &&& p.weights@ == weights_of(p.nodes@)
    &&& p.max_w == max_weight(p.weights@)
    &&& p.gcd_w == (if gcd_of_positive(p.weights@) == 0 {
        1u64
    } else {
        gcd_of_positive(p.weights@)
    })
    &&& p.nodes@.len() > 0 ==> (p.idx == usize::MAX || p.idx < p.nodes@.len())
}

/// The cursor after one advance: from the sentinel to 0, otherwise one step
/// onward, cyclically.
pub open spec fn wrr_step_idx(idx: usize, len: int) -> usize
    recommends
        len > 0,
{
    if idx == usize::MAX {
        0usize
    } else {
        ((idx as int + 1) % len) as usize
    }
}

/// The threshold after one advance: lowered by the gcd at each wrap to the
/// front, restarting at `max_w` when it reaches 0.
pub open spec fn wrr_step_cw(cw: u64, new_idx: usize, gcd_w: u64, max_w: u64) -> u64 {
    if new_idx == 0 {
        let dec = if cw > gcd_w {
            (cw - gcd_w) as u64
        } else {
            0u64
        };
        if dec == 0 {
            max_w
        } else {
            dec
        }
    } else {
        cw
    }
}

/// The cursor and threshold at which the bounded search stops: the first
/// position (after at least one advance) whose weight reaches the threshold,
/// or wherever the fuel runs out.
pub open spec fn wrr_search(
    w: Seq<u64>,
    gcd_w: u64,
    max_w: u64,
    idx: usize,
    cw: u64,
    fuel: nat,
) -> (usize, u64)
    recommends
        w.len() > 0,
    decreases fuel,
{
    let i2 = wrr_step_idx(idx, w.len() as int);
    let c2 = wrr_step_cw(cw, i2, gcd_w, max_w);
    if w[i2 as int] >= c2 || fuel == 0 {
        (i2, c2)
    } else {
        wrr_search(w, gcd_w, max_w, i2, c2, (fuel - 1) as nat)
    }
}

/// The bounded search never leaves the snapshot.
pub proof fn lemma_wrr_search_in_range(
    w: Seq<u64>,
    gcd_w: u64,
    max_w: u64,
    idx: usize,
    cw: u64,
    fuel: nat,
)
    requires
        w.len() > 0,
    ensures
        wrr_search(w, gcd_w, max_w, idx, cw, fuel).0 < w.len(),
    decreases fuel,
{
    let i2 = wrr_step_idx(idx, w.len() as int);
    let c2 = wrr_step_cw(cw, i2, gcd_w, max_w);
    if !(w[i2 as int] >= c2 || fuel == 0) {
        lemma_wrr_search_in_range(w, gcd_w, max_w, i2, c2, (fuel - 1) as nat);
    }
}

/// A linear combination of multiples of `d` is a multiple of `d`.
proof fn lemma_divides_linear(x: int, y: int, c: int, d: int)
    requires
        d > 0,
        x % d == 0,
        y % d == 0,
    ensures
        (c * x + y) % d == 0,
{
    vstd::arithmetic::div_mod::lemma_fundamental_div_mod(x, d);
    vstd::arithmetic::div_mod::lemma_fundamental_div_mod(y, d);
    assert(c * x + y == (c * (x / d) + y / d) * d) by (nonlinear_arith)
        requires
            x == d * (x / d) + x % d,
            y == d * (y / d) + y % d,
            x % d == 0,
            y % d == 0,
    ;
    vstd::arithmetic::div_mod::lemma_mod_multiples_basic(c * (x / d) + y / d, d);
}

/// Divisibility is transitive.
proof fn lemma_divides_trans(d: int, e: int, x: int)
    requires
        d > 0,
        e > 0,
        e % d == 0,
        x % e == 0,
    ensures
        x % d == 0,
{
    vstd::arithmetic::div_mod::lemma_fundamental_div_mod(x, e);
    vstd::arithmetic::div_mod::lemma_fundamental_div_mod(e, d);
    assert(x == ((e / d) * (x / e)) * d) by (nonlinear_arith)
        requires
            x == e * (x / e) + x % e,
            x % e == 0,
            e == d * (e / d) + e % d,
            e % d == 0,
    ;
    vstd::arithmetic::div_mod::lemma_mod_multiples_basic((e / d) * (x / e), d);
}

/// Euclid's gcd of a positive number is positive and divides both numbers.
proof fn lemma_gcd_divides(a: nat, b: nat)
    requires
        a > 0,
    ensures
        spec_gcd(a, b) > 0,
        spec_gcd(a, b) <= a,
        a % spec_gcd(a, b) == 0,
        b % spec_gcd(a, b) == 0,
    decreases b,
{
    if b == 0 {
        vstd::arithmetic::div_mod::lemma_mod_self_0(a as int);
        vstd::arithmetic::div_mod::lemma_small_mod(0, a);
    } else {
        lemma_gcd_divides(b, a % b);
        let g = spec_gcd(b, a % b);
        vstd::arithmetic::div_mod::lemma_fundamental_div_mod(a as int, b as int);
        lemma_divides_linear(b as int, (a % b) as int, (a as int) / (b as int), g as int);
        assert(a as int == ((a as int) / (b as int)) * (b as int) + (a % b) as int);
        if g > a {
            vstd::arithmetic::div_mod::lemma_small_mod(a, g);
        }
    }
}

/// The stride of a weighted-round-robin picker: the gcd of the positive
/// weights is positive as soon as any weight is, and divides every
/// positive weight; when every weight is zero the fold is zero.
pub proof fn lemma_gcd_of_positive_divides(w: Seq<u64>)
    ensures
        gcd_of_positive(w) == 0 ==> forall|i: int| 0 <= i < w.len() ==> w[i] == 0,
        forall|i: int|
            0 <= i < w.len() && (#[trigger] w[i]) > 0 ==> (gcd_of_positive(w) > 0 && w[i] as int
                % gcd_of_positive(w) as int == 0),
    decreases w.len(),
{
    if w.len() == 0 {
    } else {
        let rest = w.drop_last();
        lemma_gcd_of_positive_divides(rest);
        let gr = gcd_of_positive(rest);
        let last = w.last();
        let g = gcd_of_positive(w);
        assert forall|i: int|
            0 <= i < w.len() && (#[trigger] w[i]) > 0 implies (g > 0 && w[i] as int % g as int
            == 0) by {
            if last == 0 {
                assert(i < w.len() - 1);
                assert(rest[i] == w[i]);
            } else if gr == 0 {
                if i < w.len() - 1 {
                    assert(rest[i] == w[i]);
                    assert(w[i] == 0);
                } else {
                    vstd::arithmetic::div_mod::lemma_mod_self_0(last as int);
                }
            } else {
                lemma_gcd_divides(gr as nat, last as nat);
                assert(g as nat == spec_gcd(gr as nat, last as nat));
                if i < w.len() - 1 {
                    assert(rest[i] == w[i]);
                    lemma_divides_trans(g as int, gr as int, w[i] as int);
                }
            }
        }
    }
}

/// Some position attains the maximum weight.
pub proof fn lemma_max_weight_attained(w: Seq<u64>)
    requires
        w.len() > 0,
    ensures
        exists|p: int| 0 <= p < w.len() && w[p] == max_weight(w),
    decreases w.len(),
{
    if w.len() == 1 {
        assert(max_weight(w.drop_last()) == 0);
        assert(w[0] == max_weight(w));
    } else {
        lemma_max_weight_attained(w.drop_last());
        if w.last() > max_weight(w.drop_last()) {
            assert(w[w.len() - 1] == max_weight(w));
        } else {
            let p = choose|p: int|
                0 <= p < w.drop_last().len() && w.drop_last()[p] == max_weight(w.drop_last());
            assert(w[p] == max_weight(w));
        }
    }
}

/// How many advances the search needs, from cursor `idx`, to stand on
/// position `p`.
pub open spec fn wrr_distance(idx: usize, p: int, len: int) -> int {
    if idx == usize::MAX {
        p + 1
    } else if p > idx as int {
        p - idx as int
    } else {
        p + len - idx as int
    }
}

/// The search stops on a qualifying position before it can reach `p`, a
/// position of maximal weight: the threshold never exceeds the maximum, so
/// `p` itself always qualifies, and each advance brings the cursor closer.
proof fn lemma_wrr_search_reaches(
    w: Seq<u64>,
    gcd_w: u64,
    max_w: u64,
    idx: usize,
    cw: u64,
    fuel: nat,
    p: int,
)
    requires
        w.len() > 0,
        w.len() <= usize::MAX,
        max_w == max_weight(w),
        max_w > 0,
        cw <= max_w,
        idx == usize::MAX || idx < w.len(),
        0 <= p < w.len(),
        w[p] == max_w,
        fuel >= wrr_distance(idx, p, w.len() as int),
    ensures
        ({
            let s = wrr_search(w, gcd_w, max_w, idx, cw, fuel);
            &&& w[s.0 as int] >= s.1
            &&& s.1 <= max_w
            &&& (cw > 0 || idx == usize::MAX) ==> s.1 > 0
        }),
    decreases fuel,
{
    let len = w.len() as int;
    let i2 = wrr_step_idx(idx, len);
    let c2 = wrr_step_cw(cw, i2, gcd_w, max_w);
    assert(c2 <= max_w);
    assert((cw > 0 || idx == usize::MAX) ==> c2 > 0);
    if w[i2 as int] >= c2 || fuel == 0 {
        assert(wrr_distance(idx, p, len) >= 1);
        assert(fuel > 0);
    } else {
        assert(i2 as int != p);
        assert(0 <= (idx as int + 1) % len && (idx as int + 1) % len < len) by (nonlinear_arith)
            requires
                len > 0,
                idx as int + 1 >= 0,
        ;
        if idx == usize::MAX {
            assert(i2 == 0usize);
        } else if idx as int + 1 < len {
            assert((idx as int + 1) % len == idx as int + 1) by (nonlinear_arith)
                requires
                    0 <= idx as int + 1 < len,
            ;
            assert(i2 as int == idx as int + 1);
        } else {
            assert(idx as int + 1 == len);
            assert(len % len == 0) by (nonlinear_arith)
                requires
                    len > 0,
            ;
            assert(i2 == 0usize);
        }
        assert(i2 != usize::MAX);
        if idx == usize::MAX {
            assert(wrr_distance(idx, p, len) == p + 1);
            assert(p > 0);
            assert(wrr_distance(i2, p, len) == p);
        } else if idx as int + 1 < len {
            if p > idx as int {
                assert(p > i2 as int);
                assert(wrr_distance(i2, p, len) == wrr_distance(idx, p, len) - 1);
            } else {
                assert(!(p > i2 as int));
                assert(wrr_distance(i2, p, len) == wrr_distance(idx, p, len) - 1);
            }
        } else {
            assert(!(p > idx as int));
            assert(wrr_distance(idx, p, len) == p + 1);
            assert(p > 0);
            assert(wrr_distance(i2, p, len) == p);
        }
        assert(wrr_distance(i2, p, len) == wrr_distance(idx, p, len) - 1);
        lemma_wrr_search_reaches(w, gcd_w, max_w, i2, c2, (fuel - 1) as nat, p);
    }
}

/// A weighted-round-robin pick never needs its liveness guard: as long as
/// some node has positive weight, the pick stops on a node whose weight
/// reaches the current threshold, which is positive, so a zero-weight node
/// is never chosen; and the picker stays in a state of which the same holds.
pub proof fn lemma_wrr_pick_qualifies(p: WrrPicker)
    requires
        wrr_wf(p),
        p.nodes@.len() > 0,
        p.max_w > 0,
        p.cw <= p.max_w,
        p.cw > 0 || p.idx == usize::MAX,
    ensures
        ({
            let next = wrr_next_state(p);
            &&& wrr_result(p) == Ok::<Node, LoadBalanceError>(p.nodes@[next.idx as int])
            &&& next.cw > 0
            &&& next.cw <= p.max_w
            &&& p.weights@[next.idx as int] >= next.cw
            &&& p.nodes@[next.idx as int].weight > 0
        }),
{
    let w = p.weights@;
    let len = w.len() as int;
    assert(p.weights.len() == p.weights@.len());
    lemma_max_weight_attained(w);
    let q = choose|q: int| 0 <= q < len && w[q] == max_weight(w);
    assert(wrr_distance(p.idx, q, len) <= 2 * len);
    lemma_wrr_search_reaches(w, p.gcd_w, p.max_w, p.idx, p.cw, (2 * len) as nat, q);
    let s = wrr_search(w, p.gcd_w, p.max_w, p.idx, p.cw, (2 * len) as nat);
    lemma_wrr_search_in_range(w, p.gcd_w, p.max_w, p.idx, p.cw, (2 * len) as nat);
    assert(w[s.0 as int] == p.nodes@[s.0 as int].weight as u64);
}

/// The first position at or after `from` whose weight reaches `c`, or the
/// length when there is none.
pub open spec fn first_qual_from(w: Seq<u64>, c: u64, from: int) -> int
    recommends
        0 <= from <= w.len(),
    decreases w.len() - from,
{
    if from >= w.len() {
        w.len() as int
    } else if w[from] >= c {
        from
    } else {
        first_qual_from(w, c, from + 1)
    }
}

/// What characterises `first_qual_from`.
pub proof fn lemma_first_qual_from(w: Seq<u64>, c: u64, from: int)
    requires
        0 <= from <= w.len(),
    ensures
        from <= first_qual_from(w, c, from) <= w.len(),
        first_qual_from(w, c, from) < w.len() ==> w[first_qual_from(w, c, from)] >= c,
        forall|j: int| from <= j < first_qual_from(w, c, from) ==> w[j] < c,
        forall|q: int| from <= q < w.len() && w[q] >= c ==> first_qual_from(w, c, from) <= q,
    decreases w.len() - from,
{
    if from >= w.len() {
    } else if w[from] >= c {
    } else {
        lemma_first_qual_from(w, c, from + 1);
    }
}

/// Where one pick stops, exactly: the first position past the cursor whose
/// weight reaches the current threshold; failing that, the front is passed,
/// the threshold steps once, and the first qualifying position from the
/// front wins.
pub open spec fn wrr_next_exact(w: Seq<u64>, gcd_w: u64, max_w: u64, idx: usize, cw: u64) -> (
    usize,
    u64,
) {
    let len = w.len() as int;
    if idx == usize::MAX {
        let c2 = wrr_step_cw(cw, 0usize, gcd_w, max_w);
        (first_qual_from(w, c2, 0) as usize, c2)
    } else {
        let ahead = first_qual_from(w, cw, idx as int + 1);
        if ahead < len {
            (ahead as usize, cw)
        } else {
            let c2 = wrr_step_cw(cw, 0usize, gcd_w, max_w);
            (first_qual_from(w, c2, 0) as usize, c2)
        }
    }
}

/// A scan that stays at one threshold: while some position ahead qualifies,
/// the search stops at the first of them.
proof fn lemma_search_scan(w: Seq<u64>, gcd_w: u64, max_w: u64, idx: usize, cw: u64, fuel: nat)
    requires
        w.len() > 0,
        w.len() <= usize::MAX,
        idx < w.len(),
        first_qual_from(w, cw, idx as int + 1) < w.len(),
        fuel >= first_qual_from(w, cw, idx as int + 1) - idx as int,
    ensures
        wrr_search(w, gcd_w, max_w, idx, cw, fuel) == (
            first_qual_from(w, cw, idx as int + 1) as usize,
            cw,
        ),
    decreases fuel,
{
    let len = w.len() as int;
    let fq = first_qual_from(w, cw, idx as int + 1);
    lemma_first_qual_from(w, cw, idx as int + 1);
    assert(idx as int + 1 < len || fq >= len);
    assert((idx as int + 1) % len == idx as int + 1) by (nonlinear_arith)
        requires
            0 <= idx as int + 1 < len,
    ;
    let i2 = wrr_step_idx(idx, len);
    assert(i2 as int == idx as int + 1);
    assert(i2 != 0usize);
    let c2 = wrr_step_cw(cw, i2, gcd_w, max_w);
    assert(c2 == cw);
    if w[i2 as int] >= c2 {
        assert(fq == i2 as int);
    } else {
        assert(fq == first_qual_from(w, cw, idx as int + 2));
        assert(fuel > 0);
        lemma_search_scan(w, gcd_w, max_w, i2, cw, (fuel - 1) as nat);
    }
}

/// A pick stops exactly where `wrr_next_exact` says, whenever some node has
/// positive weight.
proof fn lemma_search_exact(w: Seq<u64>, gcd_w: u64, max_w: u64, idx: usize, cw: u64, fuel: nat)
    requires
        w.len() > 0,
        w.len() <= usize::MAX,
        max_w == max_weight(w),
        max_w > 0,
        cw <= max_w,
        idx == usize::MAX || idx < w.len(),
        fuel >= 2 * w.len(),
    ensures
        wrr_search(w, gcd_w, max_w, idx, cw, fuel) == wrr_next_exact(w, gcd_w, max_w, idx, cw),
{
    let len = w.len() as int;
    lemma_max_weight_attained(w);
    let p = choose|p: int| 0 <= p < len && w[p] == max_w;
    if idx == usize::MAX {
        let i2 = wrr_step_idx(idx, len);
        assert(i2 == 0usize);
        let c2 = wrr_step_cw(cw, i2, gcd_w, max_w);
        assert(c2 <= max_w);
        lemma_first_qual_from(w, c2, 0);
        let fq = first_qual_from(w, c2, 0);
        assert(fq <= p);
        if w[0] >= c2 {
            assert(fq == 0);
        } else {
            assert(fq == first_qual_from(w, c2, 1));
            assert(fuel > 0);
            lemma_search_scan(w, gcd_w, max_w, 0usize, c2, (fuel - 1) as nat);
        }
    } else {
        let ahead = first_qual_from(w, cw, idx as int + 1);
        lemma_first_qual_from(w, cw, idx as int + 1);
        if ahead < len {
            lemma_search_scan(w, gcd_w, max_w, idx, cw, fuel);
        } else {
            lemma_search_to_front(w, gcd_w, max_w, idx, cw, fuel);
        }
    }
}

/// With nothing qualifying ahead of the cursor, the search walks to the
/// front, steps the threshold once, and stops at the first qualifying
/// position from the front.
proof fn lemma_search_to_front(w: Seq<u64>, gcd_w: u64, max_w: u64, idx: usize, cw: u64, fuel: nat)
    requires
        w.len() > 0,
        w.len() <= usize::MAX,
        max_w == max_weight(w),
        max_w > 0,
        cw <= max_w,
        idx < w.len(),
        first_qual_from(w, cw, idx as int + 1) == w.len(),
        fuel >= 2 * w.len() - 1 - idx as int,
    ensures
        ({
            let c2 = wrr_step_cw(cw, 0usize, gcd_w, max_w);
            wrr_search(w, gcd_w, max_w, idx, cw, fuel) == (
                first_qual_from(w, c2, 0) as usize,
                c2,
            )
        }),
    decreases fuel,
{
    let len = w.len() as int;
    lemma_max_weight_attained(w);
    let p = choose|p: int| 0 <= p < len && w[p] == max_w;
    lemma_first_qual_from(w, cw, idx as int + 1);
    let i2 = wrr_step_idx(idx, len);
    let c2 = wrr_step_cw(cw, i2, gcd_w, max_w);
    if idx as int + 1 == len {
        assert(len % len == 0) by (nonlinear_arith)
            requires
                len > 0,
        ;
        assert(i2 == 0usize);
        let cfront = wrr_step_cw(cw, 0usize, gcd_w, max_w);
        assert(c2 == cfront);
        assert(cfront <= max_w);
        lemma_first_qual_from(w, cfront, 0);
        let fq = first_qual_from(w, cfront, 0);
        assert(fq <= p);
        if w[0] >= cfront {
            assert(fq == 0);
        } else {
            assert(fq == first_qual_from(w, cfront, 1));
            assert(fuel > 0);
            lemma_search_scan(w, gcd_w, max_w, 0usize, cfront, (fuel - 1) as nat);
        }
    } else {
        assert((idx as int + 1) % len == idx as int + 1) by (nonlinear_arith)
            requires
                0 <= idx as int + 1 < len,
        ;
        assert(i2 as int == idx as int + 1);
        assert(i2 != 0usize);
        assert(c2 == cw);
        assert(w[i2 as int] < cw);
        assert(first_qual_from(w, cw, i2 as int + 1) == w.len());
        assert(fuel > 0);
        lemma_search_to_front(w, gcd_w, max_w, i2, cw, (fuel - 1) as nat);
    }
}

/// The cursor and threshold of a freshly built picker after `t` picks
/// (assuming some weight is positive, so picks take the searched branch).
pub open spec fn wrr_run(w: Seq<u64>, gcd_w: u64, max_w: u64, t: nat) -> (usize, u64)
    decreases t,
{
    if t == 0 {
        (usize::MAX, 0u64)
    } else {
        let prev = wrr_run(w, gcd_w, max_w, (t - 1) as nat);
        wrr_search(w, gcd_w, max_w, prev.0, prev.1, (2 * w.len()) as nat)
    }
}

/// How many of the first `t` picks of a freshly built picker land on
/// position `i`.
pub open spec fn wrr_run_count(w: Seq<u64>, gcd_w: u64, max_w: u64, t: nat, i: int) -> int
    decreases t,
{
    if t == 0 {
        0
    } else {
        wrr_run_count(w, gcd_w, max_w, (t - 1) as nat, i) + if wrr_run(w, gcd_w, max_w, t).0 as int
            == i {
            1int
        } else {
            0int
        }
    }
}

/// How many positions at or after `from` have weight at least `c`.
pub open spec fn qual_count_from(w: Seq<u64>, c: u64, from: int) -> int
    recommends
        0 <= from <= w.len(),
    decreases w.len() - from,
{
    if from < 0 || from >= w.len() {
        0
    } else {
        (if w[from] >= c {
            1int
        } else {
            0int
        }) + qual_count_from(w, c, from + 1)
    }
}

/// Counting and finding qualifying positions agree: there is one at or
/// after `from` exactly when the count there is positive, and the count
/// steps down by one across the first of them.
pub proof fn lemma_qual_count_step(w: Seq<u64>, c: u64, from: int)
    requires
        0 <= from <= w.len(),
    ensures
        qual_count_from(w, c, from) >= 0,
        first_qual_from(w, c, from) < w.len() <==> qual_count_from(w, c, from) > 0,
        first_qual_from(w, c, from) < w.len() ==> qual_count_from(w, c, from) == 1
            + qual_count_from(w, c, first_qual_from(w, c, from) + 1),
    decreases w.len() - from,
{
    if from >= w.len() {
    } else if w[from] >= c {
        lemma_qual_count_step(w, c, from + 1);
    } else {
        lemma_qual_count_step(w, c, from + 1);
    }
}

/// The position of the `k`-th qualifying index (0-based) for threshold `c`,
/// or the length when there are not that many.
pub open spec fn qual_pos(w: Seq<u64>, c: u64, k: int) -> int
    decreases k + 1,
{
    if k < 0 {
        -1
    } else if k == 0 {
        first_qual_from(w, c, 0)
    } else {
        let prev = qual_pos(w, c, k - 1);
        if 0 <= prev < w.len() {
            first_qual_from(w, c, prev + 1)
        } else {
            w.len() as int
        }
    }
}

/// For `k` below the qualifying count, the `k`-th qualifying position is in
/// range, qualifies, and exactly `count - k - 1` qualifying positions
/// follow it.
pub proof fn lemma_qual_pos(w: Seq<u64>, c: u64, k: int)
    requires
        0 <= k < qual_count_from(w, c, 0),
    ensures
        0 <= qual_pos(w, c, k) < w.len(),
        w[qual_pos(w, c, k)] >= c,
        qual_count_from(w, c, qual_pos(w, c, k) + 1) == qual_count_from(w, c, 0) - k - 1,
    decreases k,
{
    lemma_qual_count_step(w, c, 0);
    if k == 0 {
        lemma_first_qual_from(w, c, 0);
    } else {
        lemma_qual_pos(w, c, k - 1);
        let prev = qual_pos(w, c, k - 1);
        lemma_qual_count_step(w, c, prev + 1);
        lemma_first_qual_from(w, c, prev + 1);
    }
}

/// The regular setting of the fairness argument: a non-empty snapshot with
/// a positive maximum weight, and the recorded stride and maximum.
pub open spec fn wrr_regular(w: Seq<u64>, gcd_w: u64, max_w: u64) -> bool {
    &&& w.len() > 0
    &&& w.len() <= usize::MAX
    &&& max_w == max_weight(w)
    &&& max_w > 0
    &&& gcd_w == gcd_of_positive(w)
    &&& gcd_w > 0
}

/// The threshold of lap `l` (0-based): the maximum, lowered `l` strides.
pub open spec fn lap_threshold(max_w: u64, gcd_w: u64, l: int) -> u64 {
    (max_w - l * gcd_w) as u64
}

/// The number of picks that precede lap `l` of a fresh picker.
pub open spec fn lap_start(w: Seq<u64>, max_w: u64, gcd_w: u64, l: int) -> int
    decreases l,
{
    if l <= 0 {
        0
    } else {
        lap_start(w, max_w, gcd_w, l - 1) + qual_count_from(
            w,
            lap_threshold(max_w, gcd_w, l - 1),
            0,
        )
    }
}

/// In the regular setting the stride divides the maximum, and every lap
/// threshold lies between stride and maximum.
proof fn lemma_lap_threshold_bounds(w: Seq<u64>, gcd_w: u64, max_w: u64, l: int)
    requires
        wrr_regular(w, gcd_w, max_w),
        0 <= l < max_w as int / gcd_w as int,
    ensures
        max_w as int % gcd_w as int == 0,
        lap_threshold(max_w, gcd_w, l) as int == max_w - l * gcd_w,
        gcd_w <= lap_threshold(max_w, gcd_w, l) <= max_w,
{
    lemma_max_weight_attained(w);
    let p = choose|p: int| 0 <= p < w.len() && w[p] == max_w;
    lemma_gcd_of_positive_divides(w);
    assert(max_w as int % gcd_w as int == 0);
    vstd::arithmetic::div_mod::lemma_fundamental_div_mod(max_w as int, gcd_w as int);
    let q = max_w as int / gcd_w as int;
    assert(max_w as int == q * gcd_w as int) by (nonlinear_arith)
        requires
            max_w as int == gcd_w as int * q + max_w as int % gcd_w as int,
            max_w as int % gcd_w as int == 0,
    ;
    assert(gcd_w as int <= max_w as int - l * gcd_w as int <= max_w as int) by (nonlinear_arith)
        requires
            max_w as int == q * gcd_w as int,
            0 <= l <= q - 1,
            gcd_w > 0,
    ;
}

/// Where a fresh picker stands after any pick of any lap of its first full
/// period: pick `k` of lap `l` stops on the `k`-th position whose weight
/// reaches the lap's threshold.
proof fn lemma_run_position(w: Seq<u64>, gcd_w: u64, max_w: u64, l: int, k: int)
    requires
        wrr_regular(w, gcd_w, max_w),
        0 <= l < max_w as int / gcd_w as int,
        0 <= k < qual_count_from(w, lap_threshold(max_w, gcd_w, l), 0),
    ensures
        wrr_run(w, gcd_w, max_w, (lap_start(w, max_w, gcd_w, l) + k + 1) as nat) == (
            qual_pos(w, lap_threshold(max_w, gcd_w, l), k) as usize,
            lap_threshold(max_w, gcd_w, l),
        ),
        lap_start(w, max_w, gcd_w, l) + k >= 0,
    decreases l, k,
{
    let len = w.len() as int;
    let c = lap_threshold(max_w, gcd_w, l);
    lemma_lap_threshold_bounds(w, gcd_w, max_w, l);
    lemma_qual_count_step(w, c, 0);
    lemma_qual_pos(w, c, k);
    lemma_max_weight_attained(w);
    let p = choose|p: int| 0 <= p < len && w[p] == max_w;
    if k > 0 {
        lemma_run_position(w, gcd_w, max_w, l, k - 1);
        lemma_qual_pos(w, c, k - 1);
        let prev = qual_pos(w, c, k - 1);
        let t = (lap_start(w, max_w, gcd_w, l) + k) as nat;
        assert(wrr_run(w, gcd_w, max_w, t) == (prev as usize, c));
        lemma_search_exact(w, gcd_w, max_w, prev as usize, c, (2 * len) as nat);
        assert(wrr_run(w, gcd_w, max_w, (t + 1) as nat) == wrr_next_exact(
            w,
            gcd_w,
            max_w,
            prev as usize,
            c,
        ));
        assert(first_qual_from(w, c, prev + 1) == qual_pos(w, c, k));
    } else if l == 0 {
        assert(lap_start(w, max_w, gcd_w, 0) == 0);
        assert(wrr_run(w, gcd_w, max_w, 0) == (usize::MAX, 0u64));
        lemma_search_exact(w, gcd_w, max_w, usize::MAX, 0u64, (2 * len) as nat);
        assert(wrr_step_cw(0u64, 0usize, gcd_w, max_w) == max_w);
        assert(0 * gcd_w as int == 0);
        assert(c == max_w);
        assert(wrr_run(w, gcd_w, max_w, 1) == (first_qual_from(w, c, 0) as usize, c));
        assert(qual_pos(w, c, 0) == first_qual_from(w, c, 0));
    } else {
        let cprev = lap_threshold(max_w, gcd_w, l - 1);
        lemma_lap_threshold_bounds(w, gcd_w, max_w, l - 1);
        assert(cprev as int == c as int + gcd_w as int) by (nonlinear_arith)
            requires
                cprev as int == max_w - (l - 1) * gcd_w,
                c as int == max_w - l * gcd_w,
        ;
        lemma_qual_count_step(w, cprev, 0);
        lemma_first_qual_from(w, cprev, 0);
        let count_prev = qual_count_from(w, cprev, 0);
        assert(first_qual_from(w, cprev, 0) <= p);
        assert(count_prev > 0);
        lemma_run_position(w, gcd_w, max_w, l - 1, count_prev - 1);
        lemma_qual_pos(w, cprev, count_prev - 1);
        let last = qual_pos(w, cprev, count_prev - 1);
        let t = (lap_start(w, max_w, gcd_w, l - 1) + count_prev) as nat;
        assert(lap_start(w, max_w, gcd_w, l) == lap_start(w, max_w, gcd_w, l - 1) + count_prev);
        assert(wrr_run(w, gcd_w, max_w, t) == (last as usize, cprev));
        lemma_search_exact(w, gcd_w, max_w, last as usize, cprev, (2 * len) as nat);
        lemma_qual_count_step(w, cprev, last + 1);
        lemma_first_qual_from(w, cprev, last + 1);
        assert(first_qual_from(w, cprev, last + 1) == len);
        assert(wrr_step_cw(cprev, 0usize, gcd_w, max_w) == c);
        assert(wrr_run(w, gcd_w, max_w, (t + 1) as nat) == (first_qual_from(w, c, 0) as usize, c));
        assert(qual_pos(w, c, 0) == first_qual_from(w, c, 0));
    }
}

/// How many of the first `l` laps have a threshold that weight `x` reaches.
pub open spec fn laps_hitting(x: u64, max_w: u64, gcd_w: u64, l: int) -> int
    decreases l,
{
    if l <= 0 {
        0
    } else {
        laps_hitting(x, max_w, gcd_w, l - 1) + if x >= lap_threshold(max_w, gcd_w, l - 1) {
            1int
        } else {
            0int
        }
    }
}

/// The qualifying count falls as the start rises, strictly across a
/// qualifying position.
proof fn lemma_qual_count_mono(w: Seq<u64>, c: u64, i: int, j: int)
    requires
        0 <= i <= j <= w.len(),
    ensures
        qual_count_from(w, c, i) >= qual_count_from(w, c, j),
        i < j && w[i] >= c ==> qual_count_from(w, c, i) > qual_count_from(w, c, j),
    decreases j - i,
{
    if i < j {
        lemma_qual_count_mono(w, c, i + 1, j);
        lemma_qual_count_step(w, c, i + 1);
    }
}

/// Every qualifying position is the `k`-th one, for `k` the number of
/// qualifying positions before it.
proof fn lemma_qual_pos_of_rank(w: Seq<u64>, c: u64, i: int)
    requires
        0 <= i < w.len(),
        w[i] >= c,
    ensures
        0 <= qual_count_from(w, c, 0) - qual_count_from(w, c, i) < qual_count_from(w, c, 0),
        qual_pos(w, c, qual_count_from(w, c, 0) - qual_count_from(w, c, i)) == i,
{
    let count0 = qual_count_from(w, c, 0);
    lemma_qual_count_mono(w, c, 0, i);
    lemma_qual_count_step(w, c, i + 1);
    assert(qual_count_from(w, c, i) == 1 + qual_count_from(w, c, i + 1));
    let k = count0 - qual_count_from(w, c, i);
    lemma_qual_pos(w, c, k);
    let q = qual_pos(w, c, k);
    assert(qual_count_from(w, c, q) == 1 + qual_count_from(w, c, q + 1));
    assert(qual_count_from(w, c, q) == qual_count_from(w, c, i));
    if q < i {
        lemma_qual_count_mono(w, c, q, i);
    } else if i < q {
        lemma_qual_count_mono(w, c, i, q);
    }
}

/// Within lap `l`, the first `k` picks of the lap have selected node `i`
/// once exactly when its weight reaches the lap's threshold and fewer than
/// `k` qualifying positions precede it.
proof fn lemma_lap_count(w: Seq<u64>, gcd_w: u64, max_w: u64, l: int, k: int, i: int)
    requires
        wrr_regular(w, gcd_w, max_w),
        0 <= l < max_w as int / gcd_w as int,
        0 <= k <= qual_count_from(w, lap_threshold(max_w, gcd_w, l), 0),
        0 <= i < w.len(),
    ensures
        lap_start(w, max_w, gcd_w, l) + k >= 0,
        wrr_run_count(w, gcd_w, max_w, (lap_start(w, max_w, gcd_w, l) + k) as nat, i)
            == wrr_run_count(w, gcd_w, max_w, lap_start(w, max_w, gcd_w, l) as nat, i) + (
        if w[i] >= lap_threshold(max_w, gcd_w, l) && qual_count_from(
            w,
            lap_threshold(max_w, gcd_w, l),
            0,
        ) - qual_count_from(w, lap_threshold(max_w, gcd_w, l), i) < k {
            1int
        } else {
            0int
        }),
    decreases k,
{
    let c = lap_threshold(max_w, gcd_w, l);
    let start = lap_start(w, max_w, gcd_w, l);
    if k == 0 {
        lemma_lap_start_nonneg(w, gcd_w, max_w, l);
        lemma_qual_count_mono(w, c, 0, i);
    } else {
        lemma_lap_count(w, gcd_w, max_w, l, k - 1, i);
        lemma_run_position(w, gcd_w, max_w, l, k - 1);
        lemma_qual_pos(w, c, k - 1);
        let q = qual_pos(w, c, k - 1);
        let tk = (start + k) as nat;
        assert(start + k >= 1);
        assert((tk - 1) as nat == (start + k - 1) as nat);
        assert(wrr_run(w, gcd_w, max_w, tk).0 as int == q);
        assert(wrr_run_count(w, gcd_w, max_w, tk, i) == wrr_run_count(
            w,
            gcd_w,
            max_w,
            (tk - 1) as nat,
            i,
        ) + if wrr_run(w, gcd_w, max_w, tk).0 as int == i {
            1int
        } else {
            0int
        });
        assert(qual_count_from(w, c, q) == 1 + qual_count_from(w, c, q + 1));
        assert(qual_count_from(w, c, 0) - qual_count_from(w, c, q) == k - 1);
        let rank_i = qual_count_from(w, c, 0) - qual_count_from(w, c, i);
        if q == i {
            assert(w[i] >= c);
            assert(rank_i == k - 1);
            assert(wrr_run_count(w, gcd_w, max_w, tk, i) == wrr_run_count(
                w,
                gcd_w,
                max_w,
                lap_start(w, max_w, gcd_w, l) as nat,
                i,
            ) + 1);
        } else if w[i] >= c {
            lemma_qual_pos_of_rank(w, c, i);
            assert(rank_i != k - 1);
            assert(wrr_run_count(w, gcd_w, max_w, tk, i) == wrr_run_count(
                w,
                gcd_w,
                max_w,
                lap_start(w, max_w, gcd_w, l) as nat,
                i,
            ) + (if rank_i < k {
                1int
            } else {
                0int
            }));
        } else {
            assert(q != i);
            assert(wrr_run_count(w, gcd_w, max_w, tk, i) == wrr_run_count(
                w,
                gcd_w,
                max_w,
                lap_start(w, max_w, gcd_w, l) as nat,
                i,
            ));
        }
    }
}

/// The picks that precede a lap are never negative in number.
proof fn lemma_lap_start_nonneg(w: Seq<u64>, gcd_w: u64, max_w: u64, l: int)
    requires
        wrr_regular(w, gcd_w, max_w),
        l <= max_w as int / gcd_w as int,
    ensures
        lap_start(w, max_w, gcd_w, l) >= 0,
    decreases l,
{
    if l > 0 {
        lemma_lap_start_nonneg(w, gcd_w, max_w, l - 1);
        lemma_qual_count_step(w, lap_threshold(max_w, gcd_w, l - 1), 0);
    }
}

/// At every lap boundary, node `i` has been picked once per finished lap
/// whose threshold its weight reaches.
proof fn lemma_period_count(w: Seq<u64>, gcd_w: u64, max_w: u64, l: int, i: int)
    requires
        wrr_regular(w, gcd_w, max_w),
        0 <= l <= max_w as int / gcd_w as int,
        0 <= i < w.len(),
    ensures
        wrr_run_count(w, gcd_w, max_w, lap_start(w, max_w, gcd_w, l) as nat, i) == laps_hitting(
            w[i],
            max_w,
            gcd_w,
            l,
        ),
    decreases l,
{
    if l == 0 {
    } else {
        lemma_period_count(w, gcd_w, max_w, l - 1, i);
        let c = lap_threshold(max_w, gcd_w, l - 1);
        let count = qual_count_from(w, c, 0);
        lemma_qual_count_step(w, c, 0);
        lemma_lap_count(w, gcd_w, max_w, l - 1, count, i);
        if w[i] >= c {
            lemma_qual_pos_of_rank(w, c, i);
        }
    }
}

/// Over one full period, the number of laps whose threshold a weight
/// reaches is exactly that weight divided by the stride.
proof fn lemma_laps_hitting_total(x: u64, max_w: u64, gcd_w: u64, l: int)
    requires
        gcd_w > 0,
        max_w > 0,
        x <= max_w,
        max_w as int % gcd_w as int == 0,
        x as int % gcd_w as int == 0,
        0 <= l <= max_w as int / gcd_w as int,
    ensures
        laps_hitting(x, max_w, gcd_w, l) == (if l <= (max_w as int - x as int) / gcd_w as int {
            0int
        } else {
            l - (max_w as int - x as int) / gcd_w as int
        }),
        (max_w as int - x as int) / gcd_w as int == max_w as int / gcd_w as int - x as int
            / gcd_w as int,
    decreases l,
{
    let g = gcd_w as int;
    let m = max_w as int;
    let xi = x as int;
    vstd::arithmetic::div_mod::lemma_fundamental_div_mod(m, g);
    vstd::arithmetic::div_mod::lemma_fundamental_div_mod(xi, g);
    assert(m - xi == (m / g - xi / g) * g && m / g - xi / g >= 0) by (nonlinear_arith)
        requires
            m == g * (m / g) + m % g,
            xi == g * (xi / g) + xi % g,
            m % g == 0,
            xi % g == 0,
            g > 0,
            m - xi >= 0,
    ;
    vstd::arithmetic::div_mod::lemma_fundamental_div_mod_converse(m - xi, g, m / g - xi / g, 0);
    let d = (m - xi) / g;
    assert(d == m / g - xi / g);
    if l > 0 {
        lemma_laps_hitting_total(x, max_w, gcd_w, l - 1);
        assert(0 < m - (l - 1) * g <= m) by (nonlinear_arith)
            requires
                m == g * (m / g) + m % g,
                m % g == 0,
                g > 0,
                0 <= l - 1,
                l - 1 <= m / g - 1,
        ;
        assert(lap_threshold(max_w, gcd_w, l - 1) as int == m - (l - 1) * g);
        assert(xi >= m - (l - 1) * g <==> l - 1 >= d) by (nonlinear_arith)
            requires
                m - xi == d * g,
                g > 0,
        ;
    }
}

/// Qualifying positions come in strictly increasing order.
proof fn lemma_qual_pos_increasing(w: Seq<u64>, c: u64, k: int)
    requires
        0 <= k,
        k + 1 < qual_count_from(w, c, 0),
    ensures
        qual_pos(w, c, k) < qual_pos(w, c, k + 1),
{
    lemma_qual_pos(w, c, k);
    lemma_qual_pos(w, c, k + 1);
    lemma_first_qual_from(w, c, qual_pos(w, c, k) + 1);
}

/// The interleaving discipline of one lap: successive picks of a lap land
/// on strictly later snapshot positions, so within a lap no node is picked
/// twice, and a node can repeat only across a wrap past the front, where
/// the threshold steps down.
pub proof fn lemma_wrr_lap_interleaving(w: Seq<u64>, gcd_w: u64, max_w: u64, l: int, k: int)
    requires
        wrr_regular(w, gcd_w, max_w),
        0 <= l < max_w as int / gcd_w as int,
        0 <= k,
        k + 1 < qual_count_from(w, lap_threshold(max_w, gcd_w, l), 0),
    ensures
        wrr_run(w, gcd_w, max_w, (lap_start(w, max_w, gcd_w, l) + k + 1) as nat).0
            < wrr_run(w, gcd_w, max_w, (lap_start(w, max_w, gcd_w, l) + k + 2) as nat).0,
{
    lemma_run_position(w, gcd_w, max_w, l, k);
    lemma_run_position(w, gcd_w, max_w, l, k + 1);
    lemma_qual_pos_increasing(w, lap_threshold(max_w, gcd_w, l), k);
    lemma_qual_pos(w, lap_threshold(max_w, gcd_w, l), k);
    lemma_qual_pos(w, lap_threshold(max_w, gcd_w, l), k + 1);
}

/// No weight exceeds the maximum.
proof fn lemma_max_weight_bounds(w: Seq<u64>)
    ensures
        forall|j: int| 0 <= j < w.len() ==> w[j] <= max_weight(w),
    decreases w.len(),
{
    if w.len() > 0 {
        lemma_max_weight_bounds(w.drop_last());
        assert forall|j: int| 0 <= j < w.len() implies w[j] <= max_weight(w) by {
            if j < w.len() - 1 {
                assert(w.drop_last()[j] == w[j]);
            }
        }
    }
}

/// Fairness of smooth weighted round robin: over one full period — the
/// `max_w / gcd_w` laps of a freshly built picker, `lap_start` of that many
/// laps picks in all — the picker lands on each snapshot position exactly
/// its weight divided by the stride, the gcd of the positive weights.
pub proof fn lemma_wrr_fairness(w: Seq<u64>, gcd_w: u64, max_w: u64, i: int)
    requires
        wrr_regular(w, gcd_w, max_w),
        0 <= i < w.len(),
    ensures
        wrr_run_count(
            w,
            gcd_w,
            max_w,
            lap_start(w, max_w, gcd_w, max_w as int / gcd_w as int) as nat,
            i,
        ) == w[i] as int / gcd_w as int,
{
    let g = gcd_w as int;
    let m = max_w as int;
    let x = w[i];
    let xi = x as int;
    let laps = m / g;
    lemma_lap_start_nonneg(w, gcd_w, max_w, laps);
    lemma_period_count(w, gcd_w, max_w, laps, i);
    lemma_max_weight_attained(w);
    let p = choose|p: int| 0 <= p < w.len() && w[p] == max_w;
    lemma_gcd_of_positive_divides(w);
    assert(m % g == 0);
    lemma_max_weight_bounds(w);
    if x == 0 {
        vstd::arithmetic::div_mod::lemma_small_mod(0, gcd_w as nat);
        lemma_laps_hitting_total(x, max_w, gcd_w, laps);
        assert((m - 0int) / g == m / g - 0int / g);
        vstd::arithmetic::div_mod::lemma_div_of0(g);
        assert(laps_hitting(x, max_w, gcd_w, laps) == 0);
    } else {
        assert(xi % g == 0);
        lemma_laps_hitting_total(x, max_w, gcd_w, laps);
        let d = (m - xi) / g;
        assert(d == m / g - xi / g);
        vstd::arithmetic::div_mod::lemma_fundamental_div_mod(xi, g);
        assert(xi / g > 0) by (nonlinear_arith)
            requires
                xi == g * (xi / g) + xi % g,
                xi % g == 0,
                xi > 0,
                g > 0,
        ;
        assert(laps > d);
        assert(laps_hitting(x, max_w, gcd_w, laps) == laps - d);
    }
}

/// The sum, over the first `n` positions, of each weight divided by the
/// stride.
pub open spec fn sum_quotients(w: Seq<u64>, gcd_w: u64, n: int) -> int
    decreases n,
{
    if n <= 0 {
        0
    } else {
        sum_quotients(w, gcd_w, n - 1) + w[n - 1] as int / gcd_w as int
    }
}

/// Every pick of the trace lands inside the snapshot.
proof fn lemma_run_in_range(w: Seq<u64>, gcd_w: u64, max_w: u64, t: nat)
    requires
        w.len() > 0,
        t > 0,
    ensures
        wrr_run(w, gcd_w, max_w, t).0 < w.len(),
{
    let prev = wrr_run(w, gcd_w, max_w, (t - 1) as nat);
    lemma_wrr_search_in_range(w, gcd_w, max_w, prev.0, prev.1, (2 * w.len()) as nat);
}

/// The first `n` per-position counts of `t` picks sum to the number of
/// those picks that landed below position `n`; over the whole snapshot,
/// to `t` itself.
proof fn lemma_count_total(w: Seq<u64>, gcd_w: u64, max_w: u64, t: nat, n: int)
    requires
        w.len() > 0,
        0 <= n <= w.len(),
    ensures
        count_total(w, gcd_w, max_w, t, n) >= 0,
        n == w.len() ==> count_total(w, gcd_w, max_w, t, n) == t,
    decreases t,
{
    if t == 0 {
        lemma_count_total_zero(w, gcd_w, max_w, n);
    } else {
        lemma_count_total(w, gcd_w, max_w, (t - 1) as nat, n);
        lemma_run_in_range(w, gcd_w, max_w, t);
        lemma_count_total_step(w, gcd_w, max_w, t, n);
    }
}

/// The sum of the first `n` per-position counts.
pub open spec fn count_total(w: Seq<u64>, gcd_w: u64, max_w: u64, t: nat, n: int) -> int
    decreases n,
{
    if n <= 0 {
        0
    } else {
        count_total(w, gcd_w, max_w, t, n - 1) + wrr_run_count(w, gcd_w, max_w, t, n - 1)
    }
}

proof fn lemma_count_total_zero(w: Seq<u64>, gcd_w: u64, max_w: u64, n: int)
    ensures
        count_total(w, gcd_w, max_w, 0, n) == 0,
    decreases n,
{
    if n > 0 {
        lemma_count_total_zero(w, gcd_w, max_w, n - 1);
    }
}

proof fn lemma_count_total_step(w: Seq<u64>, gcd_w: u64, max_w: u64, t: nat, n: int)
    requires
        t > 0,
    ensures
        count_total(w, gcd_w, max_w, t, n) == count_total(w, gcd_w, max_w, (t - 1) as nat, n) + (
        if (wrr_run(w, gcd_w, max_w, t).0 as int) < n {
            1int
        } else {
            0int
        }),
    decreases n,
{
    if n > 0 {
        lemma_count_total_step(w, gcd_w, max_w, t, n - 1);
    }
}

/// The first `n` per-position counts of one full period sum to the first
/// `n` weight quotients.
proof fn lemma_count_total_eq_sum(w: Seq<u64>, gcd_w: u64, max_w: u64, n: int)
    requires
        wrr_regular(w, gcd_w, max_w),
        0 <= n <= w.len(),
    ensures
        count_total(
            w,
            gcd_w,
            max_w,
            lap_start(w, max_w, gcd_w, max_w as int / gcd_w as int) as nat,
            n,
        ) == sum_quotients(w, gcd_w, n),
    decreases n,
{
    lemma_lap_start_nonneg(w, gcd_w, max_w, max_w as int / gcd_w as int);
    if n > 0 {
        lemma_count_total_eq_sum(w, gcd_w, max_w, n - 1);
        lemma_wrr_fairness(w, gcd_w, max_w, n - 1);
    }
}

/// One full period of a freshly built picker is exactly the sum of the
/// weights divided by their gcd: that many picks return to the starting
/// distribution, each position having been chosen its weight's share.
pub proof fn lemma_wrr_period_length(w: Seq<u64>, gcd_w: u64, max_w: u64)
    requires
        wrr_regular(w, gcd_w, max_w),
    ensures
        lap_start(w, max_w, gcd_w, max_w as int / gcd_w as int) == sum_quotients(
            w,
            gcd_w,
            w.len() as int,
        ),
{
    let period = lap_start(w, max_w, gcd_w, max_w as int / gcd_w as int);
    lemma_lap_start_nonneg(w, gcd_w, max_w, max_w as int / gcd_w as int);
    lemma_count_total(w, gcd_w, max_w, period as nat, w.len() as int);
    lemma_count_total_eq_sum(w, gcd_w, max_w, w.len() as int);
}

/// A freshly built picker starts at the head of the pick trace, and every
/// pick follows it: from the cursor and threshold that `wrr_run` gives
/// after `t` picks, one more pick moves to the state after `t + 1` picks
/// and returns exactly the node at the position the trace names.
pub proof fn lemma_wrr_pick_follows_run(p: WrrPicker, t: nat)
    requires
        wrr_wf(p),
        p.nodes@.len() > 0,
        p.max_w > 0,
        p.idx == wrr_run(p.weights@, p.gcd_w, p.max_w, t).0,
        p.cw == wrr_run(p.weights@, p.gcd_w, p.max_w, t).1,
    ensures
        wrr_next_state(p).idx == wrr_run(p.weights@, p.gcd_w, p.max_w, (t + 1) as nat).0,
        wrr_next_state(p).cw == wrr_run(p.weights@, p.gcd_w, p.max_w, (t + 1) as nat).1,
        wrr_result(p) == Ok::<Node, LoadBalanceError>(
            p.nodes@[wrr_run(p.weights@, p.gcd_w, p.max_w, (t + 1) as nat).0 as int],
        ),
{
    assert(p.weights@.len() == p.nodes@.len());
}

/// Two weighted-round-robin pickers freshly built from the same snapshot
/// are at equal internal state: they choose the same node and advance to
/// the same cursor and threshold.
pub proof fn lemma_wrr_deterministic(nodes: Seq<Node>, p1: WrrPicker, p2: WrrPicker)
    requires
        wrr_built(p1, nodes),
        wrr_wf(p1),
        wrr_built(p2, nodes),
        wrr_wf(p2),
    ensures
        wrr_result(p1) == wrr_result(p2),
        wrr_next_state(p1).idx == wrr_next_state(p2).idx,
        wrr_next_state(p1).cw == wrr_next_state(p2).cw,
{
    assert(p1.weights@ == p2.weights@);
}

/// The picker state after one pick.
pub open spec fn wrr_next_state(p: WrrPicker) -> WrrPicker {
    let len = p.nodes@.len() as int;
    if len == 0 {
        p
    } else if p.max_w == 0 {
        WrrPicker { idx: wrr_step_idx(p.idx, len), ..p }
    } else {
        let s = wrr_search(p.weights@, p.gcd_w, p.max_w, p.idx, p.cw, (2 * len) as nat);
        WrrPicker { idx: s.0, cw: s.1, ..p }
    }
}

/// What one pick returns.
pub open spec fn wrr_result(p: WrrPicker) -> Result<Node, LoadBalanceError> {
    let len = p.nodes@.len() as int;
    if len == 0 {
        Err(LoadBalanceError::NoAvailableNodes)
    } else if p.max_w == 0 {
        Ok(p.nodes@[wrr_step_idx(p.idx, len) as int])
    } else {
        Ok(p.nodes@[wrr_search(p.weights@, p.gcd_w, p.max_w, p.idx, p.cw, (2 * len) as nat).0 as int])
    }
}

impl WrrPicker {
    /// Record the weights of `nodes` and start the cursor before the front.
    pub fn new(nodes: Vec<Node>) -> (r: Self)
        ensures
            wrr_built(r, nodes@),
            wrr_wf(r),
    {
        let mut weights: Vec<u64> = Vec::new();
        let mut max_w: u64 = 0;
        let mut gcd_w: u64 = 0;
        let mut i: usize = 0;
        while i < nodes.len()
            invariant
                i <= nodes@.len(),
                weights@ == weights_of(nodes@.subrange(0, i as int)),
                max_w == max_weight(weights@),
                gcd_w == gcd_of_positive(weights@),
            decreases nodes@.len() - i,
        {
            let w: u64 = nodes[i].weight as u64;
            if w > 0 {
                if w > max_w {
                    max_w = w;
                }
                gcd_w = if gcd_w == 0 {
                    w
                } else {
                    gcd(gcd_w, w)
                };
            }
            weights.push(w);
            proof {
                assert(weights_of(nodes@.subrange(0, (i + 1) as int)) =~= weights_of(
                    nodes@.subrange(0, i as int),
                ).push(w));
                assert(weights@.drop_last() =~= weights_of(nodes@.subrange(0, i as int)));
            }
            i = i + 1;
        }
        proof {
            assert(nodes@.subrange(0, nodes@.len() as int) =~= nodes@);
        }
        WrrPicker {
            nodes,
            weights,
            max_w,
            gcd_w: if gcd_w == 0 {
                1
            } else {
                gcd_w
            },
            idx: usize::MAX,
            cw: 0,
        }
    }

    pub fn pick(&mut self, _req: &RequestMetadata) -> (r: Result<Node, LoadBalanceError>)
        requires
            wrr_wf(*old(self)),
        ensures
            *final(self) == wrr_next_state(*old(self)),
            r == wrr_result(*old(self)),
            wrr_wf(*final(self)),
            r matches Ok(n) ==> exists|j: int|
                0 <= j < old(self).nodes@.len() && old(self).nodes@[j] == n,
    {
        let len = self.nodes.len();
        if len == 0 {
            return Err(LoadBalanceError::NoAvailableNodes);
        }
        if self.max_w == 0 {
            let i2 = if self.idx == usize::MAX {
                0
            } else {
                (self.idx + 1) % len
            };
            self.idx = i2;
            let n = self.nodes[i2].clone();
            proof {
                assert(0 <= (i2 as int) && (i2 as int) < old(self).nodes@.len() && old(self).nodes@[i2 as int] == n);
            }
            return Ok(n);
        }
        let ghost w0 = self.weights@;
        let ghost idx0 = self.idx;
        let ghost cw0 = self.cw;
        let ghost total: nat = (2 * len as int) as nat;
        let mut fuel: u128 = 2 * (len as u128);
        let mut i: usize = self.idx;
        let mut cw: u64 = self.cw;
        loop
            invariant_except_break
                0 < len == self.weights@.len(),
                self.weights@ == w0,
                i == usize::MAX || i < len,
                fuel <= total,
                wrr_search(w0, self.gcd_w, self.max_w, idx0, cw0, total) == wrr_search(
                    w0,
                    self.gcd_w,
                    self.max_w,
                    i,
                    cw,
                    fuel as nat,
                ),
            ensures
                0 < len == self.weights@.len(),
                self.weights@ == w0,
                i < len,
                (i, cw) == wrr_search(w0, self.gcd_w, self.max_w, idx0, cw0, total),
            decreases fuel,
        {
            let i2 = if i == usize::MAX {
                0
            } else {
                (i + 1) % len
            };
            let c2 = if i2 == 0 {
                let dec = if cw > self.gcd_w {
                    cw - self.gcd_w
                } else {
                    0
                };
                if dec == 0 {
                    self.max_w
                } else {
                    dec
                }
            } else {
                cw
            };
            i = i2;
            cw = c2;
            if self.weights[i] >= cw || fuel == 0 {
                break;
            }
            fuel = fuel - 1;
        }
        self.idx = i;
        self.cw = cw;
        let n = self.nodes[i].clone();
        proof {
            assert(0 <= (i as int) && (i as int) < old(self).nodes@.len() && old(self).nodes@[i as int] == n);
        }
        Ok(n)
    }
}

/// Euclid's algorithm on 64-bit integers.
pub fn gcd(a: u64, b: u64) -> (r: u64)
    ensures
        r == spec_gcd(a as nat, b as nat),
    decreases b,
{
    if b == 0 {
        a
    } else {
        gcd(b, a % b)
    }
}

impl BalanceStrategy for WeightedRoundRobin {
    open spec fn build_ensures(&self, nodes: Seq<Node>, p: Picker) -> bool {
        p matches Picker::WeightedRoundRobin(rp) && wrr_built(rp, nodes) && wrr_wf(rp)
    }

    proof fn build_ensures_implies_bound(&self, nodes: Seq<Node>, p: Picker) {
    }

    fn build_picker(&self, nodes: Vec<Node>) -> (p: Picker) {
        Picker::WeightedRoundRobin(WrrPicker::new(nodes))
    }
}

} // verus!
