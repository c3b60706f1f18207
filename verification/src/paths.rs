//! All-pairs shortest paths over a well-formed graph.
//!
//! The distance between two node indices is specified as the least total
//! weight of any walk joining them (`dist` below, defined through the
//! classic intermediate-set recurrence `fw` and characterised against walks
//! by the lemmas in this module), and the number of shortest paths joining
//! them as the count of distinct shortest simple paths
//! (`shortest_path_count`). The executable engine fills dense matrices by
//! dynamic programming; distances are exact, and for strictly positive
//! weights the computed counts are proved equal to `shortest_path_count`.

use vstd::prelude::*;

use crate::graph::Graph;
use crate::graph::weights_ok;
use crate::graph::lemma_wt_nonneg;

verus! {

/// Why the engine refused a graph: a recorded edge weight was negative
/// (a configuration error), or an exact intermediate value exceeded the
/// machine range.
#[derive(Clone, Copy, Debug, PartialEq, Eq, Structural)]
pub enum CentralityError {
    NegativeWeight,
    Overflow,
}

/// An `i64` edge weight lifted to an unbounded optional integer.
pub open spec fn lift_w(w: Option<i64>) -> Option<int> {
    match w {
        Some(x) => Some(x as int),
        None => None,
    }
}

/// Undirected edge weight between node indices as an unbounded integer.
pub open spec fn wt_int(g: Graph, i: int, j: int) -> Option<int> {
    lift_w(g.wt(i, j))
}

/// Sum of two optional integers; absence means "no connection".
pub open spec fn o_add(a: Option<int>, b: Option<int>) -> Option<int> {
    match (a, b) {
        (Some(x), Some(y)) => Some(x + y),
        _ => None,
    }
}

/// Minimum of two optional integers, where absence counts as infinity.
pub open spec fn o_min(a: Option<int>, b: Option<int>) -> Option<int> {
    match (a, b) {
        (Option::None, Option::None) => Option::None,
        (Option::Some(x), Option::None) => Option::Some(x),
        (Option::None, Option::Some(y)) => Option::Some(y),
        (Option::Some(x), Option::Some(y)) => if x <= y {
            Option::Some(x)
        } else {
            Option::Some(y)
        },
    }
}

/// Least weight of a walk from `i` to `j` whose interior nodes all lie
/// below `k`; `None` when no such walk exists. This is the standard
/// intermediate-set recurrence for shortest paths.
pub open spec fn fw(g: Graph, i: int, j: int, k: int) -> Option<int>
    decreases k,
{
    if k <= 0 {
        if i == j {
            Some(0)
        } else {
            wt_int(g, i, j)
        }
    } else {
        o_min(fw(g, i, j, k - 1), o_add(fw(g, i, k - 1, k - 1), fw(g, k - 1, j, k - 1)))
    }
}

/// Shortest-path distance between node indices: least total weight of any
/// walk, `None` if the nodes are disconnected, `Some(0)` on the diagonal.
pub open spec fn dist(g: Graph, i: int, j: int) -> Option<int> {
    fw(g, i, j, g.n() as int)
}

/// Every defined `fw` value is nonnegative.
pub proof fn lemma_fw_nonneg(g: Graph, i: int, j: int, k: int)
    requires
        g.wf(),
        weights_ok(g),
        fw(g, i, j, k) is Some,
    ensures
        fw(g, i, j, k)->0 >= 0,
    decreases k,
{
    if k <= 0 {
        if i != j {
            lemma_wt_nonneg(g, i, j, g.wt(i, j)->0);
        }
    } else {
        if fw(g, i, j, k - 1) is Some {
            lemma_fw_nonneg(g, i, j, k - 1);
        }
        if fw(g, i, k - 1, k - 1) is Some && fw(g, k - 1, j, k - 1) is Some {
            lemma_fw_nonneg(g, i, k - 1, k - 1);
            lemma_fw_nonneg(g, k - 1, j, k - 1);
        }
    }
}

/// The distance from a node to itself is zero at every recurrence level.
pub proof fn lemma_fw_self(g: Graph, i: int, k: int)
    requires
        g.wf(),
        weights_ok(g),
    ensures
        fw(g, i, i, k) == Some(0int),
    decreases k,
{
    if k > 0 {
        lemma_fw_self(g, i, k - 1);
        if fw(g, i, k - 1, k - 1) is Some && fw(g, k - 1, i, k - 1) is Some {
            lemma_fw_nonneg(g, i, k - 1, k - 1);
            lemma_fw_nonneg(g, k - 1, i, k - 1);
        }
    }
}

/// Allowing `k` itself as an interior node changes no distance that ends or
/// starts at `k`.
pub proof fn lemma_fw_stable(g: Graph, i: int, j: int, k: int)
    requires
        g.wf(),
        weights_ok(g),
        k >= 0,
    ensures
        fw(g, i, k, k + 1) == fw(g, i, k, k),
        fw(g, k, j, k + 1) == fw(g, k, j, k),
{
    lemma_fw_self(g, k, k);
    if fw(g, i, k, k) is Some {
        lemma_fw_nonneg(g, i, k, k);
    }
    if fw(g, k, j, k) is Some {
        lemma_fw_nonneg(g, k, j, k);
    }
}

/// A walk: a nonempty sequence of node indices in which every consecutive
/// pair is joined by an edge.
pub open spec fn is_walk(g: Graph, p: Seq<int>) -> bool {
    &&& p.len() >= 1
    &&& forall|t: int| 0 <= t < p.len() ==> 0 <= #[trigger] p[t] < g.n()
    &&& forall|t: int| 0 <= t < p.len() - 1 ==> wt_int(g, #[trigger] p[t], p[t + 1]) is Some
}

/// Total weight of a walk.
pub open spec fn walk_cost(g: Graph, p: Seq<int>) -> int
    decreases p.len(),
{
    if p.len() <= 1 {
        0
    } else {
        wt_int(g, p[0], p[1])->0 + walk_cost(g, p.drop_first())
    }
}

/// All interior nodes of the sequence lie below `k`.
pub open spec fn interior_below(p: Seq<int>, k: int) -> bool {
    forall|t: int| 1 <= t < p.len() - 1 ==> #[trigger] p[t] < k
}

/// A walk over nonnegative weights has nonnegative cost.
pub proof fn lemma_walk_cost_nonneg(g: Graph, p: Seq<int>)
    requires
        g.wf(),
        weights_ok(g),
        is_walk(g, p),
    ensures
        walk_cost(g, p) >= 0,
    decreases p.len(),
{
    if p.len() > 1 {
        lemma_wt_nonneg(g, p[0], p[1], g.wt(p[0], p[1])->0);
        assert(is_walk(g, p.drop_first()));
        lemma_walk_cost_nonneg(g, p.drop_first());
    }
}

/// Splitting a walk at position `t` yields two walks whose costs add up.
pub proof fn lemma_walk_split(g: Graph, p: Seq<int>, t: int)
    requires
        is_walk(g, p),
        0 <= t < p.len(),
    ensures
        is_walk(g, p.take(t + 1)),
        is_walk(g, p.skip(t)),
        p.take(t + 1).first() == p.first(),
        p.take(t + 1).last() == p[t],
        p.skip(t).first() == p[t],
        p.skip(t).last() == p.last(),
        walk_cost(g, p) == walk_cost(g, p.take(t + 1)) + walk_cost(g, p.skip(t)),
    decreases t,
{
    if t == 0 {
        assert(p.take(1) =~= seq![p[0]]);
        assert(p.skip(0) =~= p);
    } else {
        lemma_walk_split(g, p.drop_first(), t - 1);
        assert(p.drop_first().take(t) =~= p.take(t + 1).drop_first());
        assert(p.drop_first().skip(t - 1) =~= p.skip(t));
        assert(is_walk(g, p.take(t + 1)));
        assert(walk_cost(g, p.take(t + 1))
            == wt_int(g, p[0], p[1])->0 + walk_cost(g, p.drop_first().take(t)));
    }
}

/// Joining a walk ending at `v` with a walk starting at `v` yields a walk
/// whose cost is the sum of the two.
#[verifier::rlimit(50)]
pub proof fn lemma_walk_concat(g: Graph, p: Seq<int>, q: Seq<int>)
    requires
        is_walk(g, p),
        is_walk(g, q),
        p.last() == q.first(),
    ensures
        is_walk(g, p + q.drop_first()),
        (p + q.drop_first()).first() == p.first(),
        (p + q.drop_first()).last() == if q.len() == 1 {
            p.last()
        } else {
            q.last()
        },
        walk_cost(g, p + q.drop_first()) == walk_cost(g, p) + walk_cost(g, q),
    decreases p.len(),
{
    if p.len() == 1 {
        assert(p + q.drop_first() =~= q);
    } else {
        lemma_walk_concat(g, p.drop_first(), q);
        assert((p + q.drop_first()).drop_first() =~= p.drop_first() + q.drop_first());
        let c = p + q.drop_first();
        assert(c[0] == p[0] && c[1] == p[1]);
        assert(is_walk(g, c));
    }
}

/// Position of the first interior occurrence of `x`, scanning from `s`.
pub open spec fn first_occ_from(p: Seq<int>, x: int, s: int) -> int
    decreases p.len() - s,
{
    if s >= p.len() - 1 {
        0
    } else if p[s] == x {
        s
    } else {
        first_occ_from(p, x, s + 1)
    }
}

/// Position of the last interior occurrence of `x`, scanning down from `e`.
pub open spec fn last_occ_to(p: Seq<int>, x: int, e: int) -> int
    decreases e,
{
    if e <= 0 {
        0
    } else if p[e] == x {
        e
    } else {
        last_occ_to(p, x, e - 1)
    }
}

pub proof fn lemma_first_occ(p: Seq<int>, x: int, s: int)
    requires
        1 <= s,
        exists|t: int| s <= t < p.len() - 1 && p[t] == x,
    ensures
        ({
            let t = first_occ_from(p, x, s);
            &&& s <= t < p.len() - 1
            &&& p[t] == x
            &&& forall|u: int| s <= u < t ==> p[u] != x
        }),
    decreases p.len() - s,
{
    if s < p.len() - 1 && p[s] != x {
        lemma_first_occ(p, x, s + 1);
    }
}

pub proof fn lemma_last_occ(p: Seq<int>, x: int, e: int)
    requires
        e <= p.len() - 2,
        exists|t: int| 1 <= t <= e && p[t] == x,
    ensures
        ({
            let t = last_occ_to(p, x, e);
            &&& 1 <= t <= e
            &&& p[t] == x
            &&& forall|u: int| t < u <= e ==> p[u] != x
        }),
    decreases e,
{
    if e > 0 && p[e] != x {
        lemma_last_occ(p, x, e - 1);
    }
}

/// Lower bound: the recurrence value never exceeds the cost of any walk
/// whose interior stays below `k`.
pub proof fn lemma_fw_le_walk(g: Graph, p: Seq<int>, k: int)
    requires
        g.wf(),
        weights_ok(g),
        is_walk(g, p),
        interior_below(p, k),
        k >= 0,
    ensures
        fw(g, p.first(), p.last(), k) is Some,
        fw(g, p.first(), p.last(), k)->0 <= walk_cost(g, p),
    decreases k, 1int,
{
    let i = p.first();
    let j = p.last();
    if k == 0 {
        if p.len() == 1 {
            assert(i == j);
        } else if p.len() == 2 {
            assert(p[0] == i && p[1] == j);
            assert(p.drop_first().len() == 1);
            assert(walk_cost(g, p.drop_first()) == 0);
            assert(walk_cost(g, p) == wt_int(g, i, j)->0);
            if i == j {
                crate::graph::lemma_no_self_loops_no_duplicates(g);
                assert(wt_int(g, i, j) is None);
                assert(false);
            }
        } else {
            // a walk of three or more nodes has an interior node, which
            // cannot lie below 0
            assert(1 <= 1 < p.len() - 1 && p[1] < 0);
            assert(false);
        }
    } else {
        if exists|t: int| 1 <= t < p.len() - 1 && #[trigger] p[t] == k - 1 {
            lemma_fw_le_walk_via(g, p, k);
        } else {
            assert(interior_below(p, k - 1)) by {
                assert forall|t: int| 1 <= t < p.len() - 1 implies #[trigger] p[t] < k - 1 by {
                    assert(p[t] < k);
                    assert(p[t] != k - 1);
                }
            }
            lemma_fw_le_walk(g, p, k - 1);
        }
    }
}

/// The lower bound in the case where the walk's interior visits `k - 1`:
/// cut the walk at the first and last such visits and recurse on the two
/// outer pieces.
proof fn lemma_fw_le_walk_via(g: Graph, p: Seq<int>, k: int)
    requires
        g.wf(),
        weights_ok(g),
        is_walk(g, p),
        interior_below(p, k),
        k >= 1,
        exists|t: int| 1 <= t < p.len() - 1 && #[trigger] p[t] == k - 1,
    ensures
        fw(g, p.first(), p.last(), k) is Some,
        fw(g, p.first(), p.last(), k)->0 <= walk_cost(g, p),
    decreases k, 0int,
{
    let i = p.first();
    let j = p.last();
    let te = choose|t: int| 1 <= t < p.len() - 1 && #[trigger] p[t] == k - 1;
    lemma_first_occ(p, k - 1, 1);
    lemma_last_occ(p, k - 1, p.len() - 2);
    let t1 = first_occ_from(p, k - 1, 1);
    let t2 = last_occ_to(p, k - 1, p.len() - 2);
    assert(1 <= t1 < p.len() - 1 && p[t1] == k - 1);
    assert(1 <= t2 < p.len() - 1 && p[t2] == k - 1);
    assert(t1 <= t2) by {
        if t2 < t1 {
            assert(p[te] != k - 1);
        }
    }
    lemma_walk_split(g, p, t2);
    let pre = p.take(t2 + 1);
    let p2 = p.skip(t2);
    lemma_walk_split(g, pre, t1);
    let p1 = pre.take(t1 + 1);
    let mid = pre.skip(t1);
    assert(walk_cost(g, p1) + walk_cost(g, p2) <= walk_cost(g, p)) by {
        lemma_walk_cost_nonneg(g, mid);
    }
    assert(p1.first() == i && p1.last() == k - 1) by {
        assert(pre[t1] == p[t1]);
    }
    assert(p2.first() == k - 1 && p2.last() == j);
    assert(interior_below(p1, k - 1)) by {
        assert forall|u: int| 1 <= u < p1.len() - 1 implies #[trigger] p1[u] < k - 1 by {
            assert(p1[u] == pre[u] && pre[u] == p[u]);
            assert(p[u] < k);
            assert(p[u] != k - 1);
        }
    }
    assert(interior_below(p2, k - 1)) by {
        assert forall|u: int| 1 <= u < p2.len() - 1 implies #[trigger] p2[u] < k - 1 by {
            assert(p2[u] == p[t2 + u]);
            assert(t2 < t2 + u <= p.len() - 2);
            assert(p[t2 + u] < k);
            assert(p[t2 + u] != k - 1);
        }
    }
    lemma_fw_le_walk(g, p1, k - 1);
    lemma_fw_le_walk(g, p2, k - 1);
    assert(o_add(fw(g, i, k - 1, k - 1), fw(g, k - 1, j, k - 1)) is Some);
    assert(o_add(fw(g, i, k - 1, k - 1), fw(g, k - 1, j, k - 1))->0 <= walk_cost(g, p));
}

/// Achievability: every defined recurrence value is the cost of an actual
/// walk whose interior stays below `k`.
pub proof fn lemma_fw_walk_exists(g: Graph, i: int, j: int, k: int)
    requires
        g.wf(),
        weights_ok(g),
        0 <= i < g.n(),
        0 <= j < g.n(),
        0 <= k <= g.n(),
        fw(g, i, j, k) is Some,
    ensures
        exists|p: Seq<int>|
            is_walk(g, p) && (#[trigger] p.first()) == i && p.last() == j
                && interior_below(p, k) && walk_cost(g, p) == fw(g, i, j, k)->0,
    decreases k,
{
    if k == 0 {
        if i == j {
            let p = seq![i];
            assert(is_walk(g, p) && p.first() == i && p.last() == j && interior_below(p, 0)
                && walk_cost(g, p) == fw(g, i, j, 0)->0);
        } else {
            let p = seq![i, j];
            assert(p.len() == 2 && p[0] == i && p[1] == j);
            assert(p.drop_first() =~= seq![j]);
            assert(is_walk(g, p));
            assert(walk_cost(g, p) == wt_int(g, i, j)->0 + walk_cost(g, p.drop_first()));
            assert(walk_cost(g, p.drop_first()) == 0);
            assert(is_walk(g, p) && p.first() == i && p.last() == j && interior_below(p, 0)
                && walk_cost(g, p) == fw(g, i, j, 0)->0);
        }
    } else {
        let prev = fw(g, i, j, k - 1);
        let thru = o_add(fw(g, i, k - 1, k - 1), fw(g, k - 1, j, k - 1));
        if prev is Some && fw(g, i, j, k) == prev {
            lemma_fw_walk_exists(g, i, j, k - 1);
            let p = choose|p: Seq<int>|
                is_walk(g, p) && (#[trigger] p.first()) == i && p.last() == j
                    && interior_below(p, k - 1) && walk_cost(g, p) == fw(g, i, j, k - 1)->0;
            assert(interior_below(p, k));
            assert(is_walk(g, p) && p.first() == i && p.last() == j
                && interior_below(p, k) && walk_cost(g, p) == fw(g, i, j, k)->0);
        } else {
            assert(thru is Some && fw(g, i, j, k) == thru);
            lemma_fw_walk_exists(g, i, k - 1, k - 1);
            lemma_fw_walk_exists(g, k - 1, j, k - 1);
            let p1 = choose|p: Seq<int>|
                is_walk(g, p) && (#[trigger] p.first()) == i && p.last() == k - 1
                    && interior_below(p, k - 1) && walk_cost(g, p) == fw(g, i, k - 1, k - 1)->0;
            let p2 = choose|p: Seq<int>|
                is_walk(g, p) && (#[trigger] p.first()) == k - 1 && p.last() == j
                    && interior_below(p, k - 1) && walk_cost(g, p) == fw(g, k - 1, j, k - 1)->0;
            lemma_walk_concat(g, p1, p2);
            let c = p1 + p2.drop_first();
            assert(c.last() == j) by {
                if p2.len() == 1 {
                    assert(p2.first() == p2.last());
                }
            }
            assert(interior_below(c, k)) by {
                assert forall|t: int| 1 <= t < c.len() - 1 implies #[trigger] c[t] < k by {
                    if t < p1.len() - 1 {
                        assert(c[t] == p1[t]);
                    } else if t == p1.len() - 1 {
                        assert(c[t] == k - 1);
                    } else {
                        assert(c[t] == p2.drop_first()[t - p1.len()]);
                        assert(c[t] == p2[t - p1.len() + 1]);
                        assert(1 <= t - p1.len() + 1 < p2.len() - 1);
                    }
                }
            }
            assert(is_walk(g, c) && c.first() == i && c.last() == j
                && interior_below(c, k) && walk_cost(g, c) == fw(g, i, j, k)->0);
        }
    }
}

/// The shortest-path distance is what its name says: when `dist` is defined
/// it is the cost of an actual walk and no walk costs less, and when it is
/// not defined there is no walk at all.
pub proof fn lemma_dist_characterization(g: Graph, i: int, j: int)
    requires
        g.wf(),
        weights_ok(g),
        0 <= i < g.n(),
        0 <= j < g.n(),
    ensures
        dist(g, i, j) is Some ==> exists|p: Seq<int>|
            is_walk(g, p) && (#[trigger] p.first()) == i && p.last() == j
                && walk_cost(g, p) == dist(g, i, j)->0,
        forall|p: Seq<int>|
            is_walk(g, p) && (#[trigger] p.first()) == i && p.last() == j
                ==> dist(g, i, j) is Some && dist(g, i, j)->0 <= walk_cost(g, p),
{
    let n = g.n() as int;
    if dist(g, i, j) is Some {
        lemma_fw_walk_exists(g, i, j, n);
        let p = choose|p: Seq<int>|
            is_walk(g, p) && (#[trigger] p.first()) == i && p.last() == j
                && interior_below(p, n) && walk_cost(g, p) == fw(g, i, j, n)->0;
        assert(is_walk(g, p) && p.first() == i && p.last() == j
            && walk_cost(g, p) == dist(g, i, j)->0);
    }
    assert forall|p: Seq<int>|
        is_walk(g, p) && (#[trigger] p.first()) == i && p.last() == j
            implies dist(g, i, j) is Some && dist(g, i, j)->0 <= walk_cost(g, p) by {
        assert(interior_below(p, n));
        lemma_fw_le_walk(g, p, n);
    }
}

/// Order on optional distances with absence as infinity.
pub open spec fn dle(a: Option<int>, b: Option<int>) -> bool {
    match (a, b) {
        (Option::Some(x), Option::Some(y)) => x <= y,
        (Option::Some(_), Option::None) => true,
        (Option::None, Option::None) => true,
        (Option::None, Option::Some(_)) => false,
    }
}

/// The edge `(u, v)` lies on a shortest path from `s` and strictly
/// increases the distance: `u` is closer to `s` and the edge closes the
/// gap exactly.
pub open spec fn tight(g: Graph, s: int, u: int, v: int) -> bool {
    &&& 0 <= u < g.n()
    &&& wt_int(g, u, v) is Some
    &&& dist(g, s, u) is Some
    &&& dist(g, s, v) is Some
    &&& dist(g, s, u)->0 >= 0
    &&& dist(g, s, u)->0 < dist(g, s, v)->0
    &&& dist(g, s, u)->0 + wt_int(g, u, v)->0 == dist(g, s, v)->0
}

/// Distance used as a termination measure for the path-counting
/// recurrence.
pub open spec fn dmeas(g: Graph, s: int, v: int) -> int {
    if dist(g, s, v) is Some && dist(g, s, v)->0 >= 0 {
        dist(g, s, v)->0
    } else {
        0
    }
}

/// The count of shortest paths the engine computes: paths over the
/// directed acyclic graph of tight edges, the empty path at `s` itself
/// plus one path per shortest path to each tight predecessor; zero for an
/// unreachable node. With strictly positive weights this is exactly the
/// number of distinct shortest simple paths, `shortest_path_count`
/// (`lemma_sigma_counts_shortest_paths`), and every reachable node gets
/// at least one (`lemma_sigma_positive`). An edge of weight zero never
/// strictly increases the distance, so a shortest path that crosses one
/// is missed by this count: pairs joined only through zero-weight edges
/// undercount. Counting them exactly would mean counting simple paths in
/// an arbitrary zero-weight subgraph, which no efficient engine can do.
pub open spec fn sigma(g: Graph, s: int, v: int) -> nat
    decreases dmeas(g, s, v), g.n() + 1,
{
    if dist(g, s, v) is None {
        0
    } else if v == s {
        1
    } else {
        sigma_sum(g, s, v, g.n() as int)
    }
}

/// Partial sum of `sigma` over the tight predecessors of `v` below
/// `u_bound`.
pub open spec fn sigma_sum(g: Graph, s: int, v: int, u_bound: int) -> nat
    decreases dmeas(g, s, v), u_bound,
{
    if u_bound <= 0 {
        0
    } else {
        sigma_sum(g, s, v, u_bound - 1) + if tight(g, s, u_bound - 1, v) {
            sigma(g, s, u_bound - 1)
        } else {
            0
        }
    }
}

/// Partial sums of tight-predecessor counts grow with the bound.
pub proof fn lemma_sigma_sum_mono(g: Graph, s: int, v: int, u1: int, u2: int)
    requires
        u1 <= u2,
    ensures
        sigma_sum(g, s, v, u1) <= sigma_sum(g, s, v, u2),
    decreases u2 - u1,
{
    if u1 < u2 {
        lemma_sigma_sum_mono(g, s, v, u1, u2 - 1);
    }
}

/// Every undirected edge weight is strictly positive.
pub open spec fn positive_weights(g: Graph) -> bool {
    forall|i: int, j: int| wt_int(g, i, j) is Some ==> wt_int(g, i, j)->0 > 0
}

/// The step `u -> v` lies on a shortest walk from `s`: both ends are
/// reached and the edge closes the distance gap exactly (the gap may be
/// zero).
pub open spec fn shortest_step(g: Graph, s: int, u: int, v: int) -> bool {
    &&& 0 <= u < g.n()
    &&& wt_int(g, u, v) is Some
    &&& dist(g, s, u) is Some
    &&& dist(g, s, v) is Some
    &&& dist(g, s, u)->0 + wt_int(g, u, v)->0 == dist(g, s, v)->0
}

/// Number of distinct shortest simple paths from `s` to `v` that avoid
/// the nodes in `vis`, counted by their final step: the empty path when
/// `v` is `s` itself, plus, for every shortest step `u -> v` from a node
/// not yet used, the paths to `u` that also avoid `v`. A walk is shortest
/// exactly when its every step is a shortest step, and a simple path
/// visits each node at most once, so one unit of fuel per node makes the
/// recursion complete.
pub open spec fn path_count_from(g: Graph, s: int, v: int, vis: Set<int>, fuel: nat) -> nat
    decreases fuel, 0int, 0int,
{
    if fuel == 0 {
        0
    } else {
        (if v == s {
            1nat
        } else {
            0nat
        }) + path_count_sum(g, s, v, vis, g.n() as int, (fuel - 1) as nat)
    }
}

/// Partial sum of `path_count_from` over the usable last steps `u -> v`
/// with `u` below `u_bound`.
pub open spec fn path_count_sum(
    g: Graph,
    s: int,
    v: int,
    vis: Set<int>,
    u_bound: int,
    fuel: nat,
) -> nat
    decreases fuel, 1int, u_bound,
{
    if u_bound <= 0 {
        0
    } else {
        path_count_sum(g, s, v, vis, u_bound - 1, fuel) + if shortest_step(g, s, u_bound - 1, v)
            && u_bound - 1 != v && !vis.contains(u_bound - 1) {
            path_count_from(g, s, u_bound - 1, vis.insert(v), fuel)
        } else {
            0
        }
    }
}

/// Number of distinct shortest simple paths from `s` to `v`.
pub open spec fn shortest_path_count(g: Graph, s: int, v: int) -> nat {
    path_count_from(g, s, v, Set::empty(), (g.n() + 1) as nat)
}

/// Toward an unreachable node no step is tight, so nothing is summed.
proof fn lemma_sigma_sum_unreachable(g: Graph, s: int, v: int, u_bound: int)
    requires
        dist(g, s, v) is None,
    ensures
        sigma_sum(g, s, v, u_bound) == 0,
    decreases u_bound,
{
    if u_bound > 0 {
        lemma_sigma_sum_unreachable(g, s, v, u_bound - 1);
    }
}

/// No tight step enters the source itself.
proof fn lemma_sigma_sum_self(g: Graph, s: int, u_bound: int)
    requires
        g.wf(),
        weights_ok(g),
    ensures
        sigma_sum(g, s, s, u_bound) == 0,
    decreases u_bound,
{
    if u_bound > 0 {
        lemma_sigma_sum_self(g, s, u_bound - 1);
        if tight(g, s, u_bound - 1, s) {
            lemma_fw_self(g, s, g.n() as int);
            assert(false);
        }
    }
}

/// Under strictly positive weights the simple-path count to `v`, avoiding
/// any set of nodes that all lie strictly beyond `v`, equals the engine's
/// tight-step count: farther nodes can never occur on a shortest walk to
/// `v`, so the avoidance never bites.
proof fn lemma_path_count_eq(g: Graph, s: int, v: int, vis: Set<int>, fuel: nat)
    requires
        g.wf(),
        positive_weights(g),
        0 <= s < g.n(),
        0 <= v < g.n(),
        vis.finite(),
        forall|x: int|
            vis.contains(x) ==> 0 <= x < g.n() && dist(g, s, x) is Some && (dist(g, s, v) is Some
                ==> dist(g, s, x)->0 > dist(g, s, v)->0),
        fuel >= g.n() + 1 - vis.len(),
    ensures
        path_count_from(g, s, v, vis, fuel) == sigma(g, s, v),
    decreases dmeas(g, s, v), g.n() + 1,
{
    lemma_positive_weights_ok(g);
    let n = g.n() as int;
    assert(vis.len() <= g.n()) by {
        assert(vis.subset_of(vstd::set_lib::set_int_range(0, n)));
        vstd::set_lib::lemma_int_range(0, n);
        vstd::set_lib::lemma_len_subset(vis, vstd::set_lib::set_int_range(0, n));
    }
    assert(fuel >= 1);
    lemma_path_count_sum_eq(g, s, v, vis, n, (fuel - 1) as nat);
    if dist(g, s, v) is None {
        assert(v != s) by {
            lemma_fw_self(g, s, n);
        }
        lemma_sigma_sum_unreachable(g, s, v, n);
    } else if v == s {
        lemma_sigma_sum_self(g, s, n);
    }
}

/// Term-by-term match between the simple-path sum and the tight-step sum
/// under strictly positive weights.
proof fn lemma_path_count_sum_eq(
    g: Graph,
    s: int,
    v: int,
    vis: Set<int>,
    u_bound: int,
    fuel: nat,
)
    requires
        g.wf(),
        positive_weights(g),
        0 <= s < g.n(),
        0 <= v < g.n(),
        u_bound <= g.n(),
        vis.finite(),
        forall|x: int|
            vis.contains(x) ==> 0 <= x < g.n() && dist(g, s, x) is Some && (dist(g, s, v) is Some
                ==> dist(g, s, x)->0 > dist(g, s, v)->0),
        fuel >= g.n() - vis.len(),
    ensures
        path_count_sum(g, s, v, vis, u_bound, fuel) == sigma_sum(g, s, v, u_bound),
    decreases dmeas(g, s, v), u_bound,
{
    lemma_positive_weights_ok(g);
    if u_bound > 0 {
        lemma_path_count_sum_eq(g, s, v, vis, u_bound - 1, fuel);
        let u = u_bound - 1;
        if tight(g, s, u, v) {
            assert(shortest_step(g, s, u, v));
            assert(u != v);
            assert(!vis.contains(u)) by {
                if vis.contains(u) {
                    assert(dist(g, s, u)->0 > dist(g, s, v)->0);
                }
            }
            assert(!vis.contains(v)) by {
                if vis.contains(v) {
                    assert(dist(g, s, v)->0 > dist(g, s, v)->0);
                }
            }
            let vis2 = vis.insert(v);
            vstd::set::axiom_set_insert_finite(vis, v);
            vstd::set::axiom_set_insert_len(vis, v);
            assert(vis2.len() == vis.len() + 1);
            assert forall|x: int|
                vis2.contains(x) implies 0 <= x < g.n() && dist(g, s, x) is Some && (dist(
                g,
                s,
                u,
            ) is Some ==> dist(g, s, x)->0 > dist(g, s, u)->0) by {
                if x != v {
                    assert(vis.contains(x));
                }
            }
            lemma_path_count_eq(g, s, u, vis2, fuel);
        } else {
            if shortest_step(g, s, u, v) && u != v && !vis.contains(u) {
                assert(wt_int(g, u, v)->0 > 0);
                lemma_fw_nonneg(g, s, u, g.n() as int);
                assert(tight(g, s, u, v));
                assert(false);
            }
        }
    }
}

/// LAW: with strictly positive weights the engine's tight-step count is
/// exactly the number of distinct shortest simple paths.
pub proof fn lemma_sigma_counts_shortest_paths(g: Graph, s: int, v: int)
    requires
        g.wf(),
        positive_weights(g),
        0 <= s < g.n(),
        0 <= v < g.n(),
    ensures
        sigma(g, s, v) == shortest_path_count(g, s, v),
{
    let vis = Set::<int>::empty();
    assert(vis.finite() && vis.len() == 0);
    lemma_path_count_eq(g, s, v, vis, (g.n() + 1) as nat);
}

/// With strictly positive undirected weights, every recorded edge weight
/// is positive, hence nonnegative.
pub proof fn lemma_positive_weights_ok(g: Graph)
    requires
        g.wf(),
        positive_weights(g),
    ensures
        weights_ok(g),
{
    crate::graph::lemma_wf_rows(g);
    assert forall|i: int, a: int|
        0 <= i < g.rows_len() && 0 <= a < g.row(i).len() implies (#[trigger] g.row(i)[a]).1
        >= 0 by {
        crate::graph::lemma_record_weight_vs_wt(g, i, a);
        let j = g.row(i)[a].0 as int;
        assert(wt_int(g, i, j) is Some);
        assert(wt_int(g, i, j)->0 > 0);
    }
}

/// LAW: over strictly positive weights, a node reachable from `s` always
/// has at least one shortest path counted for it: the last node before
/// `v` on a shortest walk is a tight predecessor, and by induction it is
/// itself reached by a counted path.
pub proof fn lemma_sigma_positive(g: Graph, s: int, v: int)
    requires
        g.wf(),
        positive_weights(g),
        0 <= s < g.n(),
        0 <= v < g.n(),
        dist(g, s, v) is Some,
    ensures
        sigma(g, s, v) >= 1,
    decreases dmeas(g, s, v),
{
    lemma_positive_weights_ok(g);
    let n = g.n() as int;
    lemma_fw_nonneg(g, s, v, n);
    if v != s {
        let d = dist(g, s, v)->0;
        lemma_fw_walk_exists(g, s, v, n);
        let p = choose|p: Seq<int>|
            is_walk(g, p) && (#[trigger] p.first()) == s && p.last() == v && interior_below(p, n)
                && walk_cost(g, p) == fw(g, s, v, n)->0;
        assert(p.len() >= 2) by {
            if p.len() == 1 {
                assert(p.first() == p.last());
            }
        }
        let t: int = p.len() as int - 2;
        lemma_walk_split(g, p, t);
        let p1 = p.take(t + 1);
        let p2 = p.skip(t);
        let u = p[t];
        assert(0 <= u < n);
        assert(p2.len() == 2 && p2[0] == u && p2[1] == v);
        assert(wt_int(g, u, v) is Some);
        let w = wt_int(g, u, v)->0;
        assert(walk_cost(g, p2) == w) by {
            assert(p2.drop_first().len() == 1);
            assert(walk_cost(g, p2.drop_first()) == 0);
        }
        assert(walk_cost(g, p1) == d - w);
        // the prefix bounds the distance to `u` from above
        assert(interior_below(p1, n));
        lemma_fw_le_walk(g, p1, n);
        assert(dist(g, s, u) is Some && dist(g, s, u)->0 <= d - w);
        // and extending a shortest walk to `u` by the last edge bounds it
        // from below
        lemma_fw_walk_exists(g, s, u, n);
        let q = choose|q: Seq<int>|
            is_walk(g, q) && (#[trigger] q.first()) == s && q.last() == u && interior_below(q, n)
                && walk_cost(g, q) == fw(g, s, u, n)->0;
        lemma_walk_concat(g, q, p2);
        let c = q + p2.drop_first();
        assert(c.first() == s && c.last() == v);
        assert(interior_below(c, n));
        lemma_fw_le_walk(g, c, n);
        assert(d <= walk_cost(g, c));
        assert(walk_cost(g, c) == dist(g, s, u)->0 + w);
        assert(dist(g, s, u)->0 == d - w);
        assert(w > 0);
        lemma_fw_nonneg(g, s, u, n);
        assert(tight(g, s, u, v));
        lemma_sigma_positive(g, s, u);
        assert(sigma_sum(g, s, v, u + 1) >= sigma(g, s, u));
        lemma_sigma_sum_mono(g, s, v, u + 1, n);
        assert(sigma(g, s, v) == sigma_sum(g, s, v, n));
    }
}

/// Number of `true` entries in a sequence of flags.
pub open spec fn count_true(s: Seq<bool>) -> int
    decreases s.len(),
{
    if s.len() == 0 {
        0
    } else {
        count_true(s.drop_last()) + if s.last() {
            1int
        } else {
            0int
        }
    }
}

pub proof fn lemma_count_true_bounds(s: Seq<bool>)
    ensures
        0 <= count_true(s) <= s.len(),
    decreases s.len(),
{
    if s.len() > 0 {
        lemma_count_true_bounds(s.drop_last());
    }
}

pub proof fn lemma_count_true_update(s: Seq<bool>, j: int)
    requires
        0 <= j < s.len(),
        !s[j],
    ensures
        count_true(s.update(j, true)) == count_true(s) + 1,
    decreases s.len(),
{
    let t = s.update(j, true);
    if j == s.len() - 1 {
        assert(t.drop_last() =~= s.drop_last());
    } else {
        assert(t.drop_last() =~= s.drop_last().update(j, true));
        lemma_count_true_update(s.drop_last(), j);
    }
}

pub proof fn lemma_count_true_full(s: Seq<bool>)
    requires
        count_true(s) == s.len(),
    ensures
        forall|i: int| 0 <= i < s.len() ==> s[i],
    decreases s.len(),
{
    if s.len() > 0 {
        lemma_count_true_bounds(s.drop_last());
        lemma_count_true_full(s.drop_last());
        assert forall|i: int| 0 <= i < s.len() implies s[i] by {
            if i < s.len() - 1 {
                assert(s.drop_last()[i]);
            }
        }
    }
}

/// An optional machine distance read as an optional unbounded integer.
pub open spec fn oc(c: Option<u128>) -> Option<int> {
    match c {
        Some(x) => Some(x as int),
        None => None,
    }
}

/// One entry of the distance matrix, read as an optional unbounded integer.
pub open spec fn cell(m: Seq<Vec<Option<u128>>>, i: int, j: int) -> Option<int> {
    oc(m[i]@[j])
}

/// The matrix is square with side `n`.
pub open spec fn dims_ok(m: Seq<Vec<Option<u128>>>, n: int) -> bool {
    &&& m.len() == n
    &&& forall|i: int| 0 <= i < n ==> (#[trigger] m[i])@.len() == n
}

/// At step `k` of the recurrence the two values combined for the pair
/// `(i, j)` exceed the machine range.
pub open spec fn trip_ovf(g: Graph, i: int, j: int, k: int) -> bool {
    &&& fw(g, i, k, k) is Some
    &&& fw(g, k, j, k) is Some
    &&& fw(g, i, k, k)->0 + fw(g, k, j, k)->0 > u128::MAX
}

/// Somewhere in the recurrence an exact intermediate distance exceeds the
/// machine range (only conceivable with astronomically large weights).
pub open spec fn fw_overflow(g: Graph) -> bool {
    exists|i: int, j: int, k: int|
        0 <= i < g.n() && 0 <= j < g.n() && 0 <= k < g.n() && trip_ovf(g, i, j, k)
}

/// The matrix holds the exact shortest-path distance for every pair.
pub open spec fn matrix_models(m: Seq<Vec<Option<u128>>>, g: Graph) -> bool {
    &&& dims_ok(m, g.n() as int)
    &&& forall|i: int, j: int|
        0 <= i < g.n() && 0 <= j < g.n() ==> #[trigger] cell(m, i, j) == dist(g, i, j)
}

/// Computes all-pairs shortest-path distances.
///
/// Fails fast with `NegativeWeight` exactly when some recorded edge weight
/// is negative, and with `Overflow` exactly when an exact intermediate
/// distance would not fit the machine range; otherwise the returned matrix
/// holds the exact distance of every ordered pair.
pub fn all_pairs_distances(g: &Graph) -> (r: Result<Vec<Vec<Option<u128>>>, CentralityError>)
    requires
        g.wf(),
    ensures
        match r {
            Ok(m) => weights_ok(*g) && !fw_overflow(*g) && matrix_models(m@, *g),
            Err(e) => (e == CentralityError::NegativeWeight && !weights_ok(*g))
                || (e == CentralityError::Overflow && weights_ok(*g) && fw_overflow(*g)),
        },
{
    if !g.weights_nonnegative() {
        return Err(CentralityError::NegativeWeight);
    }
    let n = g.node_count();

    // Base matrix: zero on the diagonal, the undirected edge weight
    // elsewhere.
    let mut m: Vec<Vec<Option<u128>>> = Vec::new();
    let mut i: usize = 0;
    while i < n
        invariant
            g.wf(),
            weights_ok(*g),
            n == g.n(),
            i <= n,
            m@.len() == i,
            forall|a: int| 0 <= a < i ==> (#[trigger] m@[a])@.len() == n,
            forall|a: int, b: int|
                0 <= a < i && 0 <= b < n ==> #[trigger] cell(m@, a, b) == fw(*g, a, b, 0),
        decreases n - i,
    {
        let mut row: Vec<Option<u128>> = Vec::new();
        let mut j: usize = 0;
        while j < n
            invariant
                g.wf(),
                weights_ok(*g),
                n == g.n(),
                i < n,
                j <= n,
                row@.len() == j,
                forall|b: int|
                    0 <= b < j ==> (match row@[b] {
                        Some(x) => Some(x as int),
                        None => None,
                    }) == fw(*g, i as int, b, 0),
            decreases n - j,
        {
            if j == i {
                row.push(Some(0u128));
            } else {
                match g.wt_by_index(i, j) {
                    Some(w) => {
                        proof {
                            lemma_wt_nonneg(*g, i as int, j as int, w);
                        }
                        row.push(Some(w as u128));
                    },
                    None => {
                        row.push(None);
                    },
                }
            }
            j = j + 1;
        }
        let ghost mprev = m@;
        m.push(row);
        proof {
            assert(forall|a: int| 0 <= a < i ==> #[trigger] m@[a] == mprev[a]);
            assert(m@[i as int] == row);
            assert(forall|b: int| 0 <= b < n
                ==> #[trigger] cell(m@, i as int, b) == fw(*g, i as int, b, 0));
            assert(forall|a: int, b: int| 0 <= a < i && 0 <= b < n
                ==> #[trigger] cell(m@, a, b) == cell(mprev, a, b));
        }
        i = i + 1;
    }

    // Relax through every intermediate node.
    let mut k: usize = 0;
    while k < n
        invariant
            g.wf(),
            weights_ok(*g),
            n == g.n(),
            k <= n,
            dims_ok(m@, n as int),
            forall|a: int, b: int|
                0 <= a < n && 0 <= b < n ==> #[trigger] cell(m@, a, b) == fw(*g, a, b, k as int),
            forall|a: int, b: int, c: int|
                0 <= a < n && 0 <= b < n && 0 <= c < k ==> !trip_ovf(*g, a, b, c),
        decreases n - k,
    {
        let mut i0: usize = 0;
        while i0 < n
            invariant
                g.wf(),
                weights_ok(*g),
                n == g.n(),
                k < n,
                i0 <= n,
                dims_ok(m@, n as int),
                forall|a: int, b: int|
                    0 <= a < i0 && 0 <= b < n
                        ==> #[trigger] cell(m@, a, b) == fw(*g, a, b, k + 1),
                forall|a: int, b: int|
                    i0 <= a < n && 0 <= b < n
                        ==> #[trigger] cell(m@, a, b) == fw(*g, a, b, k as int),
                forall|a: int, b: int, c: int|
                    0 <= a < n && 0 <= b < n && 0 <= c < k ==> !trip_ovf(*g, a, b, c),
                forall|a: int, b: int|
                    0 <= a < i0 && 0 <= b < n ==> !trip_ovf(*g, a, b, k as int),
            decreases n - i0,
        {
            let mut j0: usize = 0;
            while j0 < n
                invariant
                    g.wf(),
                    weights_ok(*g),
                    n == g.n(),
                    k < n,
                    i0 < n,
                    j0 <= n,
                    dims_ok(m@, n as int),
                    forall|a: int, b: int|
                        0 <= a < i0 && 0 <= b < n
                            ==> #[trigger] cell(m@, a, b) == fw(*g, a, b, k + 1),
                    forall|b: int|
                        0 <= b < j0 ==> #[trigger] cell(m@, i0 as int, b) == fw(*g, i0 as int, b, k + 1),
                    forall|b: int|
                        j0 <= b < n ==> #[trigger] cell(m@, i0 as int, b) == fw(*g, i0 as int, b, k as int),
                    forall|a: int, b: int|
                        i0 < a < n && 0 <= b < n
                            ==> #[trigger] cell(m@, a, b) == fw(*g, a, b, k as int),
                    forall|a: int, b: int, c: int|
                        0 <= a < n && 0 <= b < n && 0 <= c < k ==> !trip_ovf(*g, a, b, c),
                    forall|a: int, b: int|
                        0 <= a < i0 && 0 <= b < n ==> !trip_ovf(*g, a, b, k as int),
                    forall|b: int| 0 <= b < j0 ==> !trip_ovf(*g, i0 as int, b, k as int),
                decreases n - j0,
            {
                proof {
                    lemma_fw_stable(*g, i0 as int, j0 as int, k as int);
                }
                let a_opt = m[i0][k];
                let b_opt = m[k][j0];
                proof {
                    assert(cell(m@, i0 as int, k as int) == fw(*g, i0 as int, k as int, k as int));
                    assert(cell(m@, k as int, j0 as int) == fw(*g, k as int, j0 as int, k as int));
                }
                match (a_opt, b_opt) {
                    (Option::Some(a), Option::Some(b)) => {
                        match a.checked_add(b) {
                            Option::Some(s) => {
                                let cur = m[i0][j0];
                                let replace = match cur {
                                    Option::Some(c) => s < c,
                                    Option::None => true,
                                };
                                if replace {
                                    let ghost mold = m@;
                                    let row = &mut m[i0];
                                    row.set(j0, Some(s));
                                    proof {
                                        assert(m@ =~= mold.update(i0 as int, m@[i0 as int]));
                                        assert(forall|x: int| 0 <= x < n && x != i0
                                            ==> #[trigger] m@[x] == mold[x]);
                                        assert(forall|x: int, y: int|
                                            0 <= x < n && 0 <= y < n && !(x == i0 && y == j0)
                                                ==> #[trigger] cell(m@, x, y) == cell(mold, x, y));
                                        assert(cell(m@, i0 as int, j0 as int) == Some(s as int));
                                    }
                                } else {
                                    proof {
                                        assert(cell(m@, i0 as int, j0 as int)
                                            == fw(*g, i0 as int, j0 as int, k + 1));
                                    }
                                }
                            },
                            Option::None => {
                                proof {
                                    assert(trip_ovf(*g, i0 as int, j0 as int, k as int));
                                    assert(fw_overflow(*g));
                                }
                                return Err(CentralityError::Overflow);
                            },
                        }
                    },
                    _ => {
                        proof {
                            assert(o_add(
                                fw(*g, i0 as int, k as int, k as int),
                                fw(*g, k as int, j0 as int, k as int),
                            ) is None);
                            assert(cell(m@, i0 as int, j0 as int)
                                == fw(*g, i0 as int, j0 as int, k + 1));
                            assert(!trip_ovf(*g, i0 as int, j0 as int, k as int));
                        }
                    },
                }
                j0 = j0 + 1;
            }
            i0 = i0 + 1;
        }
        k = k + 1;
    }
    proof {
        assert(!fw_overflow(*g));
        assert(forall|a: int, b: int|
            0 <= a < n && 0 <= b < n ==> #[trigger] cell(m@, a, b) == dist(*g, a, b));
    }
    Ok(m)
}

/// Whether `a` is at most `b`, with absence read as infinity.
fn d_le_exec(a: Option<u128>, b: Option<u128>) -> (r: bool)
    ensures
        r == dle(oc(a), oc(b)),
{
    match (a, b) {
        (Option::Some(x), Option::Some(y)) => x <= y,
        (Option::Some(_), Option::None) => true,
        (Option::None, Option::None) => true,
        (Option::None, Option::Some(_)) => false,
    }
}

/// Picks an unfinished node whose distance entry in row `s` is least, or
/// reports that every node is finished.
fn pick_min_undone(m: &Vec<Vec<Option<u128>>>, done: &Vec<bool>, s: usize, n: usize) -> (r: Option<
    usize,
>)
    requires
        s < n,
        m@.len() == n,
        (m@[s as int])@.len() == n,
        done@.len() == n,
    ensures
        match r {
            Some(v) => v < n && !done@[v as int] && forall|w: int|
                0 <= w < n && !done@[w] ==> dle(cell(m@, s as int, v as int), cell(m@, s as int, w)),
            None => forall|w: int| 0 <= w < n ==> done@[w],
        },
{
    let mut best: Option<usize> = None;
    let mut w: usize = 0;
    while w < n
        invariant
            s < n,
            m@.len() == n,
            (m@[s as int])@.len() == n,
            done@.len() == n,
            w <= n,
            match best {
                Some(v) => v < n && !done@[v as int] && forall|x: int|
                    0 <= x < w && !done@[x]
                        ==> dle(cell(m@, s as int, v as int), cell(m@, s as int, x)),
                None => forall|x: int| 0 <= x < w ==> done@[x],
            },
        decreases n - w,
    {
        if !done[w] {
            match best {
                Some(v) => {
                    if !d_le_exec(m[s][v], m[s][w]) {
                        best = Some(w);
                    }
                },
                None => {
                    best = Some(w);
                },
            }
        }
        w = w + 1;
    }
    best
}

/// Count of shortest paths from source `s` to every node, written as one
/// row. Nodes are finished in order of increasing distance, so every tight
/// predecessor is already final when a node's count is summed.
pub fn sigma_from_source(g: &Graph, m: &Vec<Vec<Option<u128>>>, s: usize) -> (r: Result<
    Vec<u128>,
    CentralityError,
>)
    requires
        g.wf(),
        weights_ok(*g),
        matrix_models(m@, *g),
        s < g.n(),
    ensures
        match r {
            Ok(row) => row@.len() == g.n() && forall|v: int|
                0 <= v < g.n() ==> #[trigger] row@[v] as int == sigma(*g, s as int, v),
            Err(e) => e == CentralityError::Overflow && exists|v: int|
                0 <= v < g.n() && sigma(*g, s as int, v) > u128::MAX,
        },
{
    let n = g.node_count();
    let mut sig: Vec<u128> = Vec::new();
    let mut done: Vec<bool> = Vec::new();
    let mut t: usize = 0;
    while t < n
        invariant
            t <= n,
            sig@.len() == t,
            done@.len() == t,
            forall|x: int| 0 <= x < t ==> !(#[trigger] done@[x]),
        decreases n - t,
    {
        sig.push(0u128);
        done.push(false);
        t = t + 1;
    }
    proof {
        assert(count_true(done@) == 0) by {
            lemma_count_all_false(done@);
        }
    }
    let mut done_count: usize = 0;
    while done_count < n
        invariant
            g.wf(),
            weights_ok(*g),
            matrix_models(m@, *g),
            s < n,
            n == g.n(),
            sig@.len() == n,
            done@.len() == n,
            done_count == count_true(done@),
            0 <= done_count <= n,
            forall|a: int, b: int|
                0 <= a < n && 0 <= b < n && done@[a] && !done@[b]
                    ==> dle(dist(*g, s as int, a), dist(*g, s as int, b)),
            forall|v: int|
                0 <= v < n && done@[v] ==> #[trigger] sig@[v] as int == sigma(*g, s as int, v),
        decreases n - done_count,
    {
        let v = match pick_min_undone(m, &done, s, n) {
            Some(v) => v,
            None => {
                return Ok(sig);
            },
        };
        proof {
            assert(cell(m@, s as int, v as int) == dist(*g, s as int, v as int));
        }
        if v == s {
            proof {
                lemma_fw_self(*g, s as int, g.n() as int);
            }
            sig.set(v, 1u128);
        } else {
            let dv = m[s][v];
            match dv {
                Option::None => {
                    sig.set(v, 0u128);
                },
                Option::Some(b) => {
                    let ghost bv = b as int;
                    let mut total: u128 = 0;
                    let mut u: usize = 0;
                    while u < n
                        invariant
                            g.wf(),
                            weights_ok(*g),
                            matrix_models(m@, *g),
                            s < n,
                            v < n,
                            v != s,
                            n == g.n(),
                            sig@.len() == n,
                            done@.len() == n,
                            u <= n,
                            !done@[v as int],
                            dist(*g, s as int, v as int) == Some(bv),
                            b == bv,
                            forall|w: int|
                                0 <= w < n && !done@[w]
                                    ==> dle(dist(*g, s as int, v as int), dist(*g, s as int, w)),
                            forall|w: int|
                                0 <= w < n && done@[w]
                                    ==> #[trigger] sig@[w] as int == sigma(*g, s as int, w),
                            total as int == sigma_sum(*g, s as int, v as int, u as int),
                        decreases n - u,
                    {
                        let du = m[s][u];
                        let wuv = g.wt_by_index(u, v);
                        let mut is_tight: bool = false;
                        match (du, wuv) {
                            (Option::Some(a), Option::Some(w)) => {
                                proof {
                                    lemma_wt_nonneg(*g, u as int, v as int, w);
                                }
                                if a < b && b - a == w as u128 {
                                    is_tight = true;
                                }
                            },
                            _ => {},
                        }
                        proof {
                            assert(cell(m@, s as int, u as int) == dist(*g, s as int, u as int));
                            assert(is_tight == tight(*g, s as int, u as int, v as int));
                        }
                        if is_tight {
                            proof {
                                assert(done@[u as int]) by {
                                    if !done@[u as int] {
                                        assert(dle(
                                            dist(*g, s as int, v as int),
                                            dist(*g, s as int, u as int),
                                        ));
                                    }
                                }
                            }
                            match total.checked_add(sig[u]) {
                                Option::Some(t2) => {
                                    total = t2;
                                },
                                Option::None => {
                                    proof {
                                        lemma_sigma_sum_mono(
                                            *g,
                                            s as int,
                                            v as int,
                                            u + 1,
                                            n as int,
                                        );
                                        assert(sigma(*g, s as int, v as int) > u128::MAX);
                                    }
                                    return Err(CentralityError::Overflow);
                                },
                            }
                        }
                        u = u + 1;
                    }
                    sig.set(v, total);
                },
            }
        }
        let ghost done_prev = done@;
        done.set(v, true);
        proof {
            lemma_count_true_update(done_prev, v as int);
            assert(forall|w: int| 0 <= w < n && w != v ==> done@[w] == done_prev[w]);
            lemma_count_true_bounds(done@);
        }
        done_count = done_count + 1;
    }
    proof {
        lemma_count_true_full(done@);
    }
    Ok(sig)
}

/// An all-false flag sequence has no `true` entries.
pub proof fn lemma_count_all_false(s: Seq<bool>)
    requires
        forall|x: int| 0 <= x < s.len() ==> !(#[trigger] s[x]),
    ensures
        count_true(s) == 0,
    decreases s.len(),
{
    if s.len() > 0 {
        lemma_count_all_false(s.drop_last());
    }
}

/// The row of shortest-path counts is exact for every source and target.
pub open spec fn sigma_models(t: Seq<Vec<u128>>, g: Graph) -> bool {
    &&& t.len() == g.n()
    &&& forall|s: int| 0 <= s < g.n() ==> (#[trigger] t[s])@.len() == g.n()
    &&& forall|s: int, v: int|
        0 <= s < g.n() && 0 <= v < g.n() ==> (#[trigger] t[s]@[v]) as int == sigma(g, s, v)
}

/// Somewhere a shortest-path count exceeds the machine range.
pub open spec fn sigma_overflow(g: Graph) -> bool {
    exists|s: int, v: int| 0 <= s < g.n() && 0 <= v < g.n() && sigma(g, s, v) > u128::MAX
}

/// Dense all-pairs shortest-path data: exact distances and exact counts of
/// shortest paths, indexed by ordered pairs of node indices.
pub struct PathTable {
    pub dist: Vec<Vec<Option<u128>>>,
    pub sigma: Vec<Vec<u128>>,
}

impl PathTable {
    /// The table holds exactly the distances and counts of the graph.
    pub open spec fn models(self, g: Graph) -> bool {
        &&& matrix_models(self.dist@, g)
        &&& sigma_models(self.sigma@, g)
    }
}

/// Computes the full shortest-path table of a graph.
///
/// Fails with `NegativeWeight` exactly when some recorded edge weight is
/// negative, and with `Overflow` exactly when an exact distance or count
/// exceeds the machine range; otherwise every entry is exact.
pub fn shortest_path_table(g: &Graph) -> (r: Result<PathTable, CentralityError>)
    requires
        g.wf(),
    ensures
        match r {
            Ok(t) => weights_ok(*g) && !fw_overflow(*g) && !sigma_overflow(*g) && t.models(*g)
                && (positive_weights(*g) ==> forall|s: int, v: int|
                0 <= s < g.n() && 0 <= v < g.n() ==> (#[trigger] t.sigma@[s]@[v]) as int
                    == shortest_path_count(*g, s, v)),
            Err(e) => (e == CentralityError::NegativeWeight && !weights_ok(*g)) || (e
                == CentralityError::Overflow && weights_ok(*g) && (fw_overflow(*g)
                || sigma_overflow(*g))),
        },
{
    let m = match all_pairs_distances(g) {
        Ok(m) => m,
        Err(e) => {
            return Err(e);
        },
    };
    let n = g.node_count();
    let mut sig: Vec<Vec<u128>> = Vec::new();
    let mut s: usize = 0;
    while s < n
        invariant
            g.wf(),
            weights_ok(*g),
            matrix_models(m@, *g),
            n == g.n(),
            s <= n,
            sig@.len() == s,
            forall|a: int| 0 <= a < s ==> (#[trigger] sig@[a])@.len() == n,
            forall|a: int, v: int|
                0 <= a < s && 0 <= v < n ==> (#[trigger] sig@[a]@[v]) as int == sigma(*g, a, v),
        decreases n - s,
    {
        match sigma_from_source(g, &m, s) {
            Ok(row) => {
                sig.push(row);
            },
            Err(e) => {
                return Err(e);
            },
        }
        s = s + 1;
    }
    proof {
        assert forall|a: int, v: int| 0 <= a < n && 0 <= v < n implies sigma(
            *g,
            a,
            v,
        ) <= u128::MAX by {
            assert(sig@[a]@[v] as int == sigma(*g, a, v));
        }
        assert(!sigma_overflow(*g));
        if positive_weights(*g) {
            assert forall|a: int, v: int|
                0 <= a < n && 0 <= v < n implies (#[trigger] sig@[a]@[v]) as int
                == shortest_path_count(*g, a, v) by {
                lemma_sigma_counts_shortest_paths(*g, a, v);
            }
        }
    }
    Ok(PathTable { dist: m, sigma: sig })
}

} // verus!
