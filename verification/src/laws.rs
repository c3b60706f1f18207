//! Global properties of the centrality engine, each proved once and for
//! all: degenerate graphs score zero, complete graphs score uniformly, an
//! isolated node has closeness zero, and identical graphs always produce
//! identical exact scores.

use vstd::prelude::*;

use crate::centrality::betw_sum;
use crate::centrality::betweenness_frac;
use crate::centrality::close_counts;
use crate::centrality::closeness_frac;
use crate::centrality::delta_den;
use crate::centrality::delta_num;
use crate::centrality::pair_counts;
use crate::graph::Graph;
use crate::graph::lemma_record_weight_vs_wt;
use crate::graph::lemma_wf_rows;
use crate::graph::lemma_wt_out_of_range;
use crate::graph::weights_ok;
use crate::paths::dist;
use crate::paths::fw;
use crate::paths::lemma_sigma_counts_shortest_paths;
use crate::paths::positive_weights;
use crate::paths::shortest_path_count;
use crate::paths::is_walk;
use crate::paths::lemma_dist_characterization;
use crate::paths::lemma_walk_cost_nonneg;
use crate::paths::walk_cost;
use crate::paths::wt_int;

verus! {

/// LAW: a graph with fewer than three nodes has betweenness exactly zero
/// for every node, whatever its structure.
pub proof fn lemma_small_graph_betweenness_zero(g: Graph, v: int)
    requires
        g.n() < 3,
    ensures
        betweenness_frac(g, v) == (0int, 1int),
{
}

/// LAW: the exact centrality scores are a function of the graph alone, so
/// rebuilding an identical graph always reproduces them bit for bit.
pub proof fn lemma_scores_deterministic(g1: Graph, g2: Graph, v: int)
    requires
        g1 == g2,
    ensures
        betweenness_frac(g1, v) == betweenness_frac(g2, v),
        closeness_frac(g1, v) == closeness_frac(g2, v),
{
}

/// No node of the graph is joined to `v` by any edge.
pub open spec fn isolated(g: Graph, v: int) -> bool {
    forall|u: int| wt_int(g, v, u) is None
}

/// From an isolated node the recurrence never finds a connection.
proof fn lemma_isolated_fw_none(g: Graph, v: int, u: int, k: int)
    requires
        isolated(g, v),
        u != v,
    ensures
        fw(g, v, u, k) is None,
    decreases k,
{
    if k > 0 {
        lemma_isolated_fw_none(g, v, u, k - 1);
        if k - 1 == v {
            lemma_isolated_fw_none(g, v, u, k - 1);
        } else {
            lemma_isolated_fw_none(g, v, k - 1, k - 1);
        }
    }
}

/// An isolated node reaches nothing at all.
proof fn lemma_isolated_close_counts(g: Graph, v: int, m: int)
    requires
        isolated(g, v),
    ensures
        close_counts(g, v, m) == (0int, 0int),
    decreases m,
{
    if m > 0 {
        lemma_isolated_close_counts(g, v, m - 1);
        if m - 1 != v {
            lemma_isolated_fw_none(g, v, m - 1, g.n() as int);
        }
    }
}

/// LAW: a node with no incident edges has closeness exactly zero.
pub proof fn lemma_isolated_closeness_zero(g: Graph, v: int)
    requires
        isolated(g, v),
    ensures
        closeness_frac(g, v) == (0int, 1int),
{
    lemma_isolated_close_counts(g, v, g.n() as int);
}

/// LAW: with strictly positive weights, the credit an ordered pair
/// `(s, t)` contributes to the betweenness of `v` is the fraction of the
/// actual distinct shortest simple paths from `s` to `t` that pass
/// through `v`: equal-cost paths split the credit proportionally.
pub proof fn lemma_pair_credit_counts_paths(g: Graph, s: int, t: int, v: int)
    requires
        g.wf(),
        positive_weights(g),
        0 <= s < g.n(),
        0 <= t < g.n(),
        0 <= v < g.n(),
        pair_counts(g, s, t, v),
    ensures
        delta_num(g, s, t, v) == shortest_path_count(g, s, v) * shortest_path_count(g, v, t),
        delta_den(g, s, t, v) == shortest_path_count(g, s, t),
{
    lemma_sigma_counts_shortest_paths(g, s, v);
    lemma_sigma_counts_shortest_paths(g, v, t);
    lemma_sigma_counts_shortest_paths(g, s, t);
}

/// Every edge of the graph carries the same weight `w`, and every pair of
/// distinct nodes is joined.
pub open spec fn complete_uniform(g: Graph, w: i64) -> bool {
    forall|i: int, j: int|
        0 <= i < g.n() && 0 <= j < g.n() && i != j ==> wt_int(g, i, j) == Some(w as int)
}

/// In a complete graph with uniform weight `w > 0` every recorded edge
/// weight is at least `w`, hence nonnegative.
proof fn lemma_complete_weights_ok(g: Graph, w: i64)
    requires
        g.wf(),
        complete_uniform(g, w),
        w > 0,
    ensures
        weights_ok(g),
{
    lemma_wf_rows(g);
    assert forall|i: int, a: int|
        0 <= i < g.rows_len() && 0 <= a < g.row(i).len() implies (#[trigger] g.row(i)[a]).1
        >= 0 by {
        let j = g.row(i)[a].0 as int;
        assert(0 <= j < g.n() && j != i);
        lemma_record_weight_vs_wt(g, i, a);
        assert(wt_int(g, i, j) == Some(w as int));
    }
}

/// A pair with a node index outside the graph is never connected.
proof fn lemma_fw_out_of_range(g: Graph, i: int, j: int, k: int)
    requires
        g.wf(),
        !(0 <= i < g.n()) || !(0 <= j < g.n()),
        i != j,
    ensures
        fw(g, i, j, k) is None,
    decreases k,
{
    if k <= 0 {
        lemma_wt_out_of_range(g, i, j);
    } else {
        lemma_fw_out_of_range(g, i, j, k - 1);
        if !(0 <= i < g.n()) {
            if i == k - 1 {
                lemma_fw_out_of_range(g, k - 1, j, k - 1);
            } else {
                lemma_fw_out_of_range(g, i, k - 1, k - 1);
            }
        } else {
            if j == k - 1 {
                lemma_fw_out_of_range(g, i, k - 1, k - 1);
            } else {
                lemma_fw_out_of_range(g, k - 1, j, k - 1);
            }
        }
    }
}

/// In a complete graph with uniform positive weight, every walk between
/// distinct nodes costs at least `w`.
proof fn lemma_complete_walk_cost(g: Graph, w: i64, p: Seq<int>)
    requires
        g.wf(),
        complete_uniform(g, w),
        w > 0,
        is_walk(g, p),
        p.len() >= 2,
    ensures
        walk_cost(g, p) >= w,
{
    lemma_complete_weights_ok(g, w);
    assert(wt_int(g, p[0], p[1]) is Some);
    if p[0] == p[1] {
        crate::graph::lemma_no_self_loops_no_duplicates(g);
        assert(g.wt(p[0], p[1]) == crate::graph::opt_min(g.edge(p[0], p[1]), g.edge(p[1], p[0])));
        assert(false);
    }
    assert(wt_int(g, p[0], p[1]) == Some(w as int));
    assert(is_walk(g, p.drop_first()));
    lemma_walk_cost_nonneg(g, p.drop_first());
}

/// In a complete graph with uniform positive weight the distance between
/// distinct nodes is exactly `w`.
#[verifier::rlimit(50)]
proof fn lemma_complete_dist(g: Graph, w: i64, i: int, j: int)
    requires
        g.wf(),
        complete_uniform(g, w),
        w > 0,
        0 <= i < g.n(),
        0 <= j < g.n(),
        i != j,
    ensures
        dist(g, i, j) == Some(w as int),
{
    lemma_complete_weights_ok(g, w);
    let p = seq![i, j];
    assert(p.len() == 2 && p[0] == i && p[1] == j);
    assert(p.drop_first() =~= seq![j]);
    assert(is_walk(g, p) && p.first() == i && p.last() == j);
    assert(wt_int(g, i, j) == Some(w as int));
    assert(walk_cost(g, p.drop_first()) == 0);
    assert(walk_cost(g, p) == w as int);
    lemma_dist_characterization(g, i, j);
    assert(dist(g, i, j) is Some && dist(g, i, j)->0 <= w as int);
    let q = choose|q: Seq<int>|
        is_walk(g, q) && (#[trigger] q.first()) == i && q.last() == j && walk_cost(g, q) == dist(
            g,
            i,
            j,
        )->0;
    assert(q.len() >= 2) by {
        if q.len() == 1 {
            assert(q.first() == q.last());
        }
    }
    lemma_complete_walk_cost(g, w, q);
}

/// With every pair contribution zero, the betweenness fold stays zero and
/// keeps a positive denominator.
proof fn lemma_betw_sum_zero(g: Graph, v: int, m: int)
    requires
        forall|s: int, t: int| delta_num(g, s, t, v) == 0,
    ensures
        betw_sum(g, v, m).0 == 0,
        betw_sum(g, v, m).1 > 0,
    decreases m,
{
    if m > 0 {
        lemma_betw_sum_zero(g, v, m - 1);
        let s = (m - 1) / (g.n() as int);
        let t = (m - 1) % (g.n() as int);
        let prev = betw_sum(g, v, m - 1);
        let dd = delta_den(g, s, t, v) as int;
        assert(delta_num(g, s, t, v) == 0);
        assert(dd >= 1);
        assert(prev.0 * dd == 0) by (nonlinear_arith)
            requires prev.0 == 0;
        assert(0 * prev.1 == 0) by (nonlinear_arith);
        assert(prev.1 * dd > 0) by (nonlinear_arith)
            requires prev.1 > 0, dd >= 1;
    }
}

/// Reachability sums in a complete graph: every other node lies at
/// distance exactly `w`.
proof fn lemma_complete_close_counts(g: Graph, w: i64, v: int, m: int)
    requires
        g.wf(),
        complete_uniform(g, w),
        w > 0,
        0 <= v < g.n(),
        0 <= m <= g.n(),
    ensures
        close_counts(g, v, m).0 == if v < m {
            m - 1
        } else {
            m
        },
        close_counts(g, v, m).1 == close_counts(g, v, m).0 * (w as int),
    decreases m,
{
    if m > 0 {
        lemma_complete_close_counts(g, w, v, m - 1);
        let prev = close_counts(g, v, m - 1);
        if m - 1 != v {
            lemma_complete_dist(g, w, v, m - 1);
            assert((prev.0 + 1) * (w as int) == prev.0 * (w as int) + (w as int))
                by (nonlinear_arith);
        }
    }
}

/// LAW: in a complete graph on `n >= 2` nodes with uniform edge weight
/// `w > 0`, every node's betweenness is exactly zero and every node's
/// closeness is exactly `1 / w` (stated by cross-multiplication of the
/// exact fraction).
pub proof fn lemma_complete_graph_centrality(g: Graph, w: i64, v: int)
    requires
        g.wf(),
        complete_uniform(g, w),
        w > 0,
        g.n() >= 2,
        0 <= v < g.n(),
    ensures
        betweenness_frac(g, v).0 == 0,
        closeness_frac(g, v).0 > 0,
        closeness_frac(g, v).0 * (w as int) == closeness_frac(g, v).1,
{
    let n = g.n() as int;
    lemma_complete_weights_ok(g, w);
    // no ordered pair routes any shortest path strictly through v
    assert forall|s: int, t: int| delta_num(g, s, t, v) == 0 by {
        if pair_counts(g, s, t, v) {
            if 0 <= s < n && 0 <= t < n {
                lemma_complete_dist(g, w, s, v);
                lemma_complete_dist(g, w, v, t);
                lemma_complete_dist(g, w, s, t);
                assert(false);
            } else {
                lemma_fw_out_of_range(g, s, t, n);
                assert(crate::paths::sigma(g, s, t) == 0);
                assert(false);
            }
        }
    }
    lemma_betw_sum_zero(g, v, crate::centrality::pair_total(g));
    lemma_complete_close_counts(g, w, v, n);
}

} // verus!