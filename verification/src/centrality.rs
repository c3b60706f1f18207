//! Betweenness and closeness centrality over a shortest-path table.
//!
//! Scores are exact rationals. Betweenness of a node `v` sums, over all
//! ordered pairs `(s, t)` of distinct other nodes, the fraction of shortest
//! `s`–`t` paths that pass through `v` (the standard product identity
//! `sigma(s,v) * sigma(v,t) / sigma(s,t)` on pairs whose distances compose),
//! normalized by `(n-1)(n-2)`; for fewer than three nodes it is zero. With
//! strictly positive weights the counts are exactly the numbers of
//! distinct shortest simple paths (see the laws module); a pair joined
//! only through zero-weight edges undercounts.
//! Closeness of `v` is the number of nodes reachable from `v` divided by the
//! sum of their distances, and zero when nothing is reachable.

use vstd::prelude::*;
use vstd::arithmetic::div_mod::lemma_fundamental_div_mod_converse;

use crate::graph::Graph;
use crate::graph::weights_ok;
use crate::paths::CentralityError;
use crate::paths::PathTable;
use crate::paths::dist;
use crate::paths::fw_overflow;
use crate::paths::shortest_path_table;
use crate::paths::sigma;
use crate::paths::sigma_overflow;

verus! {

/// An exact nonnegative rational score. The denominator is zero only in the
/// degenerate reading "count over a zero distance sum"; every contract states
/// the exact numerator and denominator.
#[derive(Clone, Copy, Debug, PartialEq, Eq, Structural)]
pub struct Ratio {
    pub num: u128,
    pub den: u128,
}

/// `v` lies on a shortest walk from `s` to `t`: both legs exist and their
/// lengths compose to the full distance.
pub open spec fn on_path(g: Graph, s: int, v: int, t: int) -> bool {
    &&& dist(g, s, v) is Some
    &&& dist(g, v, t) is Some
    &&& dist(g, s, t) is Some
    &&& dist(g, s, v)->0 + dist(g, v, t)->0 == dist(g, s, t)->0
}

/// The ordered pair `(s, t)` contributes to the betweenness of `v`.
pub open spec fn pair_counts(g: Graph, s: int, t: int, v: int) -> bool {
    &&& s != t
    &&& s != v
    &&& t != v
    &&& on_path(g, s, v, t)
    &&& sigma(g, s, t) > 0
}

/// Numerator of the pair's contribution: shortest paths through `v`.
pub open spec fn delta_num(g: Graph, s: int, t: int, v: int) -> nat {
    if pair_counts(g, s, t, v) {
        sigma(g, s, v) * sigma(g, v, t)
    } else {
        0
    }
}

/// Denominator of the pair's contribution: all shortest `s`–`t` paths.
pub open spec fn delta_den(g: Graph, s: int, t: int, v: int) -> nat {
    if pair_counts(g, s, t, v) {
        sigma(g, s, t)
    } else {
        1
    }
}

/// Exact sum, as one fraction, of the contributions of the first `m`
/// ordered pairs (pair number `m` is `(m / n, m % n)`).
pub open spec fn betw_sum(g: Graph, v: int, m: int) -> (int, int)
    decreases m,
{
    if m <= 0 {
        (0int, 1int)
    } else {
        let prev = betw_sum(g, v, m - 1);
        let s = (m - 1) / (g.n() as int);
        let t = (m - 1) % (g.n() as int);
        (prev.0 * delta_den(g, s, t, v) + delta_num(g, s, t, v) * prev.1,
        prev.1 * delta_den(g, s, t, v))
    }
}

/// Every intermediate value of the betweenness fold over the first `m`
/// pairs fits the machine range.
pub open spec fn betw_fits(g: Graph, v: int, m: int) -> bool
    decreases m,
{
    if m <= 0 {
        true
    } else {
        let prev = betw_sum(g, v, m - 1);
        let s = (m - 1) / (g.n() as int);
        let t = (m - 1) % (g.n() as int);
        &&& betw_fits(g, v, m - 1)
        &&& delta_num(g, s, t, v) <= u128::MAX
        &&& prev.0 * delta_den(g, s, t, v) + delta_num(g, s, t, v) * prev.1 <= u128::MAX
        &&& prev.1 * delta_den(g, s, t, v) <= u128::MAX
    }
}

/// Number of ordered pairs scanned by the betweenness fold.
pub open spec fn pair_total(g: Graph) -> int {
    (g.n() as int) * (g.n() as int)
}

/// Normalized betweenness of `v` as an exact fraction.
pub open spec fn betweenness_frac(g: Graph, v: int) -> (int, int) {
    let n = g.n() as int;
    if n < 3 {
        (0int, 1int)
    } else {
        let r = betw_sum(g, v, pair_total(g));
        (r.0, r.1 * ((n - 1) * (n - 2)))
    }
}

/// The whole betweenness computation for `v` fits the machine range.
pub open spec fn betw_norm_fits(g: Graph, v: int) -> bool {
    let n = g.n() as int;
    n < 3 || (betw_fits(g, v, pair_total(g)) && betw_sum(g, v, pair_total(g)).1 * ((n - 1) * (n
        - 2)) <= u128::MAX)
}

/// Number of nodes `u < m`, other than `v`, reachable from `v`, together
/// with the sum of their distances from `v`.
pub open spec fn close_counts(g: Graph, v: int, m: int) -> (int, int)
    decreases m,
{
    if m <= 0 {
        (0int, 0int)
    } else {
        let prev = close_counts(g, v, m - 1);
        let u = m - 1;
        if u != v && dist(g, v, u) is Some {
            (prev.0 + 1, prev.1 + dist(g, v, u)->0)
        } else {
            prev
        }
    }
}

/// Closeness of `v` as an exact fraction: reachable count over distance
/// sum, and zero when nothing is reachable.
pub open spec fn closeness_frac(g: Graph, v: int) -> (int, int) {
    let c = close_counts(g, v, g.n() as int);
    if c.0 == 0 {
        (0int, 1int)
    } else {
        c
    }
}

/// The distance sum for `v` fits the machine range.
pub open spec fn close_fits(g: Graph, v: int) -> bool {
    close_counts(g, v, g.n() as int).1 <= u128::MAX
}

/// Both scores of `v` can be computed within the machine range.
pub open spec fn scores_fit(g: Graph, v: int) -> bool {
    betw_norm_fits(g, v) && close_fits(g, v)
}

/// Reachable counts and distance sums grow with the scanned prefix.
pub proof fn lemma_close_counts_mono(g: Graph, v: int, m1: int, m2: int)
    requires
        m1 <= m2,
        forall|u: int| 0 <= u < m2 && dist(g, v, u) is Some ==> dist(g, v, u)->0 >= 0,
    ensures
        close_counts(g, v, m1).0 <= close_counts(g, v, m2).0,
        close_counts(g, v, m1).1 <= close_counts(g, v, m2).1,
    decreases m2 - m1,
{
    if m1 < m2 {
        lemma_close_counts_mono(g, v, m1, m2 - 1);
    }
}

/// Both exact centrality scores of every node, in node index order.
pub struct NodeCentrality {
    pub betweenness: Ratio,
    pub closeness: Ratio,
}

/// The computed scores of `v` are exactly the specified fractions.
pub open spec fn scores_exact(g: Graph, v: int, c: NodeCentrality) -> bool {
    &&& c.betweenness.num as int == betweenness_frac(g, v).0
    &&& c.betweenness.den as int == betweenness_frac(g, v).1
    &&& c.closeness.num as int == closeness_frac(g, v).0
    &&& c.closeness.den as int == closeness_frac(g, v).1
}

/// Exact betweenness fraction of one node, before normalization.
fn betweenness_raw(g: &Graph, t: &PathTable, v: usize) -> (r: Result<Ratio, CentralityError>)
    requires
        g.wf(),
        t.models(*g),
        v < g.n(),
        g.n() >= 3,
    ensures
        match r {
            Ok(rat) => betw_fits(*g, v as int, pair_total(*g)) && rat.num as int == betw_sum(
                *g,
                v as int,
                pair_total(*g),
            ).0 && rat.den as int == betw_sum(*g, v as int, pair_total(*g)).1,
            Err(e) => e == CentralityError::Overflow && !betw_fits(*g, v as int, pair_total(*g)),
        },
{
    let n = g.node_count();
    let mut num: u128 = 0;
    let mut den: u128 = 1;
    let mut s: usize = 0;
    while s < n
        invariant
            g.wf(),
            t.models(*g),
            v < n,
            n == g.n(),
            n >= 3,
            s <= n,
            betw_fits(*g, v as int, (s * n) as int),
            num as int == betw_sum(*g, v as int, (s * n) as int).0,
            den as int == betw_sum(*g, v as int, (s * n) as int).1,
        decreases n - s,
    {
        let mut tt: usize = 0;
        while tt < n
            invariant
                g.wf(),
                t.models(*g),
                v < n,
                n == g.n(),
                n >= 3,
                s < n,
                tt <= n,
                betw_fits(*g, v as int, (s * n + tt) as int),
                num as int == betw_sum(*g, v as int, (s * n + tt) as int).0,
                den as int == betw_sum(*g, v as int, (s * n + tt) as int).1,
            decreases n - tt,
        {
            let ghost m = (s * n + tt) as int;
            proof {
                assert((s * n + tt) < n * n) by (nonlinear_arith)
                    requires s < n, tt < n;
                assert(m + 1 <= pair_total(*g)) by (nonlinear_arith)
                    requires m == s * n + tt, s < n, tt < n, n == (*g).n();
                lemma_fundamental_div_mod_converse(m, n as int, s as int, tt as int);
                assert(m / (n as int) == s as int && m % (n as int) == tt as int);
            }
            // does the ordered pair (s, tt) contribute to v?
            let mut contributes: bool = false;
            if s != tt && s != v && tt != v && t.sigma[s][tt] > 0 {
                let d_sv = t.dist[s][v];
                let d_vt = t.dist[v][tt];
                let d_st = t.dist[s][tt];
                match (d_sv, d_vt, d_st) {
                    (Option::Some(a), Option::Some(b), Option::Some(c)) => {
                        if c >= a && c - a == b {
                            contributes = true;
                        }
                    },
                    _ => {},
                }
            }
            proof {
                assert(crate::paths::cell(t.dist@, s as int, v as int)
                    == dist(*g, s as int, v as int));
                assert(crate::paths::cell(t.dist@, v as int, tt as int)
                    == dist(*g, v as int, tt as int));
                assert(crate::paths::cell(t.dist@, s as int, tt as int)
                    == dist(*g, s as int, tt as int));
                assert(t.sigma@[s as int]@[tt as int] as int == sigma(*g, s as int, tt as int));
                assert(contributes == pair_counts(*g, s as int, tt as int, v as int));
            }
            if contributes {
                let sig_sv = t.sigma[s][v];
                let sig_vt = t.sigma[v][tt];
                let sig_st = t.sigma[s][tt];
                proof {
                    assert(sig_sv as int == sigma(*g, s as int, v as int));
                    assert(sig_vt as int == sigma(*g, v as int, tt as int));
                    assert(sig_st as int == sigma(*g, s as int, tt as int));
                }
                let dn = match sig_sv.checked_mul(sig_vt) {
                    Option::Some(x) => x,
                    Option::None => {
                        proof {
                            assert(delta_num(*g, s as int, tt as int, v as int) > u128::MAX);
                            assert(!betw_fits(*g, v as int, m + 1));
                            lemma_betw_fits_mono(*g, v as int, m + 1, pair_total(*g));
                        }
                        return Err(CentralityError::Overflow);
                    },
                };
                let a = match num.checked_mul(sig_st) {
                    Option::Some(x) => x,
                    Option::None => {
                        proof {
                            assert(!betw_fits(*g, v as int, m + 1));
                            lemma_betw_fits_mono(*g, v as int, m + 1, pair_total(*g));
                        }
                        return Err(CentralityError::Overflow);
                    },
                };
                let b = match dn.checked_mul(den) {
                    Option::Some(x) => x,
                    Option::None => {
                        proof {
                            assert(!betw_fits(*g, v as int, m + 1));
                            lemma_betw_fits_mono(*g, v as int, m + 1, pair_total(*g));
                        }
                        return Err(CentralityError::Overflow);
                    },
                };
                let new_num = match a.checked_add(b) {
                    Option::Some(x) => x,
                    Option::None => {
                        proof {
                            assert(!betw_fits(*g, v as int, m + 1));
                            lemma_betw_fits_mono(*g, v as int, m + 1, pair_total(*g));
                        }
                        return Err(CentralityError::Overflow);
                    },
                };
                let new_den = match den.checked_mul(sig_st) {
                    Option::Some(x) => x,
                    Option::None => {
                        proof {
                            assert(!betw_fits(*g, v as int, m + 1));
                            lemma_betw_fits_mono(*g, v as int, m + 1, pair_total(*g));
                        }
                        return Err(CentralityError::Overflow);
                    },
                };
                num = new_num;
                den = new_den;
            } else {
                proof {
                    assert(delta_den(*g, s as int, tt as int, v as int) == 1);
                    assert(delta_num(*g, s as int, tt as int, v as int) == 0);
                    assert(m / (g.n() as int) == s as int);
                    assert(m % (g.n() as int) == tt as int);
                    assert(betw_sum(*g, v as int, m + 1) == (
                        betw_sum(*g, v as int, m).0 * delta_den(*g, s as int, tt as int, v as int)
                            + delta_num(*g, s as int, tt as int, v as int) * betw_sum(
                            *g,
                            v as int,
                            m,
                        ).1,
                        betw_sum(*g, v as int, m).1 * delta_den(*g, s as int, tt as int, v as int),
                    ));
                    assert(betw_sum(*g, v as int, m + 1).0 == num as int);
                    assert(betw_sum(*g, v as int, m + 1).1 == den as int);
                }
            }
            tt = tt + 1;
        }
        proof {
            assert((s + 1) * n == s * n + n) by (nonlinear_arith);
        }
        s = s + 1;
    }
    proof {
        assert((s * n) as int == pair_total(*g)) by (nonlinear_arith)
            requires s == n, n == (*g).n();
    }
    Ok(Ratio { num, den })
}

/// A fold prefix that fails to fit makes the whole fold fail to fit.
pub proof fn lemma_betw_fits_mono(g: Graph, v: int, m1: int, m2: int)
    requires
        m1 <= m2,
        !betw_fits(g, v, m1),
    ensures
        !betw_fits(g, v, m2),
    decreases m2 - m1,
{
    if m1 < m2 {
        lemma_betw_fits_mono(g, v, m1, m2 - 1);
    }
}

/// Exact closeness fraction of one node.
fn closeness_of(g: &Graph, t: &PathTable, v: usize) -> (r: Result<Ratio, CentralityError>)
    requires
        g.wf(),
        t.models(*g),
        v < g.n(),
    ensures
        match r {
            Ok(rat) => close_fits(*g, v as int) && rat.num as int == closeness_frac(
                *g,
                v as int,
            ).0 && rat.den as int == closeness_frac(*g, v as int).1,
            Err(e) => e == CentralityError::Overflow && !close_fits(*g, v as int),
        },
{
    let n = g.node_count();
    let mut cnt: u128 = 0;
    let mut sum: u128 = 0;
    let mut u: usize = 0;
    while u < n
        invariant
            g.wf(),
            t.models(*g),
            v < n,
            n == g.n(),
            u <= n,
            cnt as int == close_counts(*g, v as int, u as int).0,
            sum as int == close_counts(*g, v as int, u as int).1,
            cnt <= u,
        decreases n - u,
    {
        if u != v {
            proof {
                assert(crate::paths::cell(t.dist@, v as int, u as int)
                    == dist(*g, v as int, u as int));
            }
            match t.dist[v][u] {
                Option::Some(d) => {
                    match sum.checked_add(d) {
                        Option::Some(s2) => {
                            sum = s2;
                        },
                        Option::None => {
                            proof {
                                assert forall|w: int|
                                    0 <= w < n && dist(*g, v as int, w) is Some implies dist(
                                    *g,
                                    v as int,
                                    w,
                                )->0 >= 0 by {
                                    assert(crate::paths::cell(t.dist@, v as int, w)
                                        == dist(*g, v as int, w));
                                }
                                lemma_close_counts_mono(*g, v as int, u + 1, n as int);
                                assert(!close_fits(*g, v as int));
                            }
                            return Err(CentralityError::Overflow);
                        },
                    }
                    cnt = cnt + 1;
                },
                Option::None => {},
            }
        }
        u = u + 1;
    }
    if cnt == 0 {
        Ok(Ratio { num: 0, den: 1 })
    } else {
        Ok(Ratio { num: cnt, den: sum })
    }
}

/// Computes both centrality scores of every node from the shortest-path
/// table, in node index order.
///
/// Fails with `Overflow` exactly when some node's exact score cannot be
/// carried in the machine range; otherwise every returned fraction equals
/// the specified one, bit for bit.
pub fn centrality_scores(g: &Graph, t: &PathTable) -> (r: Result<
    Vec<NodeCentrality>,
    CentralityError,
>)
    requires
        g.wf(),
        t.models(*g),
    ensures
        match r {
            Ok(rows) => rows@.len() == g.n() && (forall|v: int|
                0 <= v < g.n() ==> #[trigger] scores_fit(*g, v)) && (forall|v: int|
                0 <= v < g.n() ==> scores_exact(*g, v, #[trigger] rows@[v])),
            Err(e) => e == CentralityError::Overflow && exists|v: int|
                0 <= v < g.n() && !scores_fit(*g, v),
        },
{
    let n = g.node_count();
    let mut rows: Vec<NodeCentrality> = Vec::new();
    let mut v: usize = 0;
    while v < n
        invariant
            g.wf(),
            t.models(*g),
            n == g.n(),
            v <= n,
            rows@.len() == v,
            forall|w: int| 0 <= w < v ==> #[trigger] scores_fit(*g, w),
            forall|w: int| 0 <= w < v ==> scores_exact(*g, w, #[trigger] rows@[w]),
        decreases n - v,
    {
        let betweenness: Ratio;
        if n < 3 {
            betweenness = Ratio { num: 0, den: 1 };
        } else {
            let raw = match betweenness_raw(g, t, v) {
                Ok(x) => x,
                Err(e) => {
                    proof {
                        assert(!betw_norm_fits(*g, v as int));
                        assert(!scores_fit(*g, v as int));
                    }
                    return Err(e);
                },
            };
            let n1 = (n - 1) as u128;
            let n2 = (n - 2) as u128;
            proof {
                assert(n1 * n2 <= 0xFFFF_FFFF_FFFF_FFFFu128 * 0xFFFF_FFFF_FFFF_FFFFu128)
                    by (nonlinear_arith)
                    requires n1 <= 0xFFFF_FFFF_FFFF_FFFFu128, n2 <= 0xFFFF_FFFF_FFFF_FFFFu128;
            }
            let norm = n1 * n2;
            match raw.den.checked_mul(norm) {
                Option::Some(d2) => {
                    betweenness = Ratio { num: raw.num, den: d2 };
                },
                Option::None => {
                    proof {
                        assert(raw.den as int * (norm as int) > u128::MAX);
                        assert(!betw_norm_fits(*g, v as int));
                        assert(!scores_fit(*g, v as int));
                    }
                    return Err(CentralityError::Overflow);
                },
            }
            proof {
                let nn = g.n() as int;
                assert(norm as int == (nn - 1) * (nn - 2));
                assert(betweenness.num as int == betweenness_frac(*g, v as int).0);
                assert(betweenness.den as int == betw_sum(*g, v as int, pair_total(*g)).1 * ((nn
                    - 1) * (nn - 2)));
                assert(betweenness.den as int == betweenness_frac(*g, v as int).1);
                assert(betw_norm_fits(*g, v as int));
            }
        }
        let closeness = match closeness_of(g, t, v) {
            Ok(x) => x,
            Err(e) => {
                proof {
                    assert(!scores_fit(*g, v as int));
                }
                return Err(e);
            },
        };
        let nc = NodeCentrality { betweenness, closeness };
        proof {
            assert(scores_fit(*g, v as int));
            assert(scores_exact(*g, v as int, nc));
        }
        let ghost prev_rows = rows@;
        rows.push(nc);
        proof {
            assert forall|w: int| 0 <= w < v + 1 implies #[trigger] scores_fit(*g, w) by {
                if w == v {
                    assert(scores_fit(*g, v as int));
                }
            }
            assert forall|w: int|
                0 <= w < v + 1 implies scores_exact(*g, w, #[trigger] rows@[w]) by {
                if w < v {
                    assert(rows@[w] == prev_rows[w]);
                    assert(scores_exact(*g, w, prev_rows[w]));
                } else {
                    assert(w == v as int);
                    assert(rows@[w] == nc);
                }
            }
        }
        v = v + 1;
    }
    Ok(rows)
}

/// Label attached to a node id: the first matching entry of the list, or
/// `Unknown` when none matches.
pub open spec fn label_spec(ls: Seq<(u32, String)>, id: u32) -> Seq<char>
    decreases ls.len(),
{
    if ls.len() == 0 {
        "Unknown"@
    } else if ls[0].0 == id {
        ls[0].1@
    } else {
        label_spec(ls.drop_first(), id)
    }
}

/// First label recorded for `id`, or `Unknown`.
fn label_of(node_labels: &Vec<(u32, String)>, id: u32) -> (r: String)
    ensures
        r@ == label_spec(node_labels@, id),
{
    let n = node_labels.len();
    proof {
        assert(node_labels@.skip(0) =~= node_labels@);
    }
    let mut k: usize = 0;
    while k < n
        invariant
            n == node_labels@.len(),
            k <= n,
            label_spec(node_labels@.skip(k as int), id) == label_spec(node_labels@, id),
        decreases n - k,
    {
        let ghost suffix = node_labels@.skip(k as int);
        proof {
            assert(suffix[0] == node_labels@[k as int]);
            assert(suffix.drop_first() =~= node_labels@.skip(k + 1));
        }
        if node_labels[k].0 == id {
            return node_labels[k].1.clone();
        }
        k = k + 1;
    }
    proof {
        assert(node_labels@.skip(n as int) =~= Seq::<(u32, String)>::empty());
    }
    "Unknown".to_owned()
}

/// One node's line of the centrality report: its id, its label, and its
/// two exact scores.
pub struct ScoredNode {
    pub node_id: u32,
    pub label: String,
    pub betweenness: Ratio,
    pub closeness: Ratio,
}

/// Computes the exact betweenness and closeness of every node of the
/// graph, labelled for reporting, in node index order.
///
/// Rejects a graph with a negative edge weight outright, and reports
/// `Overflow` exactly when some exact distance, count or score exceeds the
/// machine range; otherwise every score is exact, so identical graphs
/// always yield identical output. With strictly positive weights the
/// underlying counts are exactly the numbers of distinct shortest simple
/// paths (`lemma_sigma_counts_shortest_paths` in the paths module).
pub fn calculate_centrality(graph: &Graph, node_labels: &Vec<(u32, String)>) -> (r: Result<
    Vec<ScoredNode>,
    CentralityError,
>)
    requires
        graph.wf(),
    ensures
        match r {
            Ok(rows) => {
                &&& weights_ok(*graph)
                &&& rows@.len() == graph.n()
                &&& forall|v: int|
                    0 <= v < graph.n() ==> (#[trigger] rows@[v]).node_id == graph.ids()[v]
                        && rows@[v].label@ == label_spec(node_labels@, graph.ids()[v])
                &&& forall|v: int|
                    0 <= v < graph.n() ==> #[trigger] scores_fit(*graph, v) && (
                    rows@[v].betweenness.num as int, rows@[v].betweenness.den as int)
                        == betweenness_frac(*graph, v) && (
                    rows@[v].closeness.num as int, rows@[v].closeness.den as int)
                        == closeness_frac(*graph, v)
            },
            Err(e) => (e == CentralityError::NegativeWeight && !weights_ok(*graph)) || (e
                == CentralityError::Overflow && weights_ok(*graph) && (fw_overflow(*graph)
                || sigma_overflow(*graph) || exists|v: int|
                0 <= v < graph.n() && !scores_fit(*graph, v))),
        },
{
    let table = match shortest_path_table(graph) {
        Ok(t) => t,
        Err(e) => {
            return Err(e);
        },
    };
    let scores = match centrality_scores(graph, &table) {
        Ok(s) => s,
        Err(e) => {
            return Err(e);
        },
    };
    let n = graph.node_count();
    let mut rows: Vec<ScoredNode> = Vec::new();
    let mut v: usize = 0;
    while v < n
        invariant
            graph.wf(),
            n == graph.n(),
            v <= n,
            rows@.len() == v,
            scores@.len() == n,
            forall|w: int|
                0 <= w < n ==> scores_fit(*graph, w) && scores_exact(
                    *graph,
                    w,
                    #[trigger] scores@[w],
                ),
            forall|w: int|
                0 <= w < v ==> (#[trigger] rows@[w]).node_id == graph.ids()[w]
                    && rows@[w].label@ == label_spec(node_labels@, graph.ids()[w])
                    && rows@[w].betweenness == scores@[w].betweenness && rows@[w].closeness
                    == scores@[w].closeness,
        decreases n - v,
    {
        let id = graph.node_id_at(v);
        let label = label_of(node_labels, id);
        let sc = &scores[v];
        rows.push(
            ScoredNode { node_id: id, label, betweenness: sc.betweenness, closeness: sc.closeness },
        );
        v = v + 1;
    }
    Ok(rows)
}

} // verus!
