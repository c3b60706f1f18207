//! Weighted undirected graph over player/team nodes.
//!
//! Nodes carry a numeric id and are stored in insertion order; each node gets
//! a dense index. Edges are recorded per ordered pair of node indices (at most
//! one edge per ordered pair, never a self-loop); the undirected weight of a
//! pair of nodes is the cheaper of the two directed records, when present.
//! Edge weights are plain `i64` values; callers pick the fixed-point scale.

use vstd::prelude::*;

use crate::records::MergedData;
use crate::records::Team;

verus! {

/// Largest stat magnitude the similarity formula accepts; keeps the exact
/// weight arithmetic inside the machine range at any sensible fixed-point
/// scale.
pub const STAT_LIMIT: i64 = 100_000_000_000_000;

/// A weighted undirected graph: node ids plus, for every node index, the
/// list of directed edge records leaving that index.
pub struct Graph {
    node_ids: Vec<u32>,
    adj: Vec<Vec<(usize, i64)>>,
}

/// First weight recorded for target `j` in the edge list `s`, scanning from
/// position `k`.
pub closed spec fn find_from(s: Seq<(usize, i64)>, j: int, k: int) -> Option<i64>
    decreases s.len() - k,
{
    if k < 0 || k >= s.len() {
        None
    } else if s[k].0 == j {
        Some(s[k].1)
    } else {
        find_from(s, j, k + 1)
    }
}

/// The smaller of two optional weights, absent entries ignored.
pub open spec fn opt_min(a: Option<i64>, b: Option<i64>) -> Option<i64> {
    match (a, b) {
        (Option::None, Option::None) => Option::None,
        (Option::Some(x), Option::None) => Option::Some(x),
        (Option::None, Option::Some(y)) => Option::Some(y),
        (Option::Some(x), Option::Some(y)) => if x <= y {
            Option::Some(x)
        } else {
            Option::Some(y)
        },
    }
}

/// `find_from` returns nothing exactly when no record from position `k` on
/// has target `j`.
pub proof fn lemma_find_from_none(s: Seq<(usize, i64)>, j: int, k: int)
    requires
        0 <= k,
    ensures
        find_from(s, j, k) is None <==> forall|a: int| k <= a < s.len() ==> (#[trigger] s[a]).0 != j,
    decreases s.len() - k,
{
    if k < s.len() {
        lemma_find_from_none(s, j, k + 1);
    }
}

/// A successful find returns the weight of some record with the sought
/// target.
pub proof fn lemma_find_from_some(s: Seq<(usize, i64)>, j: int, k: int, w: i64)
    requires
        0 <= k,
        find_from(s, j, k) == Some(w),
    ensures
        exists|a: int| k <= a < s.len() && (#[trigger] s[a]).0 == j && s[a].1 == w,
    decreases s.len() - k,
{
    if s[k].0 == j {
        assert(s[k].0 == j && s[k].1 == w);
    } else {
        lemma_find_from_some(s, j, k + 1, w);
    }
}

/// Appending a record does not disturb an existing find, and resolves a
/// failed one exactly when the new record matches.
pub proof fn lemma_find_push(s: Seq<(usize, i64)>, x: (usize, i64), j: int, k: int)
    requires
        0 <= k <= s.len(),
    ensures
        find_from(s.push(x), j, k) == match find_from(s, j, k) {
            Some(w) => Some(w),
            None => if x.0 == j {
                Some(x.1)
            } else {
                None::<i64>
            },
        },
    decreases s.len() - k,
{
    assert(s.push(x).len() == s.len() + 1);
    assert(s.push(x)[s.len() as int] == x);
    if k < s.len() {
        assert(s.push(x)[k] == s[k]);
        lemma_find_push(s, x, j, k + 1);
    }
}

impl Graph {
    /// Node ids in insertion order; the position of an id is its node index.
    pub closed spec fn ids(self) -> Seq<u32> {
        self.node_ids@
    }

    /// Number of nodes.
    pub open spec fn n(self) -> nat {
        self.ids().len()
    }

    /// Edge list of node index `i`.
    pub closed spec fn row(self, i: int) -> Seq<(usize, i64)> {
        self.adj@[i]@
    }

    /// Weight recorded for the ordered pair of node indices `(i, j)`, if any.
    pub closed spec fn edge(self, i: int, j: int) -> Option<i64> {
        if 0 <= i < self.adj@.len() {
            find_from(self.row(i), j, 0)
        } else {
            None
        }
    }

    /// Undirected weight between node indices `i` and `j`: the cheaper of the
    /// two directed records.
    pub open spec fn wt(self, i: int, j: int) -> Option<i64> {
        opt_min(self.edge(i, j), self.edge(j, i))
    }

    /// Structural soundness: one edge list per node, targets in range, no
    /// self-loops, no duplicate ordered pairs, node ids unique.
    pub closed spec fn wf(self) -> bool {
        &&& self.adj@.len() == self.node_ids@.len()
        &&& forall|i: int, a: int, b: int|
            0 <= i < self.adj@.len() && 0 <= a < b < self.row(i).len()
                ==> (#[trigger] self.row(i)[a]).0 != (#[trigger] self.row(i)[b]).0
        &&& forall|i: int, a: int|
            0 <= i < self.adj@.len() && 0 <= a < self.row(i).len()
                ==> (#[trigger] self.row(i)[a]).0 < self.node_ids@.len()
                    && self.row(i)[a].0 != i
        &&& forall|a: int, b: int|
            0 <= a < b < self.node_ids@.len()
                ==> self.node_ids@[a] != self.node_ids@[b]
    }

    /// An empty graph.
    pub fn new() -> (g: Graph)
        ensures
            g.wf(),
            g.n() == 0,
            g.records_from(0) == 0,
    {
        Graph { node_ids: Vec::new(), adj: Vec::new() }
    }

    /// Number of nodes.
    pub fn node_count(&self) -> (c: usize)
        ensures
            c == self.n(),
    {
        self.node_ids.len()
    }

    /// Id of the node at a dense index.
    pub fn node_id_at(&self, i: usize) -> (r: u32)
        requires
            i < self.n(),
        ensures
            r == self.ids()[i as int],
    {
        self.node_ids[i]
    }

    /// Dense index of the node with id `id`, if present.
    pub fn find_index(&self, id: u32) -> (r: Option<usize>)
        ensures
            match r {
                Some(i) => i < self.n() && self.ids()[i as int] == id,
                None => !self.ids().contains(id),
            },
    {
        let n = self.node_ids.len();
        let mut i: usize = 0;
        while i < n
            invariant
                n == self.n(),
                i <= n,
                forall|k: int| 0 <= k < i ==> self.ids()[k] != id,
            decreases n - i,
        {
            if self.node_ids[i] == id {
                return Some(i);
            }
            i = i + 1;
        }
        None
    }

    /// Inserts a node with the given id and returns its index. Re-inserting
    /// an id that is already present changes nothing and returns the index it
    /// already has.
    pub fn add_node(&mut self, id: u32) -> (idx: usize)
        requires
            old(self).wf(),
        ensures
            final(self).wf(),
            idx < final(self).n(),
            final(self).ids()[idx as int] == id,
            old(self).ids().contains(id) ==> *final(self) == *old(self),
            !old(self).ids().contains(id) ==> {
                &&& final(self).ids() == old(self).ids().push(id)
                &&& idx == old(self).n()
                &&& forall|i: int, j: int|
                    #[trigger] final(self).edge(i, j) == old(self).edge(i, j)
            },
            final(self).records_from(0) == old(self).records_from(0),
    {
        match self.find_index(id) {
            Some(i) => {
                proof {
                    assert(self.ids().contains(id));
                }
                i
            },
            None => {
                proof {
                    assert(forall|k: int|
                        0 <= k < self.ids().len() ==> self.ids()[k] != id);
                }
                let idx = self.node_ids.len();
                self.node_ids.push(id);
                self.adj.push(Vec::new());
                proof {
                    assert(forall|i: int| 0 <= i < old(self).adj@.len()
                        ==> #[trigger] self.row(i) == old(self).row(i));
                    assert(self.row(old(self).adj@.len() as int).len() == 0);
                    assert(forall|i: int, j: int|
                        #[trigger] self.edge(i, j) == old(self).edge(i, j));
                    lemma_records_push_row(*old(self), *self, 0);
                }
                idx
            },
        }
    }

    /// The id stored for `id`'s node, when such a node exists. The graph
    /// stores ids themselves as node payloads, so a present id is returned
    /// unchanged.
    pub fn get_node_weight(&self, node_id: u32) -> (r: Option<u32>)
        ensures
            r == if self.ids().contains(node_id) {
                Some(node_id)
            } else {
                None::<u32>
            },
    {
        match self.find_index(node_id) {
            Some(_) => Some(node_id),
            None => None,
        }
    }

    /// Index of the node carrying `id` (meaningful only when `id` is present,
    /// since ids are unique in a well-formed graph).
    pub open spec fn idx_of(self, id: u32) -> int {
        self.ids().index_of(id)
    }

    /// In a well-formed graph two positions holding the same id coincide.
    pub proof fn lemma_index_unique(self, a: int, b: int)
        requires
            self.wf(),
            0 <= a < self.n(),
            0 <= b < self.n(),
            self.ids()[a] == self.ids()[b],
        ensures
            a == b,
    {
    }

    /// Weight recorded for the ordered pair of node indices `(i, j)`, if any.
    pub fn edge_by_index(&self, i: usize, j: usize) -> (r: Option<i64>)
        requires
            self.wf(),
            i < self.n(),
        ensures
            r == self.edge(i as int, j as int),
    {
        let row_len = self.adj[i].len();
        let mut k: usize = 0;
        while k < row_len
            invariant
                self.wf(),
                i < self.n(),
                row_len == self.row(i as int).len(),
                k <= row_len,
                find_from(self.row(i as int), j as int, 0)
                    == find_from(self.row(i as int), j as int, k as int),
            decreases row_len - k,
        {
            let e = self.adj[i][k];
            if e.0 == j {
                return Some(e.1);
            }
            k = k + 1;
        }
        None
    }

    /// Weight recorded for the ordered pair of node ids `(source, target)`,
    /// if both nodes exist and such a record was made.
    pub fn edge_weight(&self, source: u32, target: u32) -> (r: Option<i64>)
        requires
            self.wf(),
        ensures
            r == if self.ids().contains(source) && self.ids().contains(target) {
                self.edge(self.idx_of(source), self.idx_of(target))
            } else {
                None::<i64>
            },
    {
        let si = match self.find_index(source) {
            Some(i) => i,
            None => {
                return None;
            },
        };
        let ti = match self.find_index(target) {
            Some(i) => i,
            None => {
                return None;
            },
        };
        proof {
            self.lemma_index_unique(si as int, self.idx_of(source));
            self.lemma_index_unique(ti as int, self.idx_of(target));
        }
        self.edge_by_index(si, ti)
    }

    /// Undirected weight between the nodes at indices `i` and `j`.
    pub fn wt_by_index(&self, i: usize, j: usize) -> (r: Option<i64>)
        requires
            self.wf(),
            i < self.n(),
            j < self.n(),
        ensures
            r == self.wt(i as int, j as int),
    {
        let a = self.edge_by_index(i, j);
        let b = self.edge_by_index(j, i);
        match (a, b) {
            (Option::None, Option::None) => None,
            (Option::Some(x), Option::None) => Some(x),
            (Option::None, Option::Some(y)) => Some(y),
            (Option::Some(x), Option::Some(y)) => if x <= y {
                Some(x)
            } else {
                Some(y)
            },
        }
    }

    /// Records an edge of the given weight between two existing nodes.
    ///
    /// A self-loop is never created, and a second record for the same
    /// ordered pair is rejected: in both cases the graph is unchanged.
    pub fn add_edge(&mut self, source: u32, target: u32, weight: i64)
        requires
            old(self).wf(),
            old(self).ids().contains(source),
            old(self).ids().contains(target),
        ensures
            final(self).wf(),
            final(self).ids() == old(self).ids(),
            ({
                let si = old(self).idx_of(source);
                let ti = old(self).idx_of(target);
                if source == target || old(self).edge(si, ti) is Some {
                    *final(self) == *old(self)
                } else {
                    &&& final(self).edge(si, ti) == Some(weight)
                    &&& forall|a: int, b: int|
                        !(a == si && b == ti)
                            ==> #[trigger] final(self).edge(a, b) == old(self).edge(a, b)
                    &&& final(self).records_from(0) == old(self).records_from(0) + 1
                }
            }),
    {
        if source == target {
            return;
        }
        let si = match self.find_index(source) {
            Some(i) => i,
            None => {
                proof {
                    assert(false);
                }
                return;
            },
        };
        let ti = match self.find_index(target) {
            Some(i) => i,
            None => {
                proof {
                    assert(false);
                }
                return;
            },
        };
        proof {
            self.lemma_index_unique(si as int, self.idx_of(source));
            self.lemma_index_unique(ti as int, self.idx_of(target));
        }
        match self.edge_by_index(si, ti) {
            Some(_) => {},
            None => {
                proof {
                    assert(si != ti) by {
                        if si == ti {
                            assert(self.ids()[si as int] == source);
                        }
                    }
                }
                let ghost oldg = *self;
                self.adj[si].push((ti, weight));
                proof {
                    assert(self.adj@ =~= oldg.adj@.update(
                        si as int,
                        self.adj@[si as int],
                    ));
                    assert(self.row(si as int) == oldg.row(si as int).push((ti, weight)));
                    assert(forall|i: int| 0 <= i < self.adj@.len() && i != si
                        ==> #[trigger] self.row(i) == oldg.row(i));
                    lemma_find_from_none(oldg.row(si as int), ti as int, 0);
                    assert(self.wf());
                    assert forall|a: int, b: int| !(a == si && b == ti)
                        implies #[trigger] self.edge(a, b) == oldg.edge(a, b) by {
                        if a == si && 0 <= a < self.adj@.len() {
                            lemma_find_push(oldg.row(a), (ti, weight), b, 0);
                        }
                    }
                    lemma_find_push(oldg.row(si as int), (ti, weight), ti as int, 0);
                    assert(self.edge(si as int, ti as int) == Some(weight));
                    lemma_records_extend_row(oldg, *self, si as int, 0);
                }
            },
        }
    }
}

/// Ids of the nodes adjacent (in the undirected sense) to the node at index
/// `si`, taken in index order from position `k` on.
pub open spec fn neighbor_ids_from(g: Graph, si: int, k: int) -> Seq<u32>
    decreases g.n() - k,
{
    if k < 0 || k >= g.n() {
        Seq::empty()
    } else if g.wt(si, k) is Some {
        seq![g.ids()[k]] + neighbor_ids_from(g, si, k + 1)
    } else {
        neighbor_ids_from(g, si, k + 1)
    }
}

impl Graph {
    /// Ids of all nodes adjacent to the node carrying `node_id`, in node
    /// index order, each listed once.
    pub fn get_neighbors(&self, node_id: u32) -> (r: Vec<u32>)
        requires
            self.wf(),
            self.ids().contains(node_id),
        ensures
            r@ == neighbor_ids_from(*self, self.idx_of(node_id), 0),
    {
        let si = match self.find_index(node_id) {
            Some(i) => i,
            None => {
                proof {
                    assert(false);
                }
                return Vec::new();
            },
        };
        proof {
            self.lemma_index_unique(si as int, self.idx_of(node_id));
        }
        let n = self.node_ids.len();
        let mut r: Vec<u32> = Vec::new();
        let mut k: usize = 0;
        while k < n
            invariant
                self.wf(),
                n == self.n(),
                si < n,
                si as int == self.idx_of(node_id),
                k <= n,
                r@ + neighbor_ids_from(*self, si as int, k as int)
                    == neighbor_ids_from(*self, si as int, 0),
            decreases n - k,
        {
            let ghost before = r@;
            match self.wt_by_index(si, k) {
                Some(_) => {
                    r.push(self.node_ids[k]);
                    proof {
                        assert(r@ + neighbor_ids_from(*self, si as int, k + 1)
                            =~= before + neighbor_ids_from(*self, si as int, k as int));
                    }
                },
                None => {},
            }
            k = k + 1;
        }
        proof {
            assert(r@ =~= r@ + neighbor_ids_from(*self, si as int, n as int));
        }
        r
    }

    /// Number of per-node edge lists (equals the node count in a
    /// well-formed graph).
    pub closed spec fn rows_len(self) -> int {
        self.adj@.len() as int
    }

    /// Total number of ordered edge records in the graph, counted from node
    /// index `i` on.
    pub closed spec fn records_from(self, i: int) -> int
        decreases self.rows_len() - i,
    {
        if i < 0 || i >= self.adj@.len() {
            0
        } else {
            self.row(i).len() + self.records_from(i + 1)
        }
    }

    /// Total number of ordered edge records in the graph.
    pub fn edge_count(&self) -> (c: u128)
        requires
            self.wf(),
        ensures
            c == self.records_from(0),
    {
        let n = self.adj.len();
        let mut c: u128 = 0;
        let mut i: usize = 0;
        while i < n
            invariant
                self.wf(),
                n == self.adj@.len(),
                i <= n,
                c + self.records_from(i as int) == self.records_from(0),
                c <= (i as u128) * 0xFFFF_FFFF_FFFF_FFFFu128,
            decreases n - i,
        {
            let row_len = self.adj[i].len();
            proof {
                assert(row_len <= 0xFFFF_FFFF_FFFF_FFFFu128);
            }
            c = c + row_len as u128;
            i = i + 1;
        }
        c
    }
}

/// Appending a node (an empty edge list) leaves every record count as it
/// was.
proof fn lemma_records_push_row(g1: Graph, g2: Graph, i: int)
    requires
        g2.rows_len() == g1.rows_len() + 1,
        forall|j: int| 0 <= j < g1.rows_len() ==> #[trigger] g2.row(j) == g1.row(j),
        g2.row(g1.rows_len()).len() == 0,
        0 <= i <= g1.rows_len(),
    ensures
        g2.records_from(i) == g1.records_from(i),
    decreases g1.rows_len() - i,
{
    if i < g1.rows_len() {
        lemma_records_push_row(g1, g2, i + 1);
        assert(g2.row(i) == g1.row(i));
        assert(g2.records_from(i) == g2.row(i).len() + g2.records_from(i + 1));
        assert(g1.records_from(i) == g1.row(i).len() + g1.records_from(i + 1));
    } else {
        assert(g1.records_from(i) == 0);
        assert(g2.records_from(i + 1) == 0);
        assert(g2.records_from(i) == g2.row(i).len() + g2.records_from(i + 1));
    }
}

/// Extending the edge list of row `r` by one record raises exactly the
/// counts that include row `r`.
proof fn lemma_records_extend_row(g1: Graph, g2: Graph, r: int, i: int)
    requires
        g2.rows_len() == g1.rows_len(),
        0 <= r < g1.rows_len(),
        forall|j: int| 0 <= j < g1.rows_len() && j != r ==> #[trigger] g2.row(j) == g1.row(j),
        g2.row(r).len() == g1.row(r).len() + 1,
        0 <= i <= g1.rows_len(),
    ensures
        g2.records_from(i) == g1.records_from(i) + if i <= r {
            1int
        } else {
            0int
        },
    decreases g1.rows_len() - i,
{
    if i < g1.rows_len() {
        lemma_records_extend_row(g1, g2, r, i + 1);
    }
}

/// Every recorded edge weight is nonnegative.
pub open spec fn weights_ok(g: Graph) -> bool {
    forall|i: int, a: int|
        0 <= i < g.rows_len() && 0 <= a < g.row(i).len()
            ==> (#[trigger] g.row(i)[a]).1 >= 0
}

impl Graph {
    /// Checks that no recorded edge carries a negative weight.
    pub fn weights_nonnegative(&self) -> (ok: bool)
        requires
            self.wf(),
        ensures
            ok == weights_ok(*self),
    {
        let n = self.adj.len();
        let mut i: usize = 0;
        while i < n
            invariant
                self.wf(),
                n == self.rows_len(),
                i <= n,
                forall|ii: int, a: int|
                    0 <= ii < i && 0 <= a < self.row(ii).len()
                        ==> (#[trigger] self.row(ii)[a]).1 >= 0,
            decreases n - i,
        {
            let row_len = self.adj[i].len();
            let mut a: usize = 0;
            while a < row_len
                invariant
                    self.wf(),
                    i < n,
                    n == self.rows_len(),
                    row_len == self.row(i as int).len(),
                    a <= row_len,
                    forall|b: int|
                        0 <= b < a ==> (#[trigger] self.row(i as int)[b]).1 >= 0,
                decreases row_len - a,
            {
                if self.adj[i][a].1 < 0 {
                    return false;
                }
                a = a + 1;
            }
            i = i + 1;
        }
        true
    }
}

/// With nonnegative records, every undirected weight is nonnegative.
pub proof fn lemma_wt_nonneg(g: Graph, i: int, j: int, w: i64)
    requires
        g.wf(),
        weights_ok(g),
        g.wt(i, j) == Some(w),
    ensures
        w >= 0,
{
    if g.edge(i, j) is Some {
        lemma_find_from_some(g.row(i), j, 0, g.edge(i, j)->0);
    }
    if g.edge(j, i) is Some {
        lemma_find_from_some(g.row(j), i, 0, g.edge(j, i)->0);
    }
}

/// Scanning from position `k` equals scanning the dropped-head list from
/// `k - 1`.
proof fn lemma_find_shift(s: Seq<(usize, i64)>, j: int, k: int)
    requires
        1 <= k <= s.len(),
    ensures
        find_from(s, j, k) == find_from(s.drop_first(), j, k - 1),
    decreases s.len() - k,
{
    if k < s.len() {
        assert(s.drop_first()[k - 1] == s[k]);
        lemma_find_shift(s, j, k + 1);
    }
}

/// In a list with pairwise-distinct targets, the find resolves to the one
/// record with the sought target.
proof fn lemma_find_from_at(s: Seq<(usize, i64)>, j: int, a: int)
    requires
        forall|x: int, y: int| 0 <= x < y < s.len() ==> (#[trigger] s[x]).0 != (#[trigger] s[y]).0,
        0 <= a < s.len(),
        s[a].0 == j,
    ensures
        find_from(s, j, 0) == Some(s[a].1),
    decreases s.len(),
{
    if a > 0 {
        assert(s[0].0 != j);
        let tail = s.drop_first();
        assert(forall|x: int, y: int|
            0 <= x < y < tail.len() ==> (#[trigger] tail[x]).0 != (#[trigger] tail[y]).0) by {
            assert(forall|x: int| 0 <= x < tail.len() ==> tail[x] == s[x + 1]);
        }
        lemma_find_from_at(tail, j, a - 1);
        lemma_find_shift(s, j, 1);
    }
}

/// Structural facts of a well-formed graph: one edge list per node, and
/// every record points at another node of the graph.
pub proof fn lemma_wf_rows(g: Graph)
    requires
        g.wf(),
    ensures
        g.rows_len() == g.n(),
        forall|i: int, a: int|
            0 <= i < g.n() && 0 <= a < g.row(i).len()
                ==> (#[trigger] g.row(i)[a]).0 < g.n() && g.row(i)[a].0 != i,
{
}

/// Every record makes its pair of nodes adjacent, with an undirected
/// weight no larger than the recorded one.
pub proof fn lemma_record_weight_vs_wt(g: Graph, i: int, a: int)
    requires
        g.wf(),
        0 <= i < g.n(),
        0 <= a < g.row(i).len(),
    ensures
        g.wt(i, g.row(i)[a].0 as int) is Some,
        g.wt(i, g.row(i)[a].0 as int)->0 <= g.row(i)[a].1,
{
    let j = g.row(i)[a].0 as int;
    lemma_find_from_at(g.row(i), j, a);
    assert(g.edge(i, j) == Some(g.row(i)[a].1));
}

/// Outside the node range there is no adjacency.
pub proof fn lemma_wt_out_of_range(g: Graph, i: int, j: int)
    requires
        g.wf(),
        !(0 <= i < g.n()) || !(0 <= j < g.n()),
    ensures
        g.wt(i, j) is None,
{
    if g.edge(i, j) is Some {
        assert(0 <= i < g.adj@.len());
        lemma_find_from_some(g.row(i), j, 0, g.edge(i, j)->0);
        assert(false);
    }
    if g.edge(j, i) is Some {
        assert(0 <= j < g.adj@.len());
        lemma_find_from_some(g.row(j), i, 0, g.edge(j, i)->0);
        assert(false);
    }
}

/// LAW: in every well-formed graph there are no self-loop records and no two
/// records for the same ordered pair of node indices.
pub proof fn lemma_no_self_loops_no_duplicates(g: Graph)
    requires
        g.wf(),
    ensures
        forall|i: int| 0 <= i < g.n() ==> g.edge(i, i) == None::<i64>,
        forall|i: int, a: int, b: int|
            0 <= i < g.n() && 0 <= a < b < g.row(i).len()
                ==> (#[trigger] g.row(i)[a]).0 != (#[trigger] g.row(i)[b]).0,
{
    assert forall|i: int| 0 <= i < g.n() implies g.edge(i, i) == None::<i64> by {
        lemma_find_from_none(g.row(i), i, 0);
    }
}

/// Sum of a byte sequence.
pub open spec fn byte_sum(bs: Seq<u8>) -> int
    decreases bs.len(),
{
    if bs.len() == 0 {
        0
    } else {
        bs[0] + byte_sum(bs.drop_first())
    }
}

proof fn lemma_byte_sum_nonneg(bs: Seq<u8>)
    ensures
        byte_sum(bs) >= 0,
    decreases bs.len(),
{
    if bs.len() > 0 {
        lemma_byte_sum_nonneg(bs.drop_first());
    }
}

/// Numeric node id a team gets: the byte sum of its abbreviation.
pub open spec fn team_code(t: Team) -> int {
    byte_sum(vstd::utf8::encode_utf8(t.abbreviation@))
}

/// Node id for a team, derived deterministically from the team code so
/// that team nodes live beside player nodes.
pub fn team_node_id(t: &Team) -> (r: u32)
    requires
        team_code(*t) <= u32::MAX,
    ensures
        r as int == team_code(*t),
{
    let bs = t.abbreviation.as_str().as_bytes();
    let n = bs.len();
    let mut sum: u64 = 0;
    proof {
        assert(bs@.skip(0) =~= bs@);
    }
    let mut i: usize = 0;
    while i < n
        invariant
            n == bs@.len(),
            i <= n,
            bs@ == vstd::utf8::encode_utf8(t.abbreviation@),
            sum + byte_sum(bs@.skip(i as int)) == team_code(*t),
            team_code(*t) <= u32::MAX,
        decreases n - i,
    {
        let ghost suffix = bs@.skip(i as int);
        proof {
            assert(suffix[0] == bs@[i as int]);
            assert(suffix.drop_first() =~= bs@.skip(i + 1));
            lemma_byte_sum_nonneg(bs@.skip(i + 1));
        }
        sum = sum + bs[i] as u64;
        i = i + 1;
    }
    proof {
        assert(bs@.skip(n as int) =~= Seq::<u8>::empty());
    }
    sum as u32
}

/// The three stats the similarity formula reads are within range.
pub open spec fn stats_bounded(d: MergedData) -> bool {
    &&& -STAT_LIMIT <= d.player.fg_percent <= STAT_LIMIT
    &&& -STAT_LIMIT <= d.team.points_per_game <= STAT_LIMIT
    &&& -STAT_LIMIT <= d.player.fg_percent_from_x3p_range <= STAT_LIMIT
}

/// Absolute difference.
pub open spec fn abs_diff(a: int, b: int) -> int {
    if a >= b {
        a - b
    } else {
        b - a
    }
}

/// Similarity weight of two joined records: half the field-goal gap plus
/// three tenths of the teams' points-per-game gap plus a fifth of the
/// three-point gap, all in tenths of the caller's fixed-point stat unit.
/// The middle term deliberately reads the team's statistic, so for two
/// true teammates it contributes nothing.
pub open spec fn sim_weight(a: MergedData, b: MergedData) -> int {
    5 * abs_diff(a.player.fg_percent as int, b.player.fg_percent as int) + 3 * abs_diff(
        a.team.points_per_game as int,
        b.team.points_per_game as int,
    ) + 2 * abs_diff(
        a.player.fg_percent_from_x3p_range as int,
        b.player.fg_percent_from_x3p_range as int,
    )
}

/// Joined records of the given player season, in order.
pub open spec fn merged_in_season(md: Seq<MergedData>, season: u32) -> Seq<MergedData>
    decreases md.len(),
{
    if md.len() == 0 {
        Seq::empty()
    } else {
        let rest = merged_in_season(md.drop_first(), season);
        if md[0].player.season == season {
            seq![md[0]] + rest
        } else {
            rest
        }
    }
}

/// Some record's player carries this id.
pub open spec fn has_player_id(md: Seq<MergedData>, id: u32) -> bool {
    exists|k: int| 0 <= k < md.len() && (#[trigger] md[k]).player.id == id
}

/// Some record's team code equals this id.
pub open spec fn has_team_code(md: Seq<MergedData>, id: u32) -> bool {
    exists|k: int| 0 <= k < md.len() && team_code((#[trigger] md[k]).team) == id
}

/// No two records carry the same player id.
pub open spec fn unique_player_ids(md: Seq<MergedData>) -> bool {
    forall|x: int, y: int|
        0 <= x < y < md.len() ==> (#[trigger] md[x]).player.id != (#[trigger] md[y]).player.id
}

/// The records at `x` and `y` are distinct teammates: same team
/// abbreviation, different player ids.
pub open spec fn teammates(md: Seq<MergedData>, x: int, y: int) -> bool {
    &&& 0 <= x < md.len()
    &&& 0 <= y < md.len()
    &&& md[x].team.abbreviation@ == md[y].team.abbreviation@
    &&& md[x].player.id != md[y].player.id
}

/// How the builder turns joined records into edges: one weighted edge per
/// pair of teammates, or one edge of the given weight from each player to
/// its team's node.
#[derive(Clone, Copy, Debug, PartialEq, Eq, Structural)]
pub enum EdgePolicy {
    Similarity,
    PlaysFor(i64),
}

impl Graph {
    /// Similarity weight of two joined records.
    pub fn calculate_weight(player1: &MergedData, player2: &MergedData) -> (r: i64)
        requires
            stats_bounded(*player1),
            stats_bounded(*player2),
        ensures
            r as int == sim_weight(*player1, *player2),
    {
        let d_fg = if player1.player.fg_percent >= player2.player.fg_percent {
            player1.player.fg_percent - player2.player.fg_percent
        } else {
            player2.player.fg_percent - player1.player.fg_percent
        };
        let d_ppg = if player1.team.points_per_game >= player2.team.points_per_game {
            player1.team.points_per_game - player2.team.points_per_game
        } else {
            player2.team.points_per_game - player1.team.points_per_game
        };
        let d_3p = if player1.player.fg_percent_from_x3p_range
            >= player2.player.fg_percent_from_x3p_range {
            player1.player.fg_percent_from_x3p_range - player2.player.fg_percent_from_x3p_range
        } else {
            player2.player.fg_percent_from_x3p_range - player1.player.fg_percent_from_x3p_range
        };
        5 * d_fg + 3 * d_ppg + 2 * d_3p
    }

    /// One ordered pair of records has been handled by the edge pass.
    pub open spec fn pair_done(a: int, b: int, x: int, y: int) -> bool {
        a < x || (a == x && b < y)
    }

    /// Adds one node per record's player, then one edge per ordered pair
    /// of distinct teammates, weighted by the similarity formula.
    fn build_similarity(&mut self, md: &Vec<MergedData>)
        requires
            old(self).wf(),
            old(self).n() == 0,
            forall|k: int| 0 <= k < md@.len() ==> stats_bounded(#[trigger] md@[k]),
        ensures
            final(self).wf(),
            forall|id: u32| final(self).ids().contains(id) <==> has_player_id(md@, id),
            unique_player_ids(md@) ==> forall|x: int, y: int|
                #[trigger] teammates(md@, x, y) ==> ({
                    let c = final(self).wt(
                        final(self).idx_of(md@[x].player.id),
                        final(self).idx_of(md@[y].player.id),
                    );
                    c is Some && c->0 == sim_weight(md@[x], md@[y])
                }),
            forall|i: int, j: int|
                (#[trigger] final(self).edge(i, j)) is Some ==> exists|x: int, y: int|
                    #[trigger] teammates(md@, x, y) && final(self).ids()[i] == md@[x].player.id
                        && final(self).ids()[j] == md@[y].player.id,
    {
        let n_md = md.len();
        // node pass
        let mut k: usize = 0;
        while k < n_md
            invariant
                self.wf(),
                n_md == md@.len(),
                k <= n_md,
                forall|id: u32|
                    self.ids().contains(id) <==> has_player_id(md@.take(k as int), id),
                forall|i2: int, j2: int| (#[trigger] self.edge(i2, j2)) is None,
            decreases n_md - k,
        {
            let pid = md[k].player.id;
            let ghost pre = *self;
            let _ = self.add_node(pid);
            proof {
                assert forall|id: u32|
                    self.ids().contains(id) <==> pre.ids().contains(id) || id == pid by {
                    if !pre.ids().contains(pid) {
                        if self.ids().contains(id) {
                            let ix = choose|ix: int|
                                0 <= ix < self.ids().len() && self.ids()[ix] == id;
                            if ix < pre.ids().len() {
                                assert(pre.ids()[ix] == id);
                            }
                        }
                        if pre.ids().contains(id) {
                            let ix = choose|ix: int|
                                0 <= ix < pre.ids().len() && pre.ids()[ix] == id;
                            assert(self.ids()[ix] == id);
                        }
                        assert(self.ids()[pre.ids().len() as int] == pid);
                    }
                }
                assert(md@.take(k + 1) =~= md@.take(k as int).push(md@[k as int]));
                assert forall|id: u32|
                    has_player_id(md@.take(k + 1), id) <==> has_player_id(md@.take(k as int), id)
                        || id == pid by {
                    let pfx = md@.take(k as int);
                    if has_player_id(pfx.push(md@[k as int]), id) {
                        let x = choose|x: int|
                            0 <= x < pfx.push(md@[k as int]).len() && (#[trigger] pfx.push(
                                md@[k as int],
                            )[x]).player.id == id;
                        if x < pfx.len() {
                            assert(pfx[x].player.id == id);
                        }
                    }
                    if has_player_id(pfx, id) {
                        let x = choose|x: int|
                            0 <= x < pfx.len() && (#[trigger] pfx[x]).player.id == id;
                        assert(pfx.push(md@[k as int])[x].player.id == id);
                    }
                    assert(pfx.push(md@[k as int])[pfx.len() as int].player.id == pid);
                }
                assert forall|id: u32|
                    self.ids().contains(id) <==> has_player_id(md@.take(k + 1), id) by {
                    assert(self.ids().contains(id) <==> pre.ids().contains(id) || id == pid);
                    assert(pre.ids().contains(id) <==> has_player_id(md@.take(k as int), id));
                }
            }
            k = k + 1;
        }
        proof {
            assert(md@.take(n_md as int) =~= md@);
        }
        // edge pass
        let ghost ids0 = self.ids();
        let mut x: usize = 0;
        while x < n_md
            invariant
                self.wf(),
                n_md == md@.len(),
                x <= n_md,
                self.ids() == ids0,
                forall|k2: int| 0 <= k2 < md@.len() ==> stats_bounded(#[trigger] md@[k2]),
                forall|id: u32| self.ids().contains(id) <==> has_player_id(md@, id),
                unique_player_ids(md@) ==> forall|a: int, b: int|
                    #[trigger] teammates(md@, a, b) && Self::pair_done(a, b, x as int, 0) ==> ({
                        let c = self.edge(
                            self.idx_of(md@[a].player.id),
                            self.idx_of(md@[b].player.id),
                        );
                        c is Some && c->0 == sim_weight(md@[a], md@[b])
                    }),
                unique_player_ids(md@) ==> forall|a: int, b: int|
                    #[trigger] teammates(md@, a, b) && !Self::pair_done(a, b, x as int, 0) ==> self
                        .edge(self.idx_of(md@[a].player.id), self.idx_of(md@[b].player.id))
                        is None,
                forall|i2: int, j2: int|
                    (#[trigger] self.edge(i2, j2)) is Some ==> exists|a: int, b: int|
                        #[trigger] teammates(md@, a, b) && self.ids()[i2] == md@[a].player.id
                            && self.ids()[j2] == md@[b].player.id,
            decreases n_md - x,
        {
            let mut y: usize = 0;
            while y < n_md
                invariant
                    self.wf(),
                    n_md == md@.len(),
                    x < n_md,
                    y <= n_md,
                    self.ids() == ids0,
                    forall|k2: int| 0 <= k2 < md@.len() ==> stats_bounded(#[trigger] md@[k2]),
                    forall|id: u32| self.ids().contains(id) <==> has_player_id(md@, id),
                    unique_player_ids(md@) ==> forall|a: int, b: int|
                        #[trigger] teammates(md@, a, b) && Self::pair_done(a, b, x as int, y as int)
                            ==> ({
                            let c = self.edge(
                                self.idx_of(md@[a].player.id),
                                self.idx_of(md@[b].player.id),
                            );
                            c is Some && c->0 == sim_weight(md@[a], md@[b])
                        }),
                    unique_player_ids(md@) ==> forall|a: int, b: int|
                        #[trigger] teammates(md@, a, b) && !Self::pair_done(
                            a,
                            b,
                            x as int,
                            y as int,
                        ) ==> self.edge(
                            self.idx_of(md@[a].player.id),
                            self.idx_of(md@[b].player.id),
                        ) is None,
                    forall|i2: int, j2: int|
                        (#[trigger] self.edge(i2, j2)) is Some ==> exists|a: int, b: int|
                            #[trigger] teammates(md@, a, b) && self.ids()[i2] == md@[a].player.id
                                && self.ids()[j2] == md@[b].player.id,
                decreases n_md - y,
            {
                let same_team = md[x].team.abbreviation == md[y].team.abbreviation;
                let pid_x = md[x].player.id;
                let pid_y = md[y].player.id;
                if same_team && pid_x != pid_y {
                    proof {
                        assert(teammates(md@, x as int, y as int));
                        assert(has_player_id(md@, pid_x));
                        assert(has_player_id(md@, pid_y));
                    }
                    let w = Graph::calculate_weight(&md[x], &md[y]);
                    let ghost pre = *self;
                    self.add_edge(pid_x, pid_y, w);
                    proof {
                        let si = pre.idx_of(pid_x);
                        let ti = pre.idx_of(pid_y);
                        assert(pre.ids().contains(pid_x) && pre.ids().contains(pid_y));
                        assert(pre.ids()[si] == pid_x && pre.ids()[ti] == pid_y);
                        assert(si != ti);
                        assert forall|i2: int, j2: int|
                            (#[trigger] self.edge(i2, j2)) is Some implies exists|a: int, b: int|
                                #[trigger] teammates(md@, a, b) && self.ids()[i2]
                                == md@[a].player.id && self.ids()[j2] == md@[b].player.id by {
                            if i2 == si && j2 == ti {
                                assert(teammates(md@, x as int, y as int) && self.ids()[si]
                                    == md@[x as int].player.id && self.ids()[ti]
                                    == md@[y as int].player.id);
                            } else {
                                assert(self.edge(i2, j2) == pre.edge(i2, j2));
                            }
                        }
                        if unique_player_ids(md@) {
                            assert(pre.edge(si, ti) is None) by {
                                assert(!Self::pair_done(x as int, y as int, x as int, y as int));
                            }
                            assert(self.edge(si, ti) == Some(w));
                            assert forall|a: int, b: int|
                                #[trigger] teammates(md@, a, b) && !(a == x && b == y) implies self
                                .edge(self.idx_of(md@[a].player.id), self.idx_of(md@[b].player.id))
                                == pre.edge(
                                pre.idx_of(md@[a].player.id),
                                pre.idx_of(md@[b].player.id),
                            ) by {
                                let ia = pre.idx_of(md@[a].player.id);
                                let ib = pre.idx_of(md@[b].player.id);
                                assert(has_player_id(md@, md@[a].player.id));
                                assert(has_player_id(md@, md@[b].player.id));
                                assert(pre.ids().contains(md@[a].player.id));
                                assert(pre.ids().contains(md@[b].player.id));
                                assert(pre.ids()[ia] == md@[a].player.id);
                                assert(pre.ids()[ib] == md@[b].player.id);
                                if a != x && ia == si {
                                    assert(md@[a].player.id == pid_x);
                                    if a < x {
                                        assert(md@[a].player.id != md@[x as int].player.id);
                                    } else {
                                        assert(md@[x as int].player.id != md@[a].player.id);
                                    }
                                    assert(false);
                                }
                                if b != y && ib == ti {
                                    assert(md@[b].player.id == pid_y);
                                    if b < y {
                                        assert(md@[b].player.id != md@[y as int].player.id);
                                    } else {
                                        assert(md@[y as int].player.id != md@[b].player.id);
                                    }
                                    assert(false);
                                }
                                if a == x && b != y {
                                    assert(!(ia == si && ib == ti));
                                } else if a != x {
                                    assert(ia != si);
                                }
                            }
                        }
                    }
                } else {
                    proof {
                        assert(!teammates(md@, x as int, y as int));
                    }
                }
                y = y + 1;
            }
            x = x + 1;
        }
        proof {
            if unique_player_ids(md@) {
                assert forall|a: int, b: int| #[trigger] teammates(md@, a, b) implies ({
                    let c = self.wt(self.idx_of(md@[a].player.id), self.idx_of(md@[b].player.id));
                    c is Some && c->0 == sim_weight(md@[a], md@[b])
                }) by {
                    assert(Self::pair_done(a, b, n_md as int, 0));
                    assert(teammates(md@, b, a));
                    assert(Self::pair_done(b, a, n_md as int, 0));
                    let ia = self.idx_of(md@[a].player.id);
                    let ib = self.idx_of(md@[b].player.id);
                    assert(self.edge(ia, ib) is Some && self.edge(ia, ib)->0 == sim_weight(
                        md@[a],
                        md@[b],
                    ));
                    assert(self.edge(ib, ia) is Some && self.edge(ib, ia)->0 == sim_weight(
                        md@[b],
                        md@[a],
                    ));
                    assert(sim_weight(md@[a], md@[b]) == sim_weight(md@[b], md@[a]));
                }
            }
        }
    }

    /// Adds one node per player and one per team, then one edge of weight
    /// `w` from each player to its team's node.
    fn build_plays_for(&mut self, md: &Vec<MergedData>, w: i64)
        requires
            old(self).wf(),
            old(self).n() == 0,
            forall|k: int| 0 <= k < md@.len() ==> team_code((#[trigger] md@[k]).team) <= u32::MAX,
        ensures
            final(self).wf(),
            forall|id: u32|
                final(self).ids().contains(id) <==> has_player_id(md@, id) || has_team_code(
                    md@,
                    id,
                ),
            forall|k: int|
                0 <= k < md@.len() && (#[trigger] md@[k]).player.id as int != team_code(md@[k].team)
                    ==> ({
                    let c = final(self).wt(
                        final(self).idx_of(md@[k].player.id),
                        final(self).idx_of(team_code(md@[k].team) as u32),
                    );
                    c is Some && c->0 == w
                }),
            forall|i: int, j: int|
                (#[trigger] final(self).edge(i, j)) is Some ==> final(self).edge(i, j)->0 == w
                    && exists|k: int|
                    0 <= k < md@.len() && final(self).ids()[i] == (#[trigger] md@[k]).player.id
                        && final(self).ids()[j] as int == team_code(md@[k].team),
    {
        let n_md = md.len();
        // node pass
        let mut k: usize = 0;
        while k < n_md
            invariant
                self.wf(),
                n_md == md@.len(),
                k <= n_md,
                forall|k2: int|
                    0 <= k2 < md@.len() ==> team_code((#[trigger] md@[k2]).team) <= u32::MAX,
                forall|id: u32|
                    self.ids().contains(id) <==> has_player_id(md@.take(k as int), id)
                        || has_team_code(md@.take(k as int), id),
                forall|i2: int, j2: int| (#[trigger] self.edge(i2, j2)) is None,
            decreases n_md - k,
        {
            let pid = md[k].player.id;
            let tid = team_node_id(&md[k].team);
            let ghost pre = *self;
            let _ = self.add_node(pid);
            let ghost mid = *self;
            let _ = self.add_node(tid);
            proof {
                assert forall|id: u32|
                    self.ids().contains(id) <==> pre.ids().contains(id) || id == pid || id
                        == tid by {
                    if !pre.ids().contains(pid) {
                        assert(mid.ids() == pre.ids().push(pid));
                        assert(mid.ids()[pre.ids().len() as int] == pid);
                    }
                    if mid.ids().contains(id) {
                        let ix = choose|ix: int| 0 <= ix < mid.ids().len() && mid.ids()[ix] == id;
                        if ix < pre.ids().len() {
                            assert(pre.ids()[ix] == id);
                        }
                    }
                    if pre.ids().contains(id) {
                        let ix = choose|ix: int| 0 <= ix < pre.ids().len() && pre.ids()[ix] == id;
                        assert(mid.ids()[ix] == id);
                    }
                    if !mid.ids().contains(tid) {
                        assert(self.ids() == mid.ids().push(tid));
                        assert(self.ids()[mid.ids().len() as int] == tid);
                    }
                    if self.ids().contains(id) {
                        let ix = choose|ix: int|
                            0 <= ix < self.ids().len() && self.ids()[ix] == id;
                        if ix < mid.ids().len() {
                            assert(mid.ids()[ix] == id);
                        }
                    }
                    if mid.ids().contains(id) {
                        let ix = choose|ix: int| 0 <= ix < mid.ids().len() && mid.ids()[ix] == id;
                        assert(self.ids()[ix] == id);
                    }
                }
                let pfx = md@.take(k as int);
                assert(md@.take(k + 1) =~= pfx.push(md@[k as int]));
                assert forall|id: u32|
                    has_player_id(md@.take(k + 1), id) <==> has_player_id(pfx, id) || id
                        == pid by {
                    if has_player_id(pfx.push(md@[k as int]), id) {
                        let x = choose|x: int|
                            0 <= x < pfx.push(md@[k as int]).len() && (#[trigger] pfx.push(
                                md@[k as int],
                            )[x]).player.id == id;
                        if x < pfx.len() {
                            assert(pfx[x].player.id == id);
                        }
                    }
                    if has_player_id(pfx, id) {
                        let x = choose|x: int|
                            0 <= x < pfx.len() && (#[trigger] pfx[x]).player.id == id;
                        assert(pfx.push(md@[k as int])[x].player.id == id);
                    }
                    assert(pfx.push(md@[k as int])[pfx.len() as int].player.id == pid);
                }
                assert forall|id: u32|
                    has_team_code(md@.take(k + 1), id) <==> has_team_code(pfx, id) || id
                        == tid by {
                    if has_team_code(pfx.push(md@[k as int]), id) {
                        let x = choose|x: int|
                            0 <= x < pfx.push(md@[k as int]).len() && team_code((#[trigger] pfx.push(
                                md@[k as int],
                            )[x]).team) == id;
                        if x < pfx.len() {
                            assert(team_code(pfx[x].team) == id);
                        }
                    }
                    if has_team_code(pfx, id) {
                        let x = choose|x: int|
                            0 <= x < pfx.len() && team_code((#[trigger] pfx[x]).team) == id;
                        assert(team_code(pfx.push(md@[k as int])[x].team) == id);
                    }
                    assert(team_code(pfx.push(md@[k as int])[pfx.len() as int].team) == tid);
                }
                assert forall|id: u32|
                    self.ids().contains(id) <==> has_player_id(md@.take(k + 1), id)
                        || has_team_code(md@.take(k + 1), id) by {
                    assert(self.ids().contains(id) <==> pre.ids().contains(id) || id == pid || id
                        == tid);
                    assert(pre.ids().contains(id) <==> has_player_id(pfx, id) || has_team_code(
                        pfx,
                        id,
                    ));
                }
            }
            k = k + 1;
        }
        proof {
            assert(md@.take(n_md as int) =~= md@);
        }
        // edge pass
        let ghost ids0 = self.ids();
        let mut x: usize = 0;
        while x < n_md
            invariant
                self.wf(),
                n_md == md@.len(),
                x <= n_md,
                self.ids() == ids0,
                forall|k2: int|
                    0 <= k2 < md@.len() ==> team_code((#[trigger] md@[k2]).team) <= u32::MAX,
                forall|id: u32|
                    self.ids().contains(id) <==> has_player_id(md@, id) || has_team_code(md@, id),
                forall|a: int|
                    0 <= a < x && (#[trigger] md@[a]).player.id as int != team_code(md@[a].team)
                        ==> ({
                        let c = self.edge(
                            self.idx_of(md@[a].player.id),
                            self.idx_of(team_code(md@[a].team) as u32),
                        );
                        c is Some && c->0 == w
                    }),
                forall|i2: int, j2: int|
                    (#[trigger] self.edge(i2, j2)) is Some ==> self.edge(i2, j2)->0 == w
                        && exists|a: int|
                        0 <= a < md@.len() && self.ids()[i2] == (#[trigger] md@[a]).player.id
                            && self.ids()[j2] as int == team_code(md@[a].team),
            decreases n_md - x,
        {
            let pid = md[x].player.id;
            let tid = team_node_id(&md[x].team);
            if pid != tid {
                proof {
                    assert(has_player_id(md@, pid));
                    assert(has_team_code(md@, tid as u32));
                }
                let ghost pre = *self;
                self.add_edge(pid, tid, w);
                proof {
                    let si = pre.idx_of(pid);
                    let ti = pre.idx_of(tid);
                    assert(pre.ids().contains(pid) && pre.ids().contains(tid));
                    assert(pre.ids()[si] == pid && pre.ids()[ti] == tid);
                    assert(si != ti);
                    if pre.edge(si, ti) is Some {
                        assert(*self == pre);
                        assert(pre.edge(si, ti)->0 == w);
                    } else {
                        assert(self.edge(si, ti) == Some(w));
                        assert(forall|a2: int, b2: int|
                            !(a2 == si && b2 == ti) ==> #[trigger] self.edge(a2, b2) == pre.edge(
                                a2,
                                b2,
                            ));
                    }
                    assert forall|i2: int, j2: int|
                        (#[trigger] self.edge(i2, j2)) is Some implies self.edge(i2, j2)->0 == w
                            && exists|a: int|
                            0 <= a < md@.len() && self.ids()[i2] == (#[trigger] md@[a]).player.id
                                && self.ids()[j2] as int == team_code(md@[a].team) by {
                        if i2 == si && j2 == ti {
                            assert(self.ids()[si] == md@[x as int].player.id && self.ids()[ti]
                                as int == team_code(md@[x as int].team));
                        } else {
                            assert(self.edge(i2, j2) == pre.edge(i2, j2));
                        }
                    }
                }
            }
            x = x + 1;
        }
        proof {
            assert forall|k2: int|
                0 <= k2 < md@.len() && (#[trigger] md@[k2]).player.id as int != team_code(
                    md@[k2].team,
                ) implies ({
                let c = self.wt(
                    self.idx_of(md@[k2].player.id),
                    self.idx_of(team_code(md@[k2].team) as u32),
                );
                c is Some && c->0 == w
            }) by {
                let ia = self.idx_of(md@[k2].player.id);
                let ib = self.idx_of(team_code(md@[k2].team) as u32);
                assert(self.edge(ia, ib) is Some && self.edge(ia, ib)->0 == w);
                if self.edge(ib, ia) is Some {
                    assert(self.edge(ib, ia)->0 == w);
                }
            }
        }
    }

    /// Builds the relationship graph of one player season from joined
    /// records, under the chosen edge policy. Records of other seasons are
    /// ignored; a season with no records leaves the graph empty.
    pub fn construct_with_policy(
        &mut self,
        merged_data: &[MergedData],
        policy: EdgePolicy,
        season: u32,
    )
        requires
            old(self).wf(),
            old(self).n() == 0,
            policy is Similarity ==> forall|k: int|
                0 <= k < merged_data@.len() ==> stats_bounded(#[trigger] merged_data@[k]),
            policy is PlaysFor ==> forall|k: int|
                0 <= k < merged_data@.len() ==> team_code((#[trigger] merged_data@[k]).team)
                    <= u32::MAX,
        ensures
            final(self).wf(),
            ({
                let md = merged_in_season(merged_data@, season);
                match policy {
                    EdgePolicy::Similarity => {
                        &&& forall|id: u32|
                            final(self).ids().contains(id) <==> has_player_id(md, id)
                        &&& unique_player_ids(md) ==> forall|x: int, y: int|
                            #[trigger] teammates(md, x, y) ==> ({
                                let c = final(self).wt(
                                    final(self).idx_of(md[x].player.id),
                                    final(self).idx_of(md[y].player.id),
                                );
                                c is Some && c->0 == sim_weight(md[x], md[y])
                            })
                        &&& forall|i: int, j: int|
                            (#[trigger] final(self).edge(i, j)) is Some ==> exists|x: int, y: int|
                                #[trigger] teammates(md, x, y) && final(self).ids()[i]
                                    == md[x].player.id && final(self).ids()[j] == md[y].player.id
                    },
                    EdgePolicy::PlaysFor(w) => {
                        &&& forall|id: u32|
                            final(self).ids().contains(id) <==> has_player_id(md, id)
                                || has_team_code(md, id)
                        &&& forall|k: int|
                            0 <= k < md.len() && (#[trigger] md[k]).player.id as int != team_code(
                                md[k].team,
                            ) ==> ({
                                let c = final(self).wt(
                                    final(self).idx_of(md[k].player.id),
                                    final(self).idx_of(team_code(md[k].team) as u32),
                                );
                                c is Some && c->0 == w
                            })
                        &&& forall|i: int, j: int|
                            (#[trigger] final(self).edge(i, j)) is Some ==> final(self).edge(
                                i,
                                j,
                            )->0 == w && exists|k: int|
                                0 <= k < md.len() && final(self).ids()[i] == (
                                #[trigger] md[k]).player.id && final(self).ids()[j] as int
                                    == team_code(md[k].team)
                    },
                }
            }),
    {
        let nall = merged_data.len();
        let mut md: Vec<MergedData> = Vec::new();
        proof {
            assert(merged_data@.skip(0) =~= merged_data@);
            assert(Seq::<MergedData>::empty() + merged_in_season(merged_data@, season)
                =~= merged_in_season(merged_data@, season));
        }
        let mut i: usize = 0;
        while i < nall
            invariant
                nall == merged_data@.len(),
                i <= nall,
                md@ + merged_in_season(merged_data@.skip(i as int), season) == merged_in_season(
                    merged_data@,
                    season,
                ),
                forall|k: int|
                    0 <= k < md@.len() ==> exists|k0: int|
                        0 <= k0 < merged_data@.len() && (#[trigger] md@[k]) == merged_data@[k0],
            decreases nall - i,
        {
            let ghost before = md@;
            let ghost suffix = merged_data@.skip(i as int);
            proof {
                assert(suffix[0] == merged_data@[i as int]);
                assert(suffix.drop_first() =~= merged_data@.skip(i + 1));
            }
            if merged_data[i].player.season == season {
                md.push(merged_data[i].duplicate());
                proof {
                    assert(md@ + merged_in_season(merged_data@.skip(i + 1), season) =~= before
                        + merged_in_season(suffix, season));
                    assert(md@[before.len() as int] == merged_data@[i as int]);
                }
            }
            i = i + 1;
        }
        proof {
            assert(merged_data@.skip(nall as int) =~= Seq::<MergedData>::empty());
            assert(md@ =~= merged_in_season(merged_data@, season));
        }
        match policy {
            EdgePolicy::Similarity => {
                proof {
                    assert forall|k: int|
                        0 <= k < md@.len() implies stats_bounded(#[trigger] md@[k]) by {
                        let k0 = choose|k0: int|
                            0 <= k0 < merged_data@.len() && md@[k] == merged_data@[k0];
                        assert(stats_bounded(merged_data@[k0]));
                    }
                }
                self.build_similarity(&md);
            },
            EdgePolicy::PlaysFor(w) => {
                proof {
                    assert forall|k: int|
                        0 <= k < md@.len() implies team_code((#[trigger] md@[k]).team)
                        <= u32::MAX by {
                        let k0 = choose|k0: int|
                            0 <= k0 < merged_data@.len() && md@[k] == merged_data@[k0];
                        assert(team_code(merged_data@[k0].team) <= u32::MAX);
                    }
                }
                self.build_plays_for(&md, w);
            },
        }
    }

    /// Builds the similarity-weighted teammate graph of the canonical
    /// season's records, as one weighted edge per ordered pair of distinct
    /// teammates.
    pub fn construct_from_data(&mut self, merged_data: &[MergedData])
        requires
            old(self).wf(),
            old(self).n() == 0,
            forall|k: int|
                0 <= k < merged_data@.len() ==> stats_bounded(#[trigger] merged_data@[k]),
        ensures
            final(self).wf(),
            ({
                let md = merged_in_season(merged_data@, 2022);
                &&& forall|id: u32| final(self).ids().contains(id) <==> has_player_id(md, id)
                &&& unique_player_ids(md) ==> forall|x: int, y: int|
                    #[trigger] teammates(md, x, y) ==> ({
                        let c = final(self).wt(
                            final(self).idx_of(md[x].player.id),
                            final(self).idx_of(md[y].player.id),
                        );
                        c is Some && c->0 == sim_weight(md[x], md[y])
                    })
                &&& forall|i: int, j: int|
                    (#[trigger] final(self).edge(i, j)) is Some ==> exists|x: int, y: int|
                        #[trigger] teammates(md, x, y) && final(self).ids()[i] == md[x].player.id
                            && final(self).ids()[j] == md[y].player.id
            }),
    {
        self.construct_with_policy(merged_data, EdgePolicy::Similarity, 2022)
    }
}

} // verus!
