//! Undirected graphs on densely indexed vertices, stored as one strictly
//! sorted neighbor set per vertex, with an optional table mapping each local
//! vertex back to the label it had in the graph it was extracted from.

use vstd::prelude::*;

use crate::sorted::{find_in_sorted, lemma_push_contains, lemma_sorted_len_bound, sorted_strict};

verus! {

/// A vertex index: dense, so a graph on n vertices uses exactly [0, n).
pub type Idx = u16;

/// A neighbor set: a strictly ascending vector of vertex indices.
pub type NodeSet = Vec<Idx>;

/// An undirected graph. `adj[u]` holds the neighbors of vertex `u`; `mapping`
/// is either empty (labels default to index + 1) or maps each local index to
/// its label in the originally imported graph.
#[derive(Debug)]
pub struct Graph {
    pub adj: Vec<NodeSet>,
    pub mapping: Vec<Idx>,
}

impl Graph {
    /// Number of vertices, as a mathematical integer.
    pub open spec fn vcount(&self) -> int {
        self.adj@.len() as int
    }

    /// The neighbor set of vertex `u`, as a sequence.
    pub open spec fn nbrs(&self, u: int) -> Seq<Idx> {
        self.adj@[u]@
    }

    /// Degree of vertex `u`.
    pub open spec fn deg(&self, u: int) -> int {
        self.nbrs(u).len() as int
    }

    /// There is an edge from `u` to `v` (an entry `v` in `u`'s neighbor set).
    pub open spec fn has_edge(&self, u: int, v: int) -> bool {
        0 <= u < self.vcount() && 0 <= v < self.vcount() && self.nbrs(u).contains(v as u16)
    }

    /// The label shown for local vertex `u`: 1-based identity when no mapping
    /// is present, else the stored label.
    pub open spec fn spec_label(&self, u: int) -> Idx {
        if self.mapping@.len() == 0 {
            (u + 1) as u16
        } else {
            self.mapping@[u]
        }
    }

    /// Representation invariant: the vertex count fits the index type, the
    /// mapping is absent or one entry per vertex, and every neighbor set is
    /// strictly ascending with entries that are valid vertex indices.
    pub open spec fn wf(&self) -> bool {
        &&& self.adj@.len() <= 0xFFFF
        &&& (self.mapping@.len() == 0 || self.mapping@.len() == self.adj@.len())
        &&& forall|u: int| 0 <= u < self.vcount() ==> sorted_strict(#[trigger] self.nbrs(u))
        &&& forall|u: int, k: int|
            0 <= u < self.vcount() && 0 <= k < self.nbrs(u).len()
                ==> ((#[trigger] self.nbrs(u)[k]) as int) < self.vcount()
    }

    /// Every edge runs both ways.
    pub open spec fn symmetric(&self) -> bool {
        forall|u: int, v: int| #[trigger] self.has_edge(u, v) ==> self.has_edge(v, u)
    }

    /// No vertex neighbors itself.
    pub open spec fn no_self_loops(&self) -> bool {
        forall|u: int| 0 <= u < self.vcount() ==> !(#[trigger] self.has_edge(u, u))
    }

    /// The smallest degree among the first `k` vertices (0 when `k <= 0`).
    pub open spec fn min_deg_to(&self, k: int) -> int
        decreases k,
    {
        if k <= 0 {
            0
        } else if k == 1 {
            self.deg(0)
        } else if self.min_deg_to(k - 1) <= self.deg(k - 1) {
            self.min_deg_to(k - 1)
        } else {
            self.deg(k - 1)
        }
    }

    /// The smallest degree of any vertex; 0 for the empty graph.
    pub open spec fn spec_min_degree(&self) -> int {
        self.min_deg_to(self.vcount())
    }

    /// The largest degree among the first `k` vertices (0 when `k <= 0`).
    pub open spec fn max_deg_to(&self, k: int) -> int
        decreases k,
    {
        if k <= 0 {
            0
        } else if self.max_deg_to(k - 1) >= self.deg(k - 1) {
            self.max_deg_to(k - 1)
        } else {
            self.deg(k - 1)
        }
    }

    /// The largest degree of any vertex; 0 for the empty graph.
    pub open spec fn spec_max_degree(&self) -> int {
        self.max_deg_to(self.vcount())
    }

    /// The labeled edge pairs contributed by the first `k` neighbors of
    /// vertex `u`: one pair per neighbor with a higher index than `u`.
    pub open spec fn row_pairs_to(&self, u: int, k: int) -> Seq<(Idx, Idx)>
        decreases k,
    {
        if k <= 0 {
            Seq::empty()
        } else if (self.nbrs(u)[k - 1] as int) > u {
            self.row_pairs_to(u, k - 1) + seq![
                (self.spec_label(u), self.spec_label(self.nbrs(u)[k - 1] as int)),
            ]
        } else {
            self.row_pairs_to(u, k - 1)
        }
    }

    /// The labeled edge pairs contributed by the first `k` vertices.
    pub open spec fn edges_to(&self, k: int) -> Seq<(Idx, Idx)>
        decreases k,
    {
        if k <= 0 {
            Seq::empty()
        } else {
            self.edges_to(k - 1) + self.row_pairs_to(k - 1, self.nbrs(k - 1).len() as int)
        }
    }

    /// Every undirected edge exactly once, as a pair of labels: vertex `u` is
    /// paired with each neighbor of higher index, in index order.
    pub open spec fn spec_edges(&self) -> Seq<(Idx, Idx)> {
        self.edges_to(self.vcount())
    }

    /// The sum of the degrees of the first `k` vertices.
    pub open spec fn deg_sum_to(&self, k: int) -> int
        decreases k,
    {
        if k <= 0 {
            0
        } else {
            self.deg_sum_to(k - 1) + self.deg(k - 1)
        }
    }

    /// The sum of the degrees of all vertices.
    pub open spec fn spec_degree_sum(&self) -> int {
        self.deg_sum_to(self.vcount())
    }

    /// Number of vertices.
    pub fn n(&self) -> (r: Idx)
        requires
            self.wf(),
        ensures
            r as int == self.vcount(),
    {
        self.adj.len() as Idx
    }

    /// The vertex indices [from, n), in ascending order.
    pub fn vertices_from(&self, from: Idx) -> (r: Vec<Idx>)
        requires
            self.wf(),
        ensures
            r@.len() == if from as int <= self.vcount() {
                self.vcount() - from as int
            } else {
                0
            },
            forall|k: int| 0 <= k < r@.len() ==> (#[trigger] r@[k]) as int == from as int + k,
    {
        let n = self.n();
        let mut r: Vec<Idx> = Vec::new();
        let mut u: Idx = from;
        while u < n
            invariant
                from <= u <= n || (from > n && u == from),
                u >= n ==> r@.len() == if from <= n { n as int - from as int } else { 0int },
                u < n ==> r@.len() == u as int - from as int,
                forall|k: int| 0 <= k < r@.len() ==> (#[trigger] r@[k]) as int == from as int + k,
            decreases n as int - u as int,
        {
            r.push(u);
            u = u + 1;
        }
        r
    }

    /// All vertex indices [0, n), in ascending order.
    pub fn vertices(&self) -> (r: Vec<Idx>)
        requires
            self.wf(),
        ensures
            r@.len() == self.vcount(),
            forall|k: int| 0 <= k < r@.len() ==> (#[trigger] r@[k]) as int == k,
    {
        self.vertices_from(0)
    }

    /// `min_deg_to(k)` is a degree actually attained below `k`, and no degree
    /// below `k` is smaller.
    pub proof fn lemma_min_deg_to(&self, k: int)
        requires
            0 < k <= self.vcount(),
        ensures
            forall|u: int| 0 <= u < k ==> self.min_deg_to(k) <= #[trigger] self.deg(u),
            exists|u: int| 0 <= u < k && self.min_deg_to(k) == #[trigger] self.deg(u),
        decreases k,
    {
        if k == 1 {
            assert(self.min_deg_to(1) == self.deg(0));
        } else {
            self.lemma_min_deg_to(k - 1);
            if self.min_deg_to(k - 1) <= self.deg(k - 1) {
                assert(self.min_deg_to(k) == self.min_deg_to(k - 1));
            } else {
                assert(self.min_deg_to(k) == self.deg(k - 1));
            }
        }
    }

    /// `max_deg_to(k)` is 0 or a degree attained below `k`, and no degree
    /// below `k` is larger.
    pub proof fn lemma_max_deg_to(&self, k: int)
        requires
            0 < k <= self.vcount(),
        ensures
            forall|u: int| 0 <= u < k ==> self.max_deg_to(k) >= #[trigger] self.deg(u),
            exists|u: int| 0 <= u < k && self.max_deg_to(k) == #[trigger] self.deg(u),
        decreases k,
    {
        if k == 1 {
            assert(self.max_deg_to(1) == self.deg(0)) by {
                assert(self.max_deg_to(0) == 0);
            }
        } else {
            self.lemma_max_deg_to(k - 1);
            if self.max_deg_to(k - 1) >= self.deg(k - 1) {
                assert(self.max_deg_to(k) == self.max_deg_to(k - 1));
            } else {
                assert(self.max_deg_to(k) == self.deg(k - 1));
            }
        }
    }

    /// The smallest degree over all vertices, or 0 when there are none.
    pub fn min_degree(&self) -> (r: usize)
        requires
            self.wf(),
        ensures
            r as int == self.spec_min_degree(),
            forall|u: int| 0 <= u < self.vcount() ==> r as int <= #[trigger] self.deg(u),
            self.vcount() > 0 ==> exists|u: int|
                0 <= u < self.vcount() && r as int == #[trigger] self.deg(u),
    {
        let n = self.adj.len();
        if n == 0 {
            return 0;
        }
        let mut r: usize = self.adj[0].len();
        let mut k: usize = 1;
        while k < n
            invariant
                1 <= k <= n,
                n == self.vcount(),
                r as int == self.min_deg_to(k as int),
            decreases n - k,
        {
            let d = self.adj[k].len();
            if d < r {
                r = d;
            }
            k = k + 1;
        }
        proof {
            self.lemma_min_deg_to(self.vcount());
        }
        r
    }

    /// The largest degree over all vertices, or 0 when there are none.
    pub fn max_degree(&self) -> (r: usize)
        requires
            self.wf(),
        ensures
            r as int == self.spec_max_degree(),
            forall|u: int| 0 <= u < self.vcount() ==> r as int >= #[trigger] self.deg(u),
            self.vcount() > 0 ==> exists|u: int|
                0 <= u < self.vcount() && r as int == #[trigger] self.deg(u),
    {
        let n = self.adj.len();
        let mut r: usize = 0;
        let mut k: usize = 0;
        while k < n
            invariant
                0 <= k <= n,
                n == self.vcount(),
                r as int == self.max_deg_to(k as int),
            decreases n - k,
        {
            let d = self.adj[k].len();
            if d > r {
                r = d;
            }
            k = k + 1;
        }
        proof {
            if self.vcount() > 0 {
                self.lemma_max_deg_to(self.vcount());
            }
        }
        r
    }

    /// The neighbor set of `u`.
    pub fn adj(&self, u: Idx) -> (r: &NodeSet)
        requires
            self.wf(),
            (u as int) < self.vcount(),
        ensures
            r@ == self.nbrs(u as int),
    {
        &self.adj[u as usize]
    }

    /// Degree of `u`.
    pub fn degree(&self, u: Idx) -> (r: usize)
        requires
            self.wf(),
            (u as int) < self.vcount(),
        ensures
            r as int == self.deg(u as int),
    {
        self.adj(u).len()
    }

    /// Every undirected edge exactly once, as `(label, label)` pairs: each
    /// vertex `u` is paired with exactly its neighbors of higher index, so no
    /// edge repeats and no self-pair appears, whatever the label mapping.
    pub fn edges(&self) -> (r: Vec<(Idx, Idx)>)
        requires
            self.wf(),
        ensures
            r@ == self.spec_edges(),
    {
        let n = self.adj.len();
        let mut r: Vec<(Idx, Idx)> = Vec::new();
        let mut u: usize = 0;
        while u < n
            invariant
                u <= n,
                n == self.vcount(),
                self.wf(),
                r@ == self.edges_to(u as int),
            decreases n - u,
        {
            let row_len = self.adj[u].len();
            let mut k: usize = 0;
            while k < row_len
                invariant
                    k <= row_len,
                    u < n,
                    n == self.vcount(),
                    self.wf(),
                    row_len == self.nbrs(u as int).len(),
                    r@ == self.edges_to(u as int) + self.row_pairs_to(u as int, k as int),
                decreases row_len - k,
            {
                let v = self.adj[u][k];
                let ghost old_r = r@;
                if v > u as Idx {
                    let lu = self.pretty(u as Idx);
                    let lv = self.pretty(v);
                    r.push((lu, lv));
                    proof {
                        assert(r@ =~= old_r + seq![
                            (
                                self.spec_label(u as int),
                                self.spec_label(self.nbrs(u as int)[k as int] as int),
                            ),
                        ]);
                    }
                } else {
                    proof {
                        assert((self.nbrs(u as int)[k as int] as int) <= u as int);
                    }
                }
                k = k + 1;
            }
            proof {
                assert(r@ == self.edges_to(u as int + 1));
            }
            u = u + 1;
        }
        r
    }

    /// The label shown for local vertex `u`: `mapping[u]` when a mapping is
    /// present, else `u + 1`.
    pub fn pretty(&self, u: Idx) -> (r: Idx)
        requires
            self.wf(),
            (u as int) < self.vcount(),
        ensures
            r == self.spec_label(u as int),
    {
        if (u as usize) < self.mapping.len() {
            self.mapping[u as usize]
        } else {
            u + 1
        }
    }
}

/// Shared contract of the two induced-row strategies: `row` holds exactly the
/// positions `j` (as local indices, ascending) whose subset member `nodes[j]`
/// lies in `parent_row`.
pub open spec fn induced_row_ok(parent_row: Seq<Idx>, nodes: Seq<Idx>, row: Seq<Idx>) -> bool {
    &&& sorted_strict(row)
    &&& forall|t: int| 0 <= t < row.len() ==> ((#[trigger] row[t]) as int) < nodes.len()
    &&& forall|j: int|
        0 <= j < nodes.len() ==> (#[trigger] row.contains(j as u16) <==> parent_row.contains(
            nodes[j],
        ))
}

/// Intersect by walking the (smaller) neighbor set and binary-searching the
/// subset: the regime where the subset is larger than the vertex's degree.
fn row_via_neighbors(parent_row: &Vec<Idx>, nodes: &Vec<Idx>) -> (row: Vec<Idx>)
    requires
        sorted_strict(parent_row@),
        sorted_strict(nodes@),
        nodes@.len() <= 0xFFFF,
    ensures
        induced_row_ok(parent_row@, nodes@, row@),
{
    let mut row: Vec<Idx> = Vec::new();
    let mut k: usize = 0;
    while k < parent_row.len()
        invariant
            k <= parent_row@.len(),
            sorted_strict(parent_row@),
            sorted_strict(nodes@),
            nodes@.len() <= 0xFFFF,
            sorted_strict(row@),
            forall|t: int| 0 <= t < row@.len() ==> ((#[trigger] row@[t]) as int) < nodes@.len(),
            forall|t: int|
                0 <= t < row@.len() ==> parent_row@.take(k as int).contains(
                    nodes@[(#[trigger] row@[t]) as int],
                ),
            forall|j: int|
                0 <= j < nodes@.len() && parent_row@.take(k as int).contains(nodes@[j])
                    ==> #[trigger] row@.contains(j as u16),
        decreases parent_row@.len() - k,
    {
        let v = parent_row[k];
        let ghost old_row = row@;
        let ghost prefix = parent_row@.take(k as int);
        proof {
            assert(parent_row@.take(k + 1) =~= prefix.push(v));
            lemma_push_contains(prefix, v);
        }
        match find_in_sorted(nodes, v) {
            Some(j) => {
                proof {
                    assert forall|t: int| 0 <= t < row@.len() implies ((#[trigger] row@[t]) as int)
                        < j by {
                        let w = nodes@[row@[t] as int];
                        assert(prefix.contains(w));
                        let p = choose|p: int| 0 <= p < prefix.len() && prefix[p] == w;
                        assert(parent_row@[p] == w && p < k);
                        assert(w < v);
                        if row@[t] as int >= j {
                            assert(nodes@[j as int] <= nodes@[row@[t] as int]);
                        }
                    }
                }
                row.push(j as u16);
                proof {
                    lemma_push_contains(old_row, j as u16);
                    assert(row@ == old_row.push(j as u16));
                    assert forall|a: int, b: int| 0 <= a < b < row@.len() implies row@[a]
                        < row@[b] by {
                        if b < row@.len() - 1 {
                            assert(old_row[a] < old_row[b]);
                        } else {
                            assert((row@[a] as int) < j);
                        }
                    }
                    assert forall|jj: int|
                        0 <= jj < nodes@.len() && parent_row@.take(k + 1).contains(
                            nodes@[jj],
                        ) implies #[trigger] row@.contains(jj as u16) by {
                        if prefix.contains(nodes@[jj]) {
                            assert(old_row.contains(jj as u16));
                        } else {
                            assert(nodes@[jj] == v);
                            assert(nodes@[j as int] == v);
                            if jj != j {
                                assert(false);
                            }
                            assert(row@[row@.len() - 1] == jj as u16);
                        }
                    }
                }
            },
            None => {
                proof {
                    assert forall|jj: int|
                        0 <= jj < nodes@.len() && parent_row@.take(k + 1).contains(
                            nodes@[jj],
                        ) implies #[trigger] row@.contains(jj as u16) by {
                        if !prefix.contains(nodes@[jj]) {
                            assert(nodes@[jj] == v);
                            assert(nodes@.contains(v));
                            assert(false);
                        }
                    }
                }
            },
        }
        k = k + 1;
    }
    proof {
        assert(parent_row@.take(parent_row@.len() as int) =~= parent_row@);
    }
    row
}

/// Intersect by walking the (smaller) subset and binary-searching the
/// neighbor set: the regime where the vertex's degree is at least the subset
/// size.
fn row_via_subset(parent_row: &Vec<Idx>, nodes: &Vec<Idx>) -> (row: Vec<Idx>)
    requires
        sorted_strict(parent_row@),
        sorted_strict(nodes@),
        nodes@.len() <= 0xFFFF,
    ensures
        induced_row_ok(parent_row@, nodes@, row@),
{
    let mut row: Vec<Idx> = Vec::new();
    let mut j: usize = 0;
    while j < nodes.len()
        invariant
            j <= nodes@.len() <= 0xFFFF,
            sorted_strict(parent_row@),
            sorted_strict(nodes@),
            sorted_strict(row@),
            forall|t: int| 0 <= t < row@.len() ==> ((#[trigger] row@[t]) as int) < j,
            forall|t: int|
                0 <= t < row@.len() ==> parent_row@.contains(nodes@[(#[trigger] row@[t]) as int]),
            forall|jj: int|
                0 <= jj < j && parent_row@.contains(nodes@[jj]) ==> #[trigger] row@.contains(
                    jj as u16,
                ),
        decreases nodes@.len() - j,
    {
        let ghost old_row = row@;
        if find_in_sorted(parent_row, nodes[j]).is_some() {
            row.push(j as u16);
            proof {
                lemma_push_contains(old_row, j as u16);
                assert forall|a: int, b: int| 0 <= a < b < row@.len() implies row@[a] < row@[b] by {
                    if b < row@.len() - 1 {
                        assert(old_row[a] < old_row[b]);
                    } else {
                        assert((row@[a] as int) < j);
                    }
                }
                assert(row@[row@.len() - 1] == j as u16);
            }
        }
        j = j + 1;
    }
    row
}

/// How a graph imported from a flat row-major 0/1 adjacency matrix relates to
/// that matrix: `n` vertices, identity labels, and an edge from `u` to `v`
/// exactly where entry `n*u + v` is 1. No symmetry or zero-diagonal check is
/// made: upholding those is the matrix producer's contract.
pub open spec fn imported_rel(n: int, bits: Seq<u8>, r: Graph) -> bool {
    &&& r.vcount() == n
    &&& r.mapping@.len() == 0
    &&& forall|u: int, v: int|
        0 <= u < n && 0 <= v < n ==> (#[trigger] r.has_edge(u, v) <==> bits[n * u + v] == 1)
}

/// How an induced subgraph relates to its parent and the chosen vertex
/// subset: one local vertex per subset entry, labels translated through the
/// parent's own mapping, and local vertices adjacent exactly when the subset
/// entries they stand for are adjacent in the parent.
pub open spec fn induced_rel(parent: Graph, sub: Seq<Idx>, r: Graph) -> bool {
    &&& r.vcount() == sub.len()
    &&& r.mapping@.len() == sub.len()
    &&& forall|i: int|
        0 <= i < sub.len() ==> #[trigger] r.mapping@[i] == parent.spec_label(sub[i] as int)
    &&& forall|i: int, j: int|
        0 <= i < sub.len() && 0 <= j < sub.len() ==> (#[trigger] r.has_edge(i, j)
            <==> parent.has_edge(sub[i] as int, sub[j] as int))
}

impl Graph {
    /// Extract the subgraph induced by a strictly ascending set of valid
    /// vertex indices: local vertex `i` stands for `nodes[i]`, keeps exactly
    /// the parent edges inside the subset, and is labeled with the parent's
    /// label for `nodes[i]`. Per vertex, whichever is smaller of its neighbor
    /// set and the subset is walked, binary-searching the other.
    pub fn induced(&self, nodes: &NodeSet) -> (r: Graph)
        requires
            self.wf(),
            sorted_strict(nodes@),
            forall|k: int|
                0 <= k < nodes@.len() ==> ((#[trigger] nodes@[k]) as int) < self.vcount(),
        ensures
            r.wf(),
            induced_rel(*self, nodes@, r),
    {
        proof {
            lemma_sorted_len_bound(nodes@, self.vcount());
        }
        let m = nodes.len();
        let mut adj2: Vec<NodeSet> = Vec::new();
        let mut i: usize = 0;
        while i < m
            invariant
                i <= m,
                m == nodes@.len() <= 0xFFFF,
                self.wf(),
                sorted_strict(nodes@),
                forall|k: int|
                    0 <= k < nodes@.len() ==> ((#[trigger] nodes@[k]) as int) < self.vcount(),
                adj2@.len() == i,
                forall|x: int| 0 <= x < i ==> sorted_strict(#[trigger] adj2@[x]@),
                forall|x: int, t: int|
                    0 <= x < i && 0 <= t < adj2@[x]@.len()
                        ==> ((#[trigger] adj2@[x]@[t]) as int) < m,
                forall|x: int, j: int|
                    0 <= x < i && 0 <= j < m ==> (#[trigger] adj2@[x]@.contains(j as u16)
                        <==> self.nbrs(nodes@[x] as int).contains(nodes@[j])),
            decreases m - i,
        {
            let u = nodes[i];
            let parent_row = &self.adj[u as usize];
            proof {
                assert(parent_row@ == self.nbrs(u as int));
                assert(sorted_strict(self.nbrs(u as int)));
            }
            let row = if m > parent_row.len() {
                row_via_neighbors(parent_row, nodes)
            } else {
                row_via_subset(parent_row, nodes)
            };
            adj2.push(row);
            i = i + 1;
        }
        let mut mapping2: Vec<Idx> = Vec::new();
        let mut p: usize = 0;
        while p < m
            invariant
                p <= m,
                m == nodes@.len(),
                self.wf(),
                forall|k: int|
                    0 <= k < nodes@.len() ==> ((#[trigger] nodes@[k]) as int) < self.vcount(),
                mapping2@.len() == p,
                forall|x: int|
                    0 <= x < p ==> #[trigger] mapping2@[x] == self.spec_label(nodes@[x] as int),
            decreases m - p,
        {
            let lab = self.pretty(nodes[p]);
            mapping2.push(lab);
            p = p + 1;
        }
        let r = Graph { adj: adj2, mapping: mapping2 };
        proof {
            assert forall|i2: int, j2: int| 0 <= i2 < nodes@.len() && 0 <= j2
                < nodes@.len() implies (#[trigger] r.has_edge(i2, j2) <==> self.has_edge(
                nodes@[i2] as int,
                nodes@[j2] as int,
            )) by {
                assert(r.nbrs(i2) == adj2@[i2]@);
                assert(r.nbrs(i2).contains(j2 as u16) <==> self.nbrs(nodes@[i2] as int).contains(
                    nodes@[j2],
                ));
            }
        }
        r
    }

    /// Build a graph from a vertex count and a flat row-major n-by-n matrix of
    /// 0/1 entries, inserting `v` into `u`'s neighbor set wherever entry
    /// `n*u + v` is 1. The matrix is trusted to be symmetric with a zero
    /// diagonal; a violation silently yields an asymmetric or self-looped
    /// graph. The result carries no mapping (identity labels).
    pub fn from_bit_matrix(n: usize, bits: &Vec<u8>) -> (r: Graph)
        requires
            n <= 0xFFFF,
            bits@.len() == n * n,
        ensures
            r.wf(),
            imported_rel(n as int, bits@, r),
    {
        let total: usize = bits.len();
        let mut adj: Vec<NodeSet> = Vec::new();
        let mut u: usize = 0;
        while u < n
            invariant
                u <= n <= 0xFFFF,
                bits@.len() == n * n,
                total == n * n,
                adj@.len() == u,
                forall|x: int| 0 <= x < u ==> sorted_strict(#[trigger] adj@[x]@),
                forall|x: int, k: int|
                    0 <= x < u && 0 <= k < adj@[x]@.len()
                        ==> ((#[trigger] adj@[x]@[k]) as int) < n,
                forall|x: int, v: int|
                    0 <= x < u && 0 <= v < n
                        ==> ((#[trigger] adj@[x]@.contains(v as u16)) <==> bits@[n * x + v]
                            == 1),
            decreases n - u,
        {
            let mut row: NodeSet = Vec::new();
            let mut v: usize = 0;
            proof {
                assert(n * u + n <= n * n) by (nonlinear_arith)
                    requires
                        u < n,
                ;
            }
            while v < n
                invariant
                    v <= n <= 0xFFFF,
                    u < n,
                    bits@.len() == n * n,
                    total == n * n,
                    n * u + n <= n * n,
                    forall|t: int| 0 <= t < row@.len() ==> ((#[trigger] row@[t]) as int) < v,
                    sorted_strict(row@),
                    forall|t: int|
                        0 <= t < row@.len() ==> bits@[n * u + (#[trigger] row@[t]) as int] == 1,
                    forall|w: int|
                        0 <= w < v && bits@[n * u + w] == 1 ==> #[trigger] row@.contains(w as u16),
                decreases n - v,
            {
                if bits[n * u + v] == 1 {
                    let ghost old_row = row@;
                    row.push(v as u16);
                    proof {
                        assert forall|w: int|
                            0 <= w < v + 1 && bits@[n * u + w] == 1 implies #[trigger] row@
                            .contains(w as u16) by {
                            if w < v {
                                assert(old_row.contains(w as u16));
                                let t = choose|t: int|
                                    0 <= t < old_row.len() && old_row[t] == w as u16;
                                assert(row@[t] == w as u16);
                            } else {
                                assert(row@[row@.len() - 1] == w as u16);
                            }
                        }
                    }
                }
                v = v + 1;
            }
            adj.push(row);
            u = u + 1;
        }
        let r = Graph { adj, mapping: Vec::new() };
        proof {
            assert forall|x: int, v: int| 0 <= x < n && 0 <= v < n implies (#[trigger] r.has_edge(
                x,
                v,
            ) <==> bits@[n * x + v] == 1) by {
                assert(r.nbrs(x) == adj@[x]@);
            }
        }
        r
    }
}

impl Default for Graph {
    /// The empty graph: no vertices, no mapping.
    fn default() -> (r: Self)
        ensures
            r.wf(),
            r.vcount() == 0,
            r.mapping@.len() == 0,
    {
        Graph { adj: Vec::new(), mapping: Vec::new() }
    }
}

} // verus!
