//! The laws the graph toolkit obeys: preservation of symmetry and
//! loop-freedom, stability of labels under induction, composition of
//! inductions, and the degree bounds.

use vstd::prelude::*;

use crate::counting::{lemma_deg_sum_split, lemma_edges_len, lemma_low_eq_tri, lemma_tri_eq_high};
use crate::graph::{imported_rel, induced_rel, Graph, Idx};
use crate::sorted::lemma_sorted_eq_by_membership;

verus! {

/// Inducing preserves symmetry: when the parent graph is symmetric, so is
/// every subgraph induced from it.
pub proof fn lemma_induced_preserves_symmetry(g: Graph, sub: Seq<Idx>, r: Graph)
    requires
        r.wf(),
        induced_rel(g, sub, r),
        g.symmetric(),
    ensures
        r.symmetric(),
{
    assert forall|u: int, v: int| #[trigger] r.has_edge(u, v) implies r.has_edge(v, u) by {
        assert(g.has_edge(sub[u] as int, sub[v] as int));
        assert(g.has_edge(sub[v] as int, sub[u] as int));
    }
}

/// Inducing preserves loop-freedom: when no parent vertex neighbors itself,
/// no induced vertex does either.
pub proof fn lemma_induced_preserves_no_self_loops(g: Graph, sub: Seq<Idx>, r: Graph)
    requires
        r.wf(),
        induced_rel(g, sub, r),
        g.no_self_loops(),
    ensures
        r.no_self_loops(),
{
    assert forall|u: int| 0 <= u < r.vcount() implies !(#[trigger] r.has_edge(u, u)) by {
        assert(r.has_edge(u, u) <==> g.has_edge(sub[u] as int, sub[u] as int));
    }
}

/// A graph imported from a matrix with a zero diagonal has no self-loops.
pub proof fn lemma_imported_no_self_loops(n: int, bits: Seq<u8>, r: Graph)
    requires
        r.wf(),
        imported_rel(n, bits, r),
        forall|u: int| 0 <= u < n ==> #[trigger] bits[n * u + u] != 1,
    ensures
        r.no_self_loops(),
{
    assert forall|u: int| 0 <= u < r.vcount() implies !(#[trigger] r.has_edge(u, u)) by {
        assert(r.has_edge(u, u) <==> bits[n * u + u] == 1);
    }
}

/// A graph imported from a symmetric matrix is symmetric.
pub proof fn lemma_imported_symmetric(n: int, bits: Seq<u8>, r: Graph)
    requires
        r.wf(),
        imported_rel(n, bits, r),
        forall|u: int, v: int|
            0 <= u < n && 0 <= v < n ==> #[trigger] bits[n * u + v] == bits[n * v + u],
    ensures
        r.symmetric(),
{
    assert forall|u: int, v: int| #[trigger] r.has_edge(u, v) implies r.has_edge(v, u) by {
        assert(r.has_edge(u, v) <==> bits[n * u + v] == 1);
        assert(r.has_edge(v, u) <==> bits[n * v + u] == 1);
    }
}

/// Induction is label-stable: inducing on the full vertex set, in order,
/// yields a graph with the same vertex count, the same neighbor sets, and the
/// same label for every vertex.
pub proof fn lemma_induced_identity(g: Graph, sub: Seq<Idx>, r: Graph)
    requires
        g.wf(),
        r.wf(),
        induced_rel(g, sub, r),
        sub.len() == g.vcount(),
        forall|k: int| 0 <= k < sub.len() ==> (#[trigger] sub[k]) as int == k,
    ensures
        r.vcount() == g.vcount(),
        forall|u: int| 0 <= u < g.vcount() ==> #[trigger] r.nbrs(u) == g.nbrs(u),
        forall|u: int| 0 <= u < g.vcount() ==> #[trigger] r.spec_label(u) == g.spec_label(u),
{
    let n = g.vcount();
    assert forall|u: int| 0 <= u < n implies #[trigger] r.nbrs(u) == g.nbrs(u) by {
        assert forall|v: u16| r.nbrs(u).contains(v) <==> g.nbrs(u).contains(v) by {
            if r.nbrs(u).contains(v) {
                assert((v as int) < n);
                assert(r.has_edge(u, v as int));
                assert(g.has_edge(sub[u] as int, sub[v as int] as int));
                assert(g.nbrs(u).contains(v));
            }
            if g.nbrs(u).contains(v) {
                assert((v as int) < n);
                assert(g.has_edge(u, v as int));
                assert(sub[u] as int == u && sub[v as int] as int == v as int);
                assert(r.has_edge(u, v as int));
                assert(r.nbrs(u).contains(v));
            }
        }
        lemma_sorted_eq_by_membership(r.nbrs(u), g.nbrs(u));
    }
    assert forall|u: int| 0 <= u < n implies #[trigger] r.spec_label(u) == g.spec_label(u) by {
        assert(r.mapping@[u] == g.spec_label(sub[u] as int));
    }
}

/// Induction composes: inducing on subset `a` and then on local subset `b`
/// gives the same neighbor sets and labels as inducing once on the composed
/// subset `c`, where `c[k] = a[b[k]]`.
pub proof fn lemma_induced_composes(
    g: Graph,
    a: Seq<Idx>,
    r1: Graph,
    b: Seq<Idx>,
    r2: Graph,
    c: Seq<Idx>,
    rc: Graph,
)
    requires
        r2.wf(),
        rc.wf(),
        forall|k: int| 0 <= k < b.len() ==> ((#[trigger] b[k]) as int) < a.len(),
        induced_rel(g, a, r1),
        induced_rel(r1, b, r2),
        c.len() == b.len(),
        forall|k: int| 0 <= k < c.len() ==> #[trigger] c[k] == a[b[k] as int],
        induced_rel(g, c, rc),
    ensures
        r2.vcount() == rc.vcount(),
        forall|u: int| 0 <= u < r2.vcount() ==> #[trigger] r2.nbrs(u) == rc.nbrs(u),
        forall|u: int| 0 <= u < r2.vcount() ==> #[trigger] r2.spec_label(u) == rc.spec_label(u),
{
    let m = b.len() as int;
    assert forall|i: int, j: int| 0 <= i < m && 0 <= j < m implies (#[trigger] r2.has_edge(i, j)
        <==> rc.has_edge(i, j)) by {
        assert(r2.has_edge(i, j) <==> r1.has_edge(b[i] as int, b[j] as int));
        assert(r1.has_edge(b[i] as int, b[j] as int) <==> g.has_edge(
            a[b[i] as int] as int,
            a[b[j] as int] as int,
        ));
        assert(rc.has_edge(i, j) <==> g.has_edge(c[i] as int, c[j] as int));
        assert(c[i] == a[b[i] as int] && c[j] == a[b[j] as int]);
    }
    assert forall|u: int| 0 <= u < m implies #[trigger] r2.nbrs(u) == rc.nbrs(u) by {
        assert forall|v: u16| r2.nbrs(u).contains(v) <==> rc.nbrs(u).contains(v) by {
            if r2.nbrs(u).contains(v) {
                assert((v as int) < m);
                assert(r2.has_edge(u, v as int));
                assert(rc.has_edge(u, v as int));
                assert(rc.nbrs(u).contains(v));
            }
            if rc.nbrs(u).contains(v) {
                assert((v as int) < m);
                assert(rc.has_edge(u, v as int));
                assert(r2.has_edge(u, v as int));
                assert(r2.nbrs(u).contains(v));
            }
        }
        lemma_sorted_eq_by_membership(r2.nbrs(u), rc.nbrs(u));
    }
    assert forall|u: int| 0 <= u < m implies #[trigger] r2.spec_label(u) == rc.spec_label(u) by {
        assert(r2.mapping@[u] == r1.spec_label(b[u] as int));
        assert(rc.mapping@[u] == g.spec_label(c[u] as int));
        assert(r1.mapping@.len() == a.len());
        assert((b[u] as int) < a.len());
        assert(r1.spec_label(b[u] as int) == r1.mapping@[b[u] as int]);
        assert(r1.mapping@[b[u] as int] == g.spec_label(a[b[u] as int] as int));
    }
}

/// Edge count invariant: for a symmetric graph without self-loops, the edge
/// enumeration lists exactly half the degree sum, with no remainder.
pub proof fn lemma_edge_count(g: Graph)
    requires
        g.wf(),
        g.symmetric(),
        g.no_self_loops(),
    ensures
        2 * g.spec_edges().len() == g.spec_degree_sum(),
{
    let n = g.vcount();
    lemma_edges_len(g, n);
    lemma_deg_sum_split(g, n);
    lemma_low_eq_tri(g, n);
    lemma_tri_eq_high(g, n);
}

/// The smallest degree never exceeds the largest, and both are 0 for a graph
/// with no vertices or no edges.
pub proof fn lemma_degree_bounds(g: Graph)
    ensures
        g.spec_min_degree() <= g.spec_max_degree(),
        g.vcount() == 0 ==> g.spec_min_degree() == 0 && g.spec_max_degree() == 0,
        (forall|u: int| 0 <= u < g.vcount() ==> #[trigger] g.deg(u) == 0) ==> g.spec_min_degree()
            == 0 && g.spec_max_degree() == 0,
{
    let n = g.vcount();
    if n > 0 {
        g.lemma_min_deg_to(n);
        g.lemma_max_deg_to(n);
        let u0 = choose|u: int| 0 <= u < n && g.spec_min_degree() == #[trigger] g.deg(u);
        assert(g.spec_max_degree() >= g.deg(u0));
        if forall|u: int| 0 <= u < n ==> #[trigger] g.deg(u) == 0 {
            let u1 = choose|u: int| 0 <= u < n && g.spec_max_degree() == #[trigger] g.deg(u);
            assert(g.deg(u0) == 0 && g.deg(u1) == 0);
        }
    }
}

} // verus!
