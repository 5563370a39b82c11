//! Counting lemmas behind the edge-count law: every counted quantity is a
//! small recursive sum, and the double sum over the adjacency relation is
//! rearranged term by term.

use vstd::prelude::*;

use crate::graph::Graph;
use crate::sorted::{lemma_push_contains, sorted_strict};

verus! {

/// 1 for true, 0 for false.
pub open spec fn bool_to_int(b: bool) -> int {
    if b {
        1
    } else {
        0
    }
}

/// How many values in [lo, hi) are members of `s`.
pub open spec fn mem_count(s: Seq<u16>, lo: int, hi: int) -> int
    decreases hi - lo,
{
    if hi <= lo {
        0
    } else {
        mem_count(s, lo, hi - 1) + bool_to_int(s.contains((hi - 1) as u16))
    }
}

/// Counting a range splits at any point inside it.
pub proof fn lemma_mem_count_split(s: Seq<u16>, lo: int, mid: int, hi: int)
    requires
        lo <= mid <= hi,
    ensures
        mem_count(s, lo, hi) == mem_count(s, lo, mid) + mem_count(s, mid, hi),
    decreases hi - mid,
{
    if mid < hi {
        lemma_mem_count_split(s, lo, mid, hi - 1);
    }
}

/// Pushing a fresh element raises the count by 1 exactly when the element
/// falls in the counted range.
pub proof fn lemma_mem_count_push(s: Seq<u16>, x: u16, lo: int, hi: int)
    requires
        !s.contains(x),
        0 <= lo,
        hi <= 0x10000,
    ensures
        mem_count(s.push(x), lo, hi) == mem_count(s, lo, hi) + bool_to_int(
            lo <= (x as int) && (x as int) < hi,
        ),
    decreases hi - lo,
{
    lemma_push_contains(s, x);
    if lo < hi {
        lemma_mem_count_push(s, x, lo, hi - 1);
    }
}

/// A strictly ascending sequence with entries below `bound` has exactly
/// `s.len()` members in [0, bound).
pub proof fn lemma_sorted_mem_count(s: Seq<u16>, bound: int)
    requires
        sorted_strict(s),
        forall|k: int| 0 <= k < s.len() ==> ((#[trigger] s[k]) as int) < bound,
        0 <= bound <= 0x10000,
    ensures
        mem_count(s, 0, bound) == s.len(),
    decreases s.len(),
{
    if s.len() == 0 {
        lemma_mem_count_empty(s, 0, bound);
    } else {
        let s0 = s.drop_last();
        let x = s.last();
        assert(s =~= s0.push(x));
        assert(!s0.contains(x)) by {
            if s0.contains(x) {
                let t = choose|t: int| 0 <= t < s0.len() && s0[t] == x;
                assert(s[t] == s[s.len() - 1]);
            }
        }
        lemma_sorted_mem_count(s0, bound);
        lemma_mem_count_push(s0, x, 0, bound);
        assert(s[s.len() - 1] == x);
    }
}

/// The empty sequence has no members anywhere.
pub proof fn lemma_mem_count_empty(s: Seq<u16>, lo: int, hi: int)
    requires
        s.len() == 0,
    ensures
        mem_count(s, lo, hi) == 0,
    decreases hi - lo,
{
    if lo < hi {
        lemma_mem_count_empty(s, lo, hi - 1);
    }
}

/// How many of the first `k` entries of `s` exceed `u`.
pub open spec fn gt_count(s: Seq<u16>, k: int, u: int) -> int
    decreases k,
{
    if k <= 0 {
        0
    } else {
        gt_count(s, k - 1, u) + bool_to_int((s[k - 1] as int) > u)
    }
}

/// `gt_count` over `k` entries only looks at those entries.
pub proof fn lemma_gt_count_prefix(s: Seq<u16>, t: Seq<u16>, k: int, u: int)
    requires
        k <= s.len(),
        k <= t.len(),
        forall|i: int| 0 <= i < k ==> s[i] == t[i],
    ensures
        gt_count(s, k, u) == gt_count(t, k, u),
    decreases k,
{
    if k > 0 {
        lemma_gt_count_prefix(s, t, k - 1, u);
    }
}

/// In a strictly ascending sequence with entries below `bound`, the entries
/// exceeding `u` are exactly the members of (u, bound).
pub proof fn lemma_gt_count_as_mem(s: Seq<u16>, u: int, bound: int)
    requires
        sorted_strict(s),
        forall|k: int| 0 <= k < s.len() ==> ((#[trigger] s[k]) as int) < bound,
        0 <= u < bound <= 0x10000,
    ensures
        gt_count(s, s.len() as int, u) == mem_count(s, u + 1, bound),
    decreases s.len(),
{
    if s.len() == 0 {
        lemma_mem_count_empty(s, u + 1, bound);
    } else {
        let s0 = s.drop_last();
        let x = s.last();
        assert(s =~= s0.push(x));
        assert(!s0.contains(x)) by {
            if s0.contains(x) {
                let t = choose|t: int| 0 <= t < s0.len() && s0[t] == x;
                assert(s[t] == s[s.len() - 1]);
            }
        }
        lemma_gt_count_as_mem(s0, u, bound);
        lemma_gt_count_prefix(s, s0, s.len() - 1, u);
        lemma_mem_count_push(s0, x, u + 1, bound);
        assert(s[s.len() - 1] == x);
        assert(gt_count(s, s.len() as int, u) == gt_count(s, s.len() - 1, u) + bool_to_int(
            (x as int) > u,
        ));
    }
}

/// The edge pairs a row contributes number exactly its entries above `u`.
pub proof fn lemma_row_pairs_len(g: Graph, u: int, k: int)
    ensures
        g.row_pairs_to(u, k).len() == gt_count(g.nbrs(u), k, u),
    decreases k,
{
    if k > 0 {
        lemma_row_pairs_len(g, u, k - 1);
    }
}

/// How many of the vertices below `m` have `u` in their neighbor set.
pub open spec fn col_count(g: Graph, u: int, m: int) -> int
    decreases m,
{
    if m <= 0 {
        0
    } else {
        col_count(g, u, m - 1) + bool_to_int(g.has_edge(m - 1, u))
    }
}

/// Sum over the first `k` vertices of their neighbors below themselves.
pub open spec fn low_sum(g: Graph, k: int) -> int
    decreases k,
{
    if k <= 0 {
        0
    } else {
        low_sum(g, k - 1) + mem_count(g.nbrs(k - 1), 0, k - 1)
    }
}

/// Sum over the first `k` vertices of their neighbors above themselves and
/// below `b`.
pub open spec fn high_sum(g: Graph, k: int, b: int) -> int
    decreases k,
{
    if k <= 0 {
        0
    } else {
        high_sum(g, k - 1, b) + mem_count(g.nbrs(k - 1), k, b)
    }
}

/// Sum over the first `k` vertices `u` of `col_count(u, u)`: the transposed
/// triangle sum.
pub open spec fn tri_sum(g: Graph, k: int) -> int
    decreases k,
{
    if k <= 0 {
        0
    } else {
        tri_sum(g, k - 1) + col_count(g, k - 1, k - 1)
    }
}

/// In a symmetric graph, counting `u`'s neighbors below `m` equals counting
/// the vertices below `m` that neighbor `u`.
pub proof fn lemma_row_col(g: Graph, u: int, m: int)
    requires
        g.wf(),
        g.symmetric(),
        0 <= u < g.vcount(),
        0 <= m <= g.vcount(),
    ensures
        mem_count(g.nbrs(u), 0, m) == col_count(g, u, m),
    decreases m,
{
    if m > 0 {
        lemma_row_col(g, u, m - 1);
        assert(g.nbrs(u).contains((m - 1) as u16) <==> g.has_edge(u, m - 1));
        assert(g.has_edge(u, m - 1) <==> g.has_edge(m - 1, u));
    }
}

/// In a symmetric graph the low sum equals the transposed triangle sum.
pub proof fn lemma_low_eq_tri(g: Graph, k: int)
    requires
        g.wf(),
        g.symmetric(),
        0 <= k <= g.vcount(),
    ensures
        low_sum(g, k) == tri_sum(g, k),
    decreases k,
{
    if k > 0 {
        lemma_low_eq_tri(g, k - 1);
        lemma_row_col(g, k - 1, k - 1);
    }
}

/// Widening the upper bound of the high sum by one vertex `b` adds exactly
/// the column count of `b`.
pub proof fn lemma_high_sum_ext(g: Graph, m: int, b: int)
    requires
        g.wf(),
        0 <= m <= b < g.vcount(),
    ensures
        high_sum(g, m, b + 1) == high_sum(g, m, b) + col_count(g, b, m),
    decreases m,
{
    if m > 0 {
        lemma_high_sum_ext(g, m - 1, b);
        assert(mem_count(g.nbrs(m - 1), m, b + 1) == mem_count(g.nbrs(m - 1), m, b)
            + bool_to_int(g.nbrs(m - 1).contains(b as u16)));
        assert(g.nbrs(m - 1).contains(b as u16) <==> g.has_edge(m - 1, b));
    }
}

/// The transposed triangle sum equals the high sum over the same triangle.
pub proof fn lemma_tri_eq_high(g: Graph, k: int)
    requires
        g.wf(),
        0 <= k <= g.vcount(),
    ensures
        tri_sum(g, k) == high_sum(g, k, k),
    decreases k,
{
    if k > 0 {
        lemma_tri_eq_high(g, k - 1);
        lemma_high_sum_ext(g, k - 1, k - 1);
        assert(mem_count(g.nbrs(k - 1), k, k) == 0);
        assert(high_sum(g, k, k) == high_sum(g, k - 1, k) + mem_count(g.nbrs(k - 1), k, k));
    }
}

/// Without self-loops, a vertex's degree splits into neighbors below it and
/// neighbors above it.
pub proof fn lemma_deg_split(g: Graph, u: int)
    requires
        g.wf(),
        g.no_self_loops(),
        0 <= u < g.vcount(),
    ensures
        g.deg(u) == mem_count(g.nbrs(u), 0, u) + mem_count(g.nbrs(u), u + 1, g.vcount()),
{
    let n = g.vcount();
    lemma_sorted_mem_count(g.nbrs(u), n);
    lemma_mem_count_split(g.nbrs(u), 0, u, n);
    lemma_mem_count_split(g.nbrs(u), u, u + 1, n);
    assert(mem_count(g.nbrs(u), u, u) == 0);
    assert(mem_count(g.nbrs(u), u, u + 1) == bool_to_int(g.nbrs(u).contains(u as u16)));
    assert(g.nbrs(u).contains(u as u16) <==> g.has_edge(u, u));
}

/// Summed over the first `k` vertices, the degrees are the low sum plus the
/// high sum.
pub proof fn lemma_deg_sum_split(g: Graph, k: int)
    requires
        g.wf(),
        g.no_self_loops(),
        0 <= k <= g.vcount(),
    ensures
        g.deg_sum_to(k) == low_sum(g, k) + high_sum(g, k, g.vcount()),
    decreases k,
{
    if k > 0 {
        lemma_deg_sum_split(g, k - 1);
        lemma_deg_split(g, k - 1);
    }
}

/// The edge enumeration over the first `k` vertices has one pair per
/// above-self neighbor: its length is the high sum.
pub proof fn lemma_edges_len(g: Graph, k: int)
    requires
        g.wf(),
        0 <= k <= g.vcount(),
    ensures
        g.edges_to(k).len() == high_sum(g, k, g.vcount()),
    decreases k,
{
    if k > 0 {
        lemma_edges_len(g, k - 1);
        lemma_row_pairs_len(g, k - 1, g.deg(k - 1));
        lemma_gt_count_as_mem(g.nbrs(k - 1), k - 1, g.vcount());
    }
}

} // verus!
