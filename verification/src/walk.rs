//! Walks and paths of a graph, and what it means to be a subgraph.

use vstd::prelude::*;
use crate::graph::{
    adjacent, detached, lemma_detached_count, lemma_without_edge_count, without_edge, Adjacency,
};

verus! {

/// A non-empty sequence of vertices of `g` in which each one is a neighbour
/// of the one before it. A walk of `n` vertices has `n - 1` edges.
pub open spec fn is_walk(g: Adjacency, p: Seq<usize>) -> bool {
    &&& p.len() > 0
    &&& forall|i: int| 0 <= i < p.len() ==> #[trigger] p[i] < g.len()
    &&& forall|i: int| 0 <= i < p.len() - 1 ==> adjacent(g, #[trigger] p[i], p[i + 1])
}

/// `p` starts at `s` and ends at `t`.
pub open spec fn joins(p: Seq<usize>, s: usize, t: usize) -> bool {
    p.len() > 0 && p.first() == s && p.last() == t
}

/// `p` is a path of `g` from `s` to `t`: a walk that visits no vertex twice.
pub open spec fn is_path(g: Adjacency, p: Seq<usize>, s: usize, t: usize) -> bool {
    &&& is_walk(g, p)
    &&& joins(p, s, t)
    &&& p.no_duplicates()
}

/// Some walk of `g` leads from `s` to `t`.
pub open spec fn reachable(g: Adjacency, s: usize, t: usize) -> bool {
    exists|p: Seq<usize>| is_walk(g, p) && joins(p, s, t)
}

/// Some path of `g` leads from `s` to `t` over exactly `n` edges.
pub open spec fn has_path(g: Adjacency, s: usize, t: usize, n: int) -> bool {
    exists|p: Seq<usize>| #[trigger] is_path(g, p, s, t) && p.len() == n + 1
}

/// No walk of `g` from `s` to `t` has fewer than `n` edges.
pub open spec fn no_shorter_walk(g: Adjacency, s: usize, t: usize, n: int) -> bool {
    forall|q: Seq<usize>| #[trigger] is_walk(g, q) && joins(q, s, t) ==> n <= q.len() - 1
}

/// Every edge of `h` is an edge of `g`.
pub open spec fn subgraph(h: Adjacency, g: Adjacency) -> bool {
    &&& h.len() == g.len()
    &&& forall|u: usize, v: usize| #[trigger] adjacent(h, u, v) ==> adjacent(g, u, v)
}

/// `v` has no neighbour in `g`.
pub open spec fn isolated(g: Adjacency, v: usize) -> bool {
    forall|w: usize| !#[trigger] adjacent(g, v, w)
}

/// A subgraph of a subgraph is a subgraph.
pub proof fn lemma_subgraph_transitive(a: Adjacency, b: Adjacency, c: Adjacency)
    requires
        subgraph(a, b),
        subgraph(b, c),
    ensures
        subgraph(a, c),
{
    assert forall|u: usize, v: usize| #[trigger] adjacent(a, u, v) implies adjacent(c, u, v) by {
        assert(adjacent(b, u, v));
    }
}

/// Detaching a vertex leaves a subgraph in which that vertex is isolated,
/// as is every vertex that was isolated before.
pub proof fn lemma_detached_subgraph(g: Adjacency, v: usize)
    requires
        v < g.len(),
    ensures
        subgraph(detached(g, v), g),
        isolated(detached(g, v), v),
        forall|r: usize| isolated(g, r) ==> isolated(detached(g, v), r),
{
    let h = detached(g, v);
    assert forall|u: usize, w: usize| #[trigger] adjacent(h, u, w) implies adjacent(g, u, w) by {
        lemma_detached_count(g, v, u, w);
    }
    assert forall|w: usize| !#[trigger] adjacent(h, v, w) by {
        lemma_detached_count(g, v, v, w);
    }
    assert forall|r: usize| isolated(g, r) implies isolated(h, r) by {
        assert forall|w: usize| !#[trigger] adjacent(h, r, w) by {
            if adjacent(h, r, w) {
                assert(adjacent(g, r, w));
            }
        }
    }
}

/// Removing the edges between two vertices leaves a subgraph.
pub proof fn lemma_without_edge_subgraph(g: Adjacency, a: usize, b: usize)
    requires
        a < g.len(),
        b < g.len(),
    ensures
        subgraph(without_edge(g, a, b), g),
{
    let h = without_edge(g, a, b);
    assert(h.len() == g.len());
    assert forall|u: usize, w: usize| #[trigger] adjacent(h, u, w) implies adjacent(g, u, w) by {
        lemma_without_edge_count(g, a, b, u, w);
    }
}

/// A walk of a subgraph is a walk of the graph.
pub proof fn lemma_walk_in_subgraph(h: Adjacency, g: Adjacency, p: Seq<usize>)
    requires
        subgraph(h, g),
        is_walk(h, p),
    ensures
        is_walk(g, p),
{
    assert forall|i: int| 0 <= i < p.len() - 1 implies adjacent(g, #[trigger] p[i], p[i + 1]) by {
        assert(adjacent(h, p[i], p[i + 1]));
    }
}

/// Distinct values below `n` are at most `n` in number.
pub proof fn lemma_distinct_bounded(s: Seq<usize>, n: nat)
    requires
        s.no_duplicates(),
        forall|i: int| 0 <= i < s.len() ==> s[i] < n,
    ensures
        s.len() <= n,
    decreases n,
{
    if s.len() == 0 {
    } else if n == 0 {
        assert(s[0] < n);
    } else {
        let top = (n - 1) as usize;
        if exists|k: int| 0 <= k < s.len() && s[k] == top {
            let k = choose|k: int| 0 <= k < s.len() && s[k] == top;
            let rest = s.remove(k);
            assert forall|i: int| 0 <= i < rest.len() implies rest[i] < n - 1 by {
                if i < k {
                    assert(rest[i] == s[i]);
                } else {
                    assert(rest[i] == s[i + 1]);
                }
            }
            assert(rest.no_duplicates()) by {
                assert forall|i: int, j: int|
                    0 <= i < rest.len() && 0 <= j < rest.len() && i != j implies rest[i]
                    != rest[j] by {
                    let a = if i < k { i } else { i + 1 };
                    let b = if j < k { j } else { j + 1 };
                    assert(rest[i] == s[a] && rest[j] == s[b]);
                }
            }
            lemma_distinct_bounded(rest, (n - 1) as nat);
        } else {
            assert forall|i: int| 0 <= i < s.len() implies s[i] < n - 1 by {
                assert(s[i] < n);
            }
            lemma_distinct_bounded(s, (n - 1) as nat);
        }
    }
}

} // verus!
