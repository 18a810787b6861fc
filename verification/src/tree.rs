//! The assembly of a tree through a sequence of marked vertices.

use vstd::prelude::*;
use vstd::seq_lib::*;
use crate::fixed::fixed_length_bfs;
use crate::graph::{
    adjacent, detached, lemma_detached_count, lemma_restore_then_detach, lemma_same_counts,
    lemma_with_edges_count, occurrences, well_formed, with_edges,
    Adjacency, Graph,
};
use crate::path::shortest_path;
use crate::walk::{
    has_path, is_path, is_walk, isolated, joins, lemma_detached_subgraph,
    lemma_subgraph_transitive, lemma_walk_in_subgraph, no_shorter_walk, reachable, subgraph,
};
use crate::yen::{all_detached, alternative_paths};

verus! {

/// How the paths of a tree are sought.
#[derive(Clone, Copy, Debug, PartialEq, Eq, Structural)]
pub enum SearchStrategy {
    /// A shortest path; the wanted length is ignored.
    ShortestPath,
    /// A path of exactly the wanted length, sought from both ends.
    FixedLength,
    /// A path of exactly the wanted length, sought among the alternatives
    /// to the shortest path.
    AlternativePaths,
}

/// Why no tree could be built.
#[derive(Clone, Copy, Debug, PartialEq, Eq, Structural)]
pub enum Fatal {
    /// No vertex of the tree could be joined to the marked vertex at this
    /// position of the marked sequence.
    UnattachableVertex(usize),
}

/// What a search with the given strategy may answer on the graph `g`.
pub open spec fn search_outcome(
    g: Adjacency,
    start: usize,
    end: usize,
    length: usize,
    strategy: SearchStrategy,
    result: Option<Seq<usize>>,
) -> bool {
    match result {
        Some(path) => is_path(g, path, start, end) && match strategy {
            SearchStrategy::ShortestPath => no_shorter_walk(g, start, end, path.len() - 1),
            _ => path.len() == length + 1,
        },
        None => match strategy {
            SearchStrategy::ShortestPath => !reachable(g, start, end),
            _ => !has_path(g, start, end, length as int),
        },
    }
}

/// The view of an optional path.
pub open spec fn path_view(path: Option<Vec<usize>>) -> Option<Seq<usize>> {
    match path {
        Some(p) => Some(p@),
        None => None,
    }
}

/// Seeks a path from `start` to `end` in the way that `strategy` names.
/// The graph is the same afterwards.
pub fn search(
    graph: &mut Graph,
    start: usize,
    end: usize,
    length: usize,
    strategy: SearchStrategy,
) -> (result: Option<Vec<usize>>)
    requires
        old(graph).wf(),
        start < old(graph).size,
        end < old(graph).size,
        !(strategy is ShortestPath) ==> length < old(graph).size,
    ensures
        final(graph).wf(),
        final(graph).size == old(graph).size,
        final(graph)@ == old(graph)@,
        search_outcome(old(graph)@, start, end, length, strategy, path_view(result)),
{
    match strategy {
        SearchStrategy::ShortestPath => shortest_path(graph, start, end),
        SearchStrategy::FixedLength => fixed_length_bfs(graph, start, end, length),
        SearchStrategy::AlternativePaths => alternative_paths(graph, start, end, length),
    }
}

/// Whether `vertex` is an entry of `list`.
pub fn contains(list: &Vec<usize>, vertex: usize) -> (found: bool)
    ensures
        found == list@.contains(vertex),
{
    let mut i: usize = 0;
    while i < list.len()
        invariant
            i <= list@.len(),
            forall|k: int| 0 <= k < i ==> list@[k] != vertex,
        decreases list@.len() - i,
    {
        if list[i] == vertex {
            return true;
        }
        i += 1;
    }
    false
}

/// The vertex at position `k` is a neighbour of one that comes before it.
pub open spec fn has_parent(g: Adjacency, tree: Seq<usize>, k: int) -> bool {
    exists|m: int| 0 <= m < k && adjacent(g, #[trigger] tree[m], tree[k])
}

/// The vertices are distinct vertices of `g`, and each but the first is a
/// neighbour of one that comes before it: in this order they span a tree.
pub open spec fn is_tree_order(g: Adjacency, tree: Seq<usize>) -> bool {
    &&& tree.no_duplicates()
    &&& forall|k: int| 0 <= k < tree.len() ==> #[trigger] tree[k] < g.len()
    &&& forall|k: int| 1 <= k < tree.len() ==> #[trigger] has_parent(g, tree, k)
}

/// A graph in which `v` is isolated stays the same when `v` is detached.
pub proof fn lemma_detached_isolated(g: Adjacency, v: usize)
    requires
        well_formed(g),
        v < g.len(),
        isolated(g, v),
    ensures
        detached(g, v) == g,
{
    assert forall|u: usize, w: usize| u < g.len() implies detached(g, v)[u as int].count(w)
        == g[u as int].count(w) by {
        lemma_detached_count(g, v, u, w);
        if u == v {
            assert(!adjacent(g, v, w));
        } else if w == v {
            assert(!adjacent(g, v, u));
            assert(g[u as int].count(v) == g[v as int].count(u));
        }
    }
    lemma_same_counts(detached(g, v), g);
}

/// Giving an isolated vertex back neighbours that it had in `g` leaves a
/// subgraph of `g`.
pub proof fn lemma_probe_subgraph(g: Adjacency, h: Adjacency, origin: usize, ns: Seq<usize>)
    requires
        well_formed(g),
        subgraph(h, g),
        origin < g.len(),
        forall|j: int| 0 <= j < ns.len() ==> #[trigger] ns[j] < g.len() && adjacent(g, origin, ns[j]),
    ensures
        subgraph(with_edges(h, origin, ns), g),
{
    let p = with_edges(h, origin, ns);
    lemma_with_edges_count(h, origin, ns, origin, origin);
    assert forall|u: usize, w: usize| #[trigger] adjacent(p, u, w) implies adjacent(g, u, w) by {
        lemma_with_edges_count(h, origin, ns, u, w);
        if h[u as int].count(w) > 0 {
            assert(adjacent(h, u, w));
        } else if u == origin && occurrences(ns, w) > 0 {
            to_multiset_contains(ns, w);
            let j = choose|j: int| 0 <= j < ns.len() && ns[j] == w;
            assert(adjacent(g, origin, ns[j]));
        } else {
            assert(w == origin && occurrences(ns, u) > 0);
            to_multiset_contains(ns, u);
            let j = choose|j: int| 0 <= j < ns.len() && ns[j] == u;
            assert(adjacent(g, origin, ns[j]));
            assert(g[origin as int].count(u) == g[u as int].count(origin));
        }
    }
}

/// When an isolated vertex is given neighbours, the other isolated
/// vertices get at most that vertex as a neighbour.
pub proof fn lemma_probe_neighbor(h: Adjacency, origin: usize, ns: Seq<usize>, t: usize, w: usize)
    requires
        origin < h.len(),
        forall|j: int| 0 <= j < ns.len() ==> #[trigger] ns[j] < h.len(),
        isolated(h, t),
        t < h.len(),
        t != origin,
        adjacent(with_edges(h, origin, ns), t, w),
    ensures
        w == origin,
{
    lemma_with_edges_count(h, origin, ns, t, w);
    assert(!adjacent(h, t, w));
}

/// A path found while `origin` has its neighbours back meets the consumed
/// vertices at `origin` only, unless it ends at one.
pub proof fn lemma_probe_avoids(
    h: Adjacency,
    origin: usize,
    ns: Seq<usize>,
    tree: Seq<usize>,
    path: Seq<usize>,
    target: usize,
    j: int,
)
    requires
        origin < h.len(),
        forall|j: int| 0 <= j < ns.len() ==> #[trigger] ns[j] < h.len(),
        forall|k: int| 0 <= k < tree.len() ==> isolated(h, #[trigger] tree[k]) && tree[k] < h.len(),
        is_path(with_edges(h, origin, ns), path, origin, target),
        !tree.contains(target),
        1 <= j < path.len(),
    ensures
        !tree.contains(path[j]),
{
    if tree.contains(path[j]) {
        let k = choose|k: int| 0 <= k < tree.len() && tree[k] == path[j];
        assert(isolated(h, tree[k]));
        assert(path[j] != path[0]);
        if j < path.len() - 1 {
            assert(adjacent(with_edges(h, origin, ns), path[j], path[j + 1]));
            lemma_probe_neighbor(h, origin, ns, path[j], path[j + 1]);
            assert(path[j + 1] == path[0]);
        }
    }
}

/// The path is what the search found from the vertex at position `k` of
/// the tree, given back its own neighbours, after it had found none from
/// the vertices before that position.
pub open spec fn attached_at(
    builder: TreeBuilder,
    g: Adjacency,
    target: usize,
    length: usize,
    strategy: SearchStrategy,
    path: Seq<usize>,
    k: int,
) -> bool {
    &&& 0 <= k < builder.vertices@.len()
    &&& path.len() > 0
    &&& path[0] == builder.vertices@[k]
    &&& search_outcome(
        with_edges(g, builder.vertices@[k], builder.detached@[k]@),
        builder.vertices@[k],
        target,
        length,
        strategy,
        Some(path),
    )
    &&& forall|i: int|
        0 <= i < k ==> search_outcome(
            with_edges(g, #[trigger] builder.vertices@[i], builder.detached@[i]@),
            builder.vertices@[i],
            target,
            length,
            strategy,
            None,
        )
}

/// A tree under construction: the vertices it has consumed, in the order
/// of their discovery, and for each the neighbours it had when it was
/// consumed.
pub struct TreeBuilder {
    pub vertices: Vec<usize>,
    pub detached: Vec<Vec<usize>>,
    pub whole: Ghost<Adjacency>,
}

impl TreeBuilder {
    /// The builder's invariant against the graph it works on: the graph is
    /// what is left of the whole after the consumed vertices have lost
    /// their edges.
    pub open spec fn wf(&self, graph: &Graph) -> bool {
        &&& graph.wf()
        &&& subgraph(graph@, self.whole@)
        &&& well_formed(self.whole@)
        &&& self.vertices@.len() == self.detached@.len()
        &&& self.vertices@.len() > 0
        &&& is_tree_order(self.whole@, self.vertices@)
        &&& forall|k: int| 0 <= k < self.vertices@.len() ==> isolated(graph@, #[trigger] self.vertices@[k])
        &&& forall|k: int, j: int|
            0 <= k < self.detached@.len() && 0 <= j < self.detached@[k]@.len() ==> {
                &&& #[trigger] self.detached@[k]@[j] < graph.size
                &&& self.detached@[k]@[j] != self.vertices@[k]
                &&& adjacent(self.whole@, self.vertices@[k], self.detached@[k]@[j])
            }
        &&& forall|u: usize, w: usize|
            u < graph.size && !self.vertices@.contains(u) && !self.vertices@.contains(w)
                ==> #[trigger] graph@[u as int].count(w) == self.whole@[u as int].count(w)
    }

    /// Consumes the vertices of `path` after its first, which is in the
    /// tree already: each loses its edges and joins the tree.
    pub fn extend_along(&mut self, graph: &mut Graph, path: &Vec<usize>)
        requires
            old(self).wf(old(graph)),
            path@.len() > 0,
            old(self).vertices@.contains(path@[0]),
            path@.no_duplicates(),
            is_walk(old(self).whole@, path@),
            forall|j: int| 1 <= j < path@.len() ==> !old(self).vertices@.contains(#[trigger] path@[j]),
        ensures
            final(self).wf(final(graph)),
            final(self).whole == old(self).whole,
            final(graph).size == old(graph).size,
            final(self).vertices@ == old(self).vertices@ + path@.subrange(1, path@.len() as int),
            grown_along(*old(self), old(graph)@, *final(self), final(graph)@, path@),
    {
        let mut j: usize = 1;
        let ghost start = graph@;
        let ghost n = self.vertices@.len() as int;
        proof {
            assert(path@.subrange(1, 1) =~= Seq::<usize>::empty());
            assert(self.vertices@ =~= old(self).vertices@ + path@.subrange(1, 1));
        }
        while j < path.len()
            invariant
                start == old(graph)@,
                n == old(self).vertices@.len(),
                graph@ == all_detached(start, path@.subrange(1, j as int)),
                forall|k: int| 0 <= k < n ==> #[trigger] self.detached@[k] == old(self).detached@[k],
                forall|i: int|
                    1 <= i < j ==> (#[trigger] self.detached@[n + i - 1])@.to_multiset()
                        == all_detached(start, path@.subrange(1, i))[path@[i] as int],
                1 <= j <= path@.len(),
                self.wf(graph),
                self.whole == old(self).whole,
                graph.size == old(graph).size,
                self.vertices@ == old(self).vertices@ + path@.subrange(1, j as int),
                old(self).vertices@.contains(path@[0]),
                path@.no_duplicates(),
                is_walk(self.whole@, path@),
                forall|j: int|
                    1 <= j < path@.len() ==> !old(self).vertices@.contains(#[trigger] path@[j]),
            decreases path@.len() - j,
        {
            let vertex = path[j];
            let ghost before = graph@;
            let ghost tree = self.vertices@;
            let ghost logs = self.detached@;
            let ghost g0 = self.whole@;
            proof {
                assert(path@[j as int] < g0.len());
            }
            let neighbors = graph.pop_edges(vertex);
            self.vertices.push(vertex);
            self.detached.push(neighbors);
            proof {
                let grown = self.vertices@;
                lemma_detached_subgraph(before, vertex);
                lemma_subgraph_transitive(graph@, before, g0);
                // the new vertex is no vertex of the tree
                assert forall|k: int| 0 <= k < tree.len() implies tree[k] != vertex by {
                    if k < old(self).vertices@.len() {
                        assert(tree[k] == old(self).vertices@[k]);
                        assert(old(self).vertices@.contains(tree[k]));
                    } else {
                        let m = k - old(self).vertices@.len() + 1;
                        assert(tree[k] == path@[m]);
                    }
                }
                assert(grown.no_duplicates()) by {
                    assert forall|a: int, b: int|
                        0 <= a < grown.len() && 0 <= b < grown.len() && a != b implies grown[a]
                        != grown[b] by {
                        if a < tree.len() && b < tree.len() {
                            assert(tree[a] != tree[b]);
                        }
                    }
                }
                // it is a neighbour of the vertex before it on the path
                let parent = path@[j - 1];
                assert(adjacent(g0, path@[j - 1], path@[j - 1 + 1]));
                assert(tree.contains(parent)) by {
                    if j == 1 {
                        let m = choose|m: int|
                            0 <= m < old(self).vertices@.len() && old(self).vertices@[m]
                                == path@[0];
                        assert(tree[m] == parent);
                    } else {
                        assert(tree[old(self).vertices@.len() + j - 2] == parent);
                    }
                }
                let m = choose|m: int| 0 <= m < tree.len() && tree[m] == parent;
                assert forall|k: int| 1 <= k < grown.len() implies #[trigger] has_parent(
                    g0,
                    grown,
                    k,
                ) by {
                    if k < tree.len() {
                        assert(has_parent(g0, tree, k));
                        let m2 = choose|m2: int|
                            0 <= m2 < k && adjacent(g0, #[trigger] tree[m2], tree[k]);
                        assert(adjacent(g0, grown[m2], grown[k]));
                    } else {
                        assert(adjacent(g0, grown[m], grown[k]));
                    }
                }
                assert forall|k: int| 0 <= k < grown.len() implies #[trigger] grown[k]
                    < g0.len() by {
                    if k < tree.len() {
                        assert(tree[k] < g0.len());
                    }
                }
                assert forall|k: int| 0 <= k < grown.len() implies isolated(
                    graph@,
                    #[trigger] grown[k],
                ) by {
                    if k < tree.len() {
                        assert(isolated(before, tree[k]));
                    }
                }
                assert forall|k: int, i: int|
                    0 <= k < self.detached@.len() && 0 <= i < self.detached@[k]@.len() implies {
                    &&& #[trigger] self.detached@[k]@[i] < graph.size
                    &&& self.detached@[k]@[i] != self.vertices@[k]
                    &&& adjacent(g0, self.vertices@[k], self.detached@[k]@[i])
                } by {
                    if k < logs.len() {
                        assert(self.detached@[k] == logs[k]);
                        assert(logs[k]@[i] < graph.size);
                    } else {
                        to_multiset_contains(neighbors@, neighbors@[i]);
                        assert(neighbors@.contains(neighbors@[i]));
                        assert(adjacent(before, vertex, neighbors@[i]));
                    }
                }
                assert forall|u: usize, w: usize|
                    u < graph.size && !grown.contains(u) && !grown.contains(w) implies #[trigger] graph@[u as int].count(
                    w,
                ) == g0[u as int].count(w) by {
                    assert(grown[tree.len() as int] == vertex);
                    lemma_detached_count(before, vertex, u, w);
                    if tree.contains(u) {
                        let a = choose|a: int| 0 <= a < tree.len() && tree[a] == u;
                        assert(grown[a] == u);
                    }
                    if tree.contains(w) {
                        let a = choose|a: int| 0 <= a < tree.len() && tree[a] == w;
                        assert(grown[a] == w);
                    }
                    assert(before[u as int].count(w) == g0[u as int].count(w));
                }
                assert(grown =~= old(self).vertices@ + path@.subrange(1, j + 1));
                let taken = path@.subrange(1, j + 1);
                assert(taken.drop_last() =~= path@.subrange(1, j as int));
                assert(taken.last() == vertex);
                assert forall|k: int| 0 <= k < n implies #[trigger] self.detached@[k] == old(
                    self,
                ).detached@[k] by {
                    assert(self.detached@[k] == logs[k]);
                }
                assert forall|i: int| 1 <= i < j + 1 implies (#[trigger] self.detached@[n + i
                    - 1])@.to_multiset() == all_detached(start, path@.subrange(1, i))[path@[i] as int] by {
                    if i < j {
                        assert(self.detached@[n + i - 1] == logs[n + i - 1]);
                    }
                }
            }
            j += 1;
        }
        proof {
            assert(path@.subrange(1, j as int) =~= path@.subrange(1, path@.len() as int));
        }
    }

    /// Begins a tree with a path from `first` to `last`, sought as
    /// `strategy` says, and consumes the vertices of that path.
    pub fn seed(
        graph: &mut Graph,
        first: usize,
        last: usize,
        length: usize,
        strategy: SearchStrategy,
    ) -> (result: Option<TreeBuilder>)
        requires
            old(graph).wf(),
            first < old(graph).size,
            last < old(graph).size,
            !(strategy is ShortestPath) ==> length < old(graph).size,
        ensures
            final(graph).size == old(graph).size,
            match result {
                Some(builder) => {
                    &&& builder.wf(final(graph))
                    &&& builder.whole@ == old(graph)@
                    &&& search_outcome(
                        old(graph)@,
                        first,
                        last,
                        length,
                        strategy,
                        Some(builder.vertices@),
                    )
                    &&& seeded(old(graph)@, first, last, length, strategy, builder, final(graph)@)
                },
                None => {
                    &&& final(graph).wf()
                    &&& final(graph)@ == old(graph)@
                    &&& search_outcome(old(graph)@, first, last, length, strategy, None)
                },
            },
    {
        let ghost g0 = graph@;
        let path = match search(graph, first, last, length, strategy) {
            None => {
                return None;
            },
            Some(path) => path,
        };
        let origin = path[0];
        assert(path@[0] < g0.len());
        let neighbors = graph.pop_edges(origin);
        let mut vertices: Vec<usize> = Vec::new();
        vertices.push(origin);
        let mut detached: Vec<Vec<usize>> = Vec::new();
        detached.push(neighbors);
        let mut builder = TreeBuilder { vertices, detached, whole: Ghost(g0) };
        proof {
            lemma_detached_subgraph(g0, origin);
            assert forall|k: int, i: int|
                0 <= k < builder.detached@.len() && 0 <= i < builder.detached@[k]@.len() implies {
                &&& #[trigger] builder.detached@[k]@[i] < graph.size
                &&& builder.detached@[k]@[i] != builder.vertices@[k]
                &&& adjacent(g0, builder.vertices@[k], builder.detached@[k]@[i])
            } by {
                to_multiset_contains(neighbors@, neighbors@[i]);
                assert(neighbors@.contains(neighbors@[i]));
            }
            assert forall|u: usize, w: usize|
                u < graph.size && !builder.vertices@.contains(u) && !builder.vertices@.contains(
                    w,
                ) implies #[trigger] graph@[u as int].count(w) == g0[u as int].count(w) by {
                assert(builder.vertices@[0] == origin);
                lemma_detached_count(g0, origin, u, w);
            }
            assert(builder.vertices@[0] == path@[0]);
            assert forall|j: int| 1 <= j < path@.len() implies !builder.vertices@.contains(
                #[trigger] path@[j],
            ) by {
                assert(path@[j] != path@[0]);
            }
        }
        let ghost begun = builder;
        builder.extend_along(graph, &path);
        proof {
            assert(builder.vertices@ =~= path@);
            assert(builder.detached@[0] == begun.detached@[0]);
            assert forall|j: int| 1 <= j < path@.len() implies (#[trigger] builder.detached@[j])@.to_multiset()
                == all_detached(crate::graph::detached(g0, first), path@.subrange(1, j))[path@[j] as int] by {
                assert(builder.detached@[1 + j - 1] == builder.detached@[j]);
            }
        }
        Some(builder)
    }

    /// Joins `target` to the tree: tries the vertices of the tree in the
    /// order of their discovery as the origin of a path to `target`, each
    /// with its own neighbours back for the time of the search, and
    /// consumes the first path found. Returns that path, origin first.
    pub fn attach(
        &mut self,
        graph: &mut Graph,
        target: usize,
        length: usize,
        strategy: SearchStrategy,
    ) -> (result: Option<Vec<usize>>)
        requires
            old(self).wf(old(graph)),
            target < old(graph).size,
            !old(self).vertices@.contains(target),
            !(strategy is ShortestPath) ==> length < old(graph).size,
        ensures
            final(self).wf(final(graph)),
            final(self).whole == old(self).whole,
            final(graph).size == old(graph).size,
            match result {
                Some(path) => {
                    &&& path@.len() > 1
                    &&& is_path(old(self).whole@, path@, path@[0], target)
                    &&& exists|k: int| #[trigger]
                        attached_at(*old(self), old(graph)@, target, length, strategy, path@, k)
                    &&& grown_along(*old(self), old(graph)@, *final(self), final(graph)@, path@)
                    &&& final(self).vertices@ == old(self).vertices@ + path@.subrange(
                        1,
                        path@.len() as int,
                    )
                },
                None => {
                    &&& final(self).vertices@ == old(self).vertices@
                    &&& final(self).detached@ == old(self).detached@
                    &&& final(graph)@ == old(graph)@
                    &&& forall|k: int|
                        0 <= k < old(self).vertices@.len() ==> search_outcome(
                            with_edges(
                                old(graph)@,
                                #[trigger] old(self).vertices@[k],
                                old(self).detached@[k]@,
                            ),
                            old(self).vertices@[k],
                            target,
                            length,
                            strategy,
                            None,
                        )
                },
            },
    {
        let ghost g0 = self.whole@;
        let ghost h = graph@;
        let count = self.vertices.len();
        let mut k: usize = 0;
        while k < count
            invariant
                k <= count,
                count == self.vertices@.len(),
                self.wf(graph),
                *self == *old(self),
                graph@ == h,
                h == old(graph)@,
                g0 == self.whole@,
                graph.size == old(graph).size,
                target < graph.size,
                !self.vertices@.contains(target),
                !(strategy is ShortestPath) ==> length < graph.size,
                forall|i: int|
                    0 <= i < k ==> search_outcome(
                        with_edges(h, #[trigger] self.vertices@[i], self.detached@[i]@),
                        self.vertices@[i],
                        target,
                        length,
                        strategy,
                        None,
                    ),
            decreases count - k,
        {
            let origin = self.vertices[k];
            let ghost ns = self.detached@[k as int]@;
            proof {
                assert(self.vertices@[k as int] < g0.len());
                assert forall|j: int| 0 <= j < ns.len() implies ns[j] < graph.size && ns[j]
                    != origin by {
                    assert(self.detached@[k as int]@[j] < graph.size);
                }
            }
            graph.add_edges(origin, &self.detached[k]);
            let ghost probe = graph@;
            let found = search(graph, origin, target, length, strategy);
            let _ = graph.pop_edges(origin);
            proof {
                assert(isolated(h, self.vertices@[k as int]));
                lemma_restore_then_detach(h, origin, ns);
                lemma_detached_isolated(h, origin);
                assert(graph@ == h);
            }
            if let Some(path) = found {
                proof {
                    assert forall|j: int| 0 <= j < ns.len() implies #[trigger] ns[j] < g0.len()
                        && adjacent(g0, origin, ns[j]) by {
                        assert(self.detached@[k as int]@[j] < graph.size);
                    }
                    lemma_probe_subgraph(g0, h, origin, ns);
                    lemma_walk_in_subgraph(probe, g0, path@);
                    assert forall|i: int| 0 <= i < self.vertices@.len() implies isolated(
                        h,
                        #[trigger] self.vertices@[i],
                    ) && self.vertices@[i] < h.len() by {
                        assert(self.vertices@[i] < g0.len());
                    }
                    assert forall|j: int| 1 <= j < path@.len() implies !self.vertices@.contains(
                        #[trigger] path@[j],
                    ) by {
                        lemma_probe_avoids(h, origin, ns, self.vertices@, path@, target, j);
                    }
                    assert(path@[0] == origin);
                    assert(path@.len() > 1) by {
                        if path@.len() == 1 {
                            assert(path@.last() == path@[0]);
                        }
                    }
                }
                proof {
                    assert(attached_at(*old(self), h, target, length, strategy, path@, k as int));
                }
                self.extend_along(graph, &path);
                return Some(path);
            }
            k += 1;
        }
        None
    }
}

/// What `build_tree` asks of the marked sequence: two entries at least,
/// every vertex a vertex of the graph and, where the strategy looks at the
/// lengths, every length but the first, which is not used, below the
/// number of vertices.
pub open spec fn marked_valid(size: usize, marked: Seq<(usize, usize)>, strategy: SearchStrategy) -> bool {
    &&& marked.len() >= 2
    &&& forall|i: int| 0 <= i < marked.len() ==> (#[trigger] marked[i]).0 < size
    &&& !(strategy is ShortestPath) ==> forall|i: int|
        1 <= i < marked.len() ==> (#[trigger] marked[i]).1 < size
}

/// The first `n` vertices of `tree` are the path that joins the first
/// marked vertex to the last, as the strategy was to find it. Where every
/// marked vertex lies on that path, it is the whole tree.
pub open spec fn seed_of(
    g: Adjacency,
    marked: Seq<(usize, usize)>,
    strategy: SearchStrategy,
    tree: Seq<usize>,
    n: int,
) -> bool {
    &&& 1 <= n <= tree.len()
    &&& search_outcome(
        g,
        marked.first().0,
        marked.last().0,
        marked.last().1,
        strategy,
        Some(tree.subrange(0, n)),
    )
    &&& (forall|i: int|
        0 <= i < marked.len() ==> tree.subrange(0, n).contains((#[trigger] marked[i]).0)) ==> n
        == tree.len()
}

/// What holds of a tree that was built on the graph `g`, and of the graph
/// `after` the build.
pub open spec fn tree_built(
    g: Adjacency,
    after: Adjacency,
    marked: Seq<(usize, usize)>,
    strategy: SearchStrategy,
    tree: Seq<usize>,
) -> bool {
    &&& is_tree_order(g, tree)
    &&& forall|i: int| 0 <= i < marked.len() ==> tree.contains((#[trigger] marked[i]).0)
    &&& exists|n: int| #[trigger] seed_of(g, marked, strategy, tree, n)
    &&& exists|builders: Seq<TreeBuilder>, graphs: Seq<Adjacency>| #[trigger]
        built_by(g, after, marked, strategy, tree, builders, graphs)
    &&& subgraph(after, g)
    &&& forall|k: int| 0 <= k < tree.len() ==> isolated(after, #[trigger] tree[k])
    &&& forall|u: usize, w: usize|
        u < g.len() && !tree.contains(u) && !tree.contains(w) ==> #[trigger] after[u as int].count(
            w,
        ) == g[u as int].count(w)
}

/// The tree in progress `builder` cannot take up `target`: from none of
/// its vertices, given back its own neighbours, did the search find a path.
pub open spec fn stuck(
    builder: TreeBuilder,
    g: Adjacency,
    after: Graph,
    target: usize,
    length: usize,
    strategy: SearchStrategy,
) -> bool {
    &&& builder.wf(&after)
    &&& builder.whole@ == g
    &&& !builder.vertices@.contains(target)
    &&& forall|k: int|
        0 <= k < builder.vertices@.len() ==> search_outcome(
            with_edges(after@, #[trigger] builder.vertices@[k], builder.detached@[k]@),
            builder.vertices@[k],
            target,
            length,
            strategy,
            None,
        )
}

/// `after`, on the graph `h`, is what becomes of the tree in progress
/// `before`, on the graph `g`, when the vertices of `path` after its first
/// are consumed one by one: each is detached, joins the tree, and has the
/// neighbours recorded that it had when its turn came.
pub open spec fn grown_along(
    before: TreeBuilder,
    g: Adjacency,
    after: TreeBuilder,
    h: Adjacency,
    path: Seq<usize>,
) -> bool {
    let n = before.vertices@.len() as int;
    &&& path.len() > 0
    &&& after.whole == before.whole
    &&& after.vertices@ == before.vertices@ + path.subrange(1, path.len() as int)
    &&& after.detached@.len() == after.vertices@.len()
    &&& h == all_detached(g, path.subrange(1, path.len() as int))
    &&& forall|k: int| 0 <= k < n ==> #[trigger] after.detached@[k] == before.detached@[k]
    &&& forall|j: int|
        1 <= j < path.len() ==> (#[trigger] after.detached@[n + j - 1])@.to_multiset()
            == all_detached(g, path.subrange(1, j))[path[j] as int]
}

/// `builder`, on the graph `h`, is the tree that begins on the graph `g`
/// with a path from `first` to `last`: the path is what the search found,
/// and its vertices are consumed one by one from the first on.
pub open spec fn seeded(
    g: Adjacency,
    first: usize,
    last: usize,
    length: usize,
    strategy: SearchStrategy,
    builder: TreeBuilder,
    h: Adjacency,
) -> bool {
    let tree = builder.vertices@;
    &&& builder.whole@ == g
    &&& search_outcome(g, first, last, length, strategy, Some(tree))
    &&& builder.detached@.len() == tree.len()
    &&& builder.detached@[0]@.to_multiset() == g[first as int]
    &&& h == all_detached(detached(g, first), tree.subrange(1, tree.len() as int))
    &&& forall|j: int|
        1 <= j < tree.len() ==> (#[trigger] builder.detached@[j])@.to_multiset() == all_detached(
            detached(g, first),
            tree.subrange(1, j),
        )[tree[j] as int]
}

/// What one marked vertex makes of a tree in progress: nothing where the
/// tree holds the vertex already, and else the growth along a path that
/// the search found from the first vertex of the tree from which it found
/// one.
pub open spec fn attach_step(
    before: TreeBuilder,
    g: Adjacency,
    after: TreeBuilder,
    h: Adjacency,
    target: usize,
    length: usize,
    strategy: SearchStrategy,
) -> bool {
    if before.vertices@.contains(target) {
        after == before && h == g
    } else {
        exists|path: Seq<usize>, k: int| #[trigger]
            attached_at(before, g, target, length, strategy, path, k) && grown_along(
                before,
                g,
                after,
                h,
                path,
            )
    }
}

/// The step that the marked vertex at position `i` makes, from the state
/// before it to the state after it.
pub open spec fn step_at(
    marked: Seq<(usize, usize)>,
    strategy: SearchStrategy,
    builders: Seq<TreeBuilder>,
    graphs: Seq<Adjacency>,
    i: int,
) -> bool {
    attach_step(
        builders[i - 1],
        graphs[i - 1],
        builders[i],
        graphs[i],
        marked[i].0,
        marked[i].1,
        strategy,
    )
}

/// The course of a build on the graph `g`: the tree and the graph after
/// the first path, and after each marked vertex that follows the first,
/// in order, as far as the build has come.
pub open spec fn build_trace(
    g: Adjacency,
    marked: Seq<(usize, usize)>,
    strategy: SearchStrategy,
    builders: Seq<TreeBuilder>,
    graphs: Seq<Adjacency>,
) -> bool {
    &&& builders.len() == graphs.len()
    &&& 1 <= builders.len() <= marked.len() - 1
    &&& seeded(
        g,
        marked.first().0,
        marked.last().0,
        marked.last().1,
        strategy,
        builders[0],
        graphs[0],
    )
    &&& forall|i: int|
        1 <= i < builders.len() ==> #[trigger] step_at(marked, strategy, builders, graphs, i)
}

/// The build has come through all marked vertices, and `tree` and `after`
/// are what it ended with.
pub open spec fn built_by(
    g: Adjacency,
    after: Adjacency,
    marked: Seq<(usize, usize)>,
    strategy: SearchStrategy,
    tree: Seq<usize>,
    builders: Seq<TreeBuilder>,
    graphs: Seq<Adjacency>,
) -> bool {
    &&& build_trace(g, marked, strategy, builders, graphs)
    &&& builders.len() == marked.len() - 1
    &&& builders.last().vertices@ == tree
    &&& graphs.last() == after
}

/// The build has come as far as `position` and is stuck there.
pub open spec fn halted_by(
    g: Adjacency,
    after: Graph,
    marked: Seq<(usize, usize)>,
    strategy: SearchStrategy,
    position: usize,
    builders: Seq<TreeBuilder>,
    graphs: Seq<Adjacency>,
) -> bool {
    &&& build_trace(g, marked, strategy, builders, graphs)
    &&& builders.len() == position
    &&& graphs.last() == after@
    &&& stuck(
        builders.last(),
        g,
        after,
        marked[position as int].0,
        marked[position as int].1,
        strategy,
    )
}

/// What holds when the build fails at `position` of the marked sequence.
/// At the last position the search for the first path found none, and the
/// graph is as it was. At another, the build came that far, and the tree
/// it had then could not take up the marked vertex.
pub open spec fn tree_failed(
    g: Adjacency,
    after: Graph,
    marked: Seq<(usize, usize)>,
    strategy: SearchStrategy,
    position: usize,
) -> bool {
    &&& 1 <= position < marked.len()
    &&& position == marked.len() - 1 ==> after@ == g && search_outcome(
        g,
        marked.first().0,
        marked.last().0,
        marked.last().1,
        strategy,
        None,
    )
    &&& position < marked.len() - 1 ==> exists|builders: Seq<TreeBuilder>, graphs: Seq<Adjacency>| #[trigger]
        halted_by(g, after, marked, strategy, position, builders, graphs)
}

/// A tree built through two marked vertices only is a path of the graph as
/// it was before the build: no vertex comes twice, and each is a
/// neighbour of the one before it.
pub proof fn lemma_tree_of_two_is_path(
    g: Adjacency,
    after: Adjacency,
    marked: Seq<(usize, usize)>,
    strategy: SearchStrategy,
    tree: Seq<usize>,
)
    requires
        marked.len() == 2,
        tree_built(g, after, marked, strategy, tree),
    ensures
        is_path(g, tree, marked[0].0, marked[1].0),
        tree.no_duplicates(),
        forall|k: int| 0 <= k < tree.len() - 1 ==> adjacent(g, #[trigger] tree[k], tree[k + 1]),
{
    let n = choose|n: int| #[trigger] seed_of(g, marked, strategy, tree, n);
    let seed = tree.subrange(0, n);
    assert(is_path(g, seed, marked[0].0, marked[1].0));
    assert forall|i: int| 0 <= i < marked.len() implies seed.contains((#[trigger] marked[i]).0) by {
        if i == 0 {
            assert(seed[0] == marked[0].0);
        } else {
            assert(seed[n - 1] == marked[1].0);
        }
    }
    assert(seed =~= tree);
}

/// In every tree that was built, no vertex comes twice, every marked
/// vertex comes, and each vertex but the first is a neighbour, in the
/// graph as it was before the build, of a vertex that comes before it.
pub proof fn lemma_tree_is_connected(
    g: Adjacency,
    after: Adjacency,
    marked: Seq<(usize, usize)>,
    strategy: SearchStrategy,
    tree: Seq<usize>,
    k: int,
) -> (m: int)
    requires
        tree_built(g, after, marked, strategy, tree),
        1 <= k < tree.len(),
    ensures
        0 <= m < k,
        adjacent(g, tree[m], tree[k]),
        tree[m] != tree[k],
{
    assert(has_parent(g, tree, k));
    let m = choose|m: int| 0 <= m < k && adjacent(g, #[trigger] tree[m], tree[k]);
    m
}

/// Builds a tree through the marked vertices. The first and the last of
/// them are joined by a path; each of the others that the tree does not
/// hold yet is then joined to it by a path from one of its vertices. A
/// marked vertex comes with the length that the path to it shall have; the
/// first path takes the length of the last marked vertex. Every vertex
/// that enters the tree loses its edges, so that no later path uses it.
///
/// Returns the vertices of the tree in the order of their discovery, or
/// the position of the marked vertex that could not be joined.
pub fn build_tree(graph: &mut Graph, marked: &Vec<(usize, usize)>, strategy: SearchStrategy) -> (result:
    Result<Vec<usize>, Fatal>)
    requires
        old(graph).wf(),
        marked_valid(old(graph).size, marked@, strategy),
    ensures
        final(graph).wf(),
        final(graph).size == old(graph).size,
        subgraph(final(graph)@, old(graph)@),
        match result {
            Ok(tree) => tree_built(old(graph)@, final(graph)@, marked@, strategy, tree@),
            Err(Fatal::UnattachableVertex(position)) => tree_failed(
                old(graph)@,
                *final(graph),
                marked@,
                strategy,
                position,
            ),
        },
{
    let ghost g = graph@;
    let count = marked.len();
    let first = marked[0].0;
    let (last, length) = marked[count - 1];
    let mut builder = match TreeBuilder::seed(graph, first, last, length, strategy) {
        None => {
            proof {
                assert(subgraph(graph@, g));
            }
            return Err(Fatal::UnattachableVertex(count - 1));
        },
        Some(builder) => builder,
    };
    let ghost seed = builder.vertices@;
    let ghost n = seed.len() as int;
    let ghost mut builders: Seq<TreeBuilder> = seq![builder];
    let ghost mut graphs: Seq<Adjacency> = seq![graph@];
    proof {
        assert(builder.vertices@.subrange(0, n) =~= seed);
        assert(seed[0] == first);
        assert(seed[n - 1] == last);
        assert(build_trace(g, marked@, strategy, builders, graphs));
    }
    let mut position: usize = 1;
    while position < count - 1
        invariant
            build_trace(g, marked@, strategy, builders, graphs),
            builders.len() == position,
            builders.last() == builder,
            graphs.last() == graph@,
            1 <= position <= count - 1,
            count == marked@.len(),
            marked_valid(graph.size, marked@, strategy),
            graph.size == old(graph).size,
            g == old(graph)@,
            builder.wf(graph),
            builder.whole@ == g,
            first == marked@.first().0,
            last == marked@.last().0,
            length == marked@.last().1,
            n == seed.len(),
            1 <= n <= builder.vertices@.len(),
            builder.vertices@.subrange(0, n) == seed,
            search_outcome(g, first, last, length, strategy, Some(seed)),
            builder.vertices@.len() > n ==> exists|i: int|
                0 <= i < marked@.len() && !seed.contains((#[trigger] marked@[i]).0),
            builder.vertices@.contains(last),
            forall|i: int| 0 <= i < position ==> builder.vertices@.contains((#[trigger] marked@[i]).0),
        decreases count - position,
    {
        let (vertex, wanted) = marked[position];
        let ghost known = builders;
        let ghost seen = graphs;
        let ghost halted = builder;
        let ghost before = *graph;
        if !contains(&builder.vertices, vertex) {
            let ghost tree = builder.vertices@;
            match builder.attach(graph, vertex, wanted, strategy) {
                None => {
                    proof {
                        assert(builder.vertices@ == halted.vertices@);
                        assert(builder.detached@ == halted.detached@);
                        assert(stuck(halted, g, *graph, vertex, wanted, strategy));
                        assert(halted_by(g, *graph, marked@, strategy, position, builders, graphs));
                    }
                    return Err(Fatal::UnattachableVertex(position));
                },
                Some(path) => {
                    proof {
                        let k = choose|k: int| #[trigger]
                            attached_at(halted, before@, vertex, wanted, strategy, path@, k);
                        assert(attached_at(halted, before@, vertex, wanted, strategy, path@, k)
                            && grown_along(halted, before@, builder, graph@, path@));
                        assert(attach_step(
                            halted,
                            before@,
                            builder,
                            graph@,
                            vertex,
                            wanted,
                            strategy,
                        ));
                    }
                    proof {
                        let grown = builder.vertices@;
                        assert(grown.subrange(0, n) =~= seed);
                        assert forall|v: usize| tree.contains(v) implies grown.contains(v) by {
                            let a = choose|a: int| 0 <= a < tree.len() && tree[a] == v;
                            assert(grown[a] == v);
                        }
                        assert(grown.contains(vertex)) by {
                            assert(grown[grown.len() - 1] == path@[path@.len() - 1]);
                        }
                        assert(!seed.contains(marked@[position as int].0)) by {
                            if seed.contains(vertex) {
                                let a = choose|a: int| 0 <= a < seed.len() && seed[a] == vertex;
                                assert(tree[a] == seed[a]);
                            }
                        }
                        assert forall|i: int| 0 <= i < position + 1 implies grown.contains(
                            (#[trigger] marked@[i]).0,
                        ) by {
                            if i < position {
                                assert(tree.contains(marked@[i].0));
                            }
                        }
                    }
                },
            }
        }
        proof {
            builders = known.push(builder);
            graphs = seen.push(graph@);
            assert(step_at(marked@, strategy, builders, graphs, position as int));
            assert forall|i: int| 1 <= i < builders.len() implies #[trigger] step_at(
                marked@,
                strategy,
                builders,
                graphs,
                i,
            ) by {
                if i < known.len() {
                    assert(step_at(marked@, strategy, known, seen, i));
                }
            }
        }
        position += 1;
    }
    proof {
        assert(built_by(g, graph@, marked@, strategy, builder.vertices@, builders, graphs));
    }
    proof {
        let tree = builder.vertices@;
        assert forall|i: int| 0 <= i < marked@.len() implies tree.contains((#[trigger] marked@[i]).0) by {
            if i == count - 1 {
            } else {
                assert(tree.contains(marked@[i].0));
            }
        }
        assert(seed_of(g, marked@, strategy, tree, n)) by {
            if forall|i: int|
                0 <= i < marked@.len() ==> tree.subrange(0, n).contains((#[trigger] marked@[i]).0) {
                if tree.len() > n {
                    let i = choose|i: int|
                        0 <= i < marked@.len() && !seed.contains((#[trigger] marked@[i]).0);
                    assert(tree.subrange(0, n).contains(marked@[i].0));
                }
            }
        }
        assert forall|k: int| 0 <= k < tree.len() implies #[trigger] tree[k] < g.len() by {}
    }
    Ok(builder.vertices)
}

} // verus!
