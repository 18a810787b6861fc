//! The search for a path with an exact number of edges among the
//! alternatives that branch off the shortest path.

use vstd::prelude::*;
use crate::graph::{
    adjacent, detached, lemma_detach_then_restore, lemma_remove_then_restore_edge, well_formed,
    with_edges, with_parallel_edges, without_edge, Adjacency, Graph,
};
use crate::backtrack::exhaustive_path;
use crate::path::shortest_path;
use crate::walk::{
    has_path, is_path, is_walk, isolated, joins, lemma_detached_subgraph,
    lemma_subgraph_transitive, lemma_walk_in_subgraph, lemma_without_edge_subgraph,
    no_shorter_walk, reachable, subgraph,
};

verus! {

/// The graph `g` after the recorded removals of edges have been undone,
/// the last of them first. An entry holds the two ends and the number of
/// edges that were removed between them.
pub open spec fn edges_restored(g: Adjacency, log: Seq<(usize, usize, usize)>) -> Adjacency
    decreases log.len(),
{
    if log.len() == 0 {
        g
    } else {
        edges_restored(
            with_parallel_edges(g, log.last().0, log.last().1, log.last().2 as nat),
            log.drop_last(),
        )
    }
}

/// The graph `g` after the vertices `vs` have been given back the
/// neighbours recorded for them in `log`, the last of them first.
pub open spec fn vertices_restored(g: Adjacency, vs: Seq<usize>, log: Seq<Vec<usize>>) -> Adjacency
    decreases vs.len(),
{
    if vs.len() == 0 || log.len() == 0 {
        g
    } else {
        vertices_restored(with_edges(g, vs.last(), log.last()@), vs.drop_last(), log.drop_last())
    }
}

/// The graph `g` after the vertices `vs` have been detached one by one.
pub open spec fn all_detached(g: Adjacency, vs: Seq<usize>) -> Adjacency
    decreases vs.len(),
{
    if vs.len() == 0 {
        g
    } else {
        detached(all_detached(g, vs.drop_last()), vs.last())
    }
}

/// Whether `path` goes on beyond position `i` and is the same as
/// `previous` up to that position.
pub open spec fn branches_at(path: Seq<usize>, previous: Seq<usize>, i: int) -> bool {
    path.len() > i + 1 && path.subrange(0, i + 1) == previous.subrange(0, i + 1)
}

/// The graph `g` without the edges by which the accepted paths that are
/// the same as `previous` up to position `i` go on from there.
pub open spec fn edges_excluded(
    g: Adjacency,
    accepted: Seq<Vec<usize>>,
    previous: Seq<usize>,
    i: int,
) -> Adjacency
    decreases accepted.len(),
{
    if accepted.len() == 0 {
        g
    } else {
        let h = edges_excluded(g, accepted.drop_last(), previous, i);
        let path = accepted.last()@;
        if branches_at(path, previous, i) {
            without_edge(h, path[i], path[i + 1])
        } else {
            h
        }
    }
}

/// The graph in which the spur search at position `i` of `previous` looks
/// for its path: without the edges that the accepted paths take from
/// there, and with the vertices before that position detached.
pub open spec fn spur_graph(
    g: Adjacency,
    accepted: Seq<Vec<usize>>,
    previous: Seq<usize>,
    i: int,
) -> Adjacency {
    all_detached(edges_excluded(g, accepted, previous, i), previous.subrange(0, i))
}

/// Every entry of an edge log names two different vertices of the graph.
pub open spec fn edge_log_valid(size: usize, log: Seq<(usize, usize, usize)>) -> bool {
    forall|k: int|
        0 <= k < log.len() ==> (#[trigger] log[k]).0 < size && log[k].1 < size && log[k].0
            != log[k].1
}

/// Every recorded neighbour is a vertex of the graph other than the one it
/// was recorded for.
pub open spec fn vertex_log_valid(size: usize, vs: Seq<usize>, log: Seq<Vec<usize>>) -> bool {
    &&& log.len() <= vs.len()
    &&& forall|k: int| 0 <= k < log.len() ==> #[trigger] vs[k] < size
    &&& forall|k: int, j: int|
        0 <= k < log.len() && 0 <= j < log[k]@.len() ==> #[trigger] log[k]@[j] < size
            && log[k]@[j] != vs[k]
}

/// Adds `count` edges between `a` and `b`.
pub fn add_parallel_edges(graph: &mut Graph, a: usize, b: usize, count: usize)
    requires
        old(graph).wf(),
        a < old(graph).size,
        b < old(graph).size,
        a != b,
    ensures
        final(graph).wf(),
        final(graph).size == old(graph).size,
        final(graph)@ == with_parallel_edges(old(graph)@, a, b, count as nat),
{
    let mut n: usize = 0;
    while n < count
        invariant
            n <= count,
            graph.wf(),
            graph.size == old(graph).size,
            a < graph.size,
            b < graph.size,
            a != b,
            graph@ == with_parallel_edges(old(graph)@, a, b, n as nat),
        decreases count - n,
    {
        graph.add_edge(a, b);
        n += 1;
    }
}

/// Undoes the removals recorded in `log`, the last of them first.
pub fn restore_edges(graph: &mut Graph, log: &Vec<(usize, usize, usize)>)
    requires
        old(graph).wf(),
        edge_log_valid(old(graph).size, log@),
    ensures
        final(graph).wf(),
        final(graph).size == old(graph).size,
        final(graph)@ == edges_restored(old(graph)@, log@),
{
    let mut k: usize = log.len();
    assert(log@.subrange(0, k as int) =~= log@);
    while k > 0
        invariant
            k <= log@.len(),
            graph.wf(),
            graph.size == old(graph).size,
            edge_log_valid(graph.size, log@),
            edges_restored(graph@, log@.subrange(0, k as int)) == edges_restored(
                old(graph)@,
                log@,
            ),
        decreases k,
    {
        let ghost prefix = log@.subrange(0, k as int);
        k -= 1;
        let (a, b, count) = log[k];
        assert(prefix.last() == log@[k as int]);
        assert(prefix.drop_last() =~= log@.subrange(0, k as int));
        add_parallel_edges(graph, a, b, count);
    }
    assert(log@.subrange(0, 0) =~= Seq::<(usize, usize, usize)>::empty());
}

/// Detaches the first `count` of `vertices`, in order, and returns for
/// each the neighbours it had when its turn came.
pub fn detach_all(graph: &mut Graph, vertices: &Vec<usize>, count: usize) -> (log: Vec<Vec<usize>>)
    requires
        old(graph).wf(),
        count <= vertices@.len(),
        forall|k: int| 0 <= k < count ==> #[trigger] vertices@[k] < old(graph).size,
    ensures
        final(graph).wf(),
        final(graph).size == old(graph).size,
        log@.len() == count,
        vertex_log_valid(old(graph).size, vertices@, log@),
        final(graph)@ == all_detached(old(graph)@, vertices@.subrange(0, count as int)),
        subgraph(final(graph)@, old(graph)@),
        forall|k: int| 0 <= k < count ==> isolated(final(graph)@, #[trigger] vertices@[k]),
        vertices_restored(final(graph)@, vertices@.subrange(0, count as int), log@) == old(
            graph,
        )@,
{
    let mut log: Vec<Vec<usize>> = Vec::new();
    let mut r: usize = 0;
    proof {
        assert(vertices@.subrange(0, 0) =~= Seq::<usize>::empty());
    }
    while r < count
        invariant
            r <= count,
            count <= vertices@.len(),
            graph.wf(),
            graph.size == old(graph).size,
            forall|k: int| 0 <= k < count ==> #[trigger] vertices@[k] < graph.size,
            log@.len() == r,
            vertex_log_valid(graph.size, vertices@, log@),
            graph@ == all_detached(old(graph)@, vertices@.subrange(0, r as int)),
            subgraph(graph@, old(graph)@),
            forall|k: int| 0 <= k < r ==> isolated(graph@, #[trigger] vertices@[k]),
            vertices_restored(graph@, vertices@.subrange(0, r as int), log@) == old(graph)@,
        decreases count - r,
    {
        let ghost before = graph@;
        let ghost old_log = log@;
        let vertex = vertices[r];
        let neighbors = graph.pop_edges(vertex);
        proof {
            lemma_detach_then_restore(before, vertex, neighbors@);
            lemma_detached_subgraph(before, vertex);
            lemma_subgraph_transitive(graph@, before, old(graph)@);
        }
        log.push(neighbors);
        r += 1;
        proof {
            let vs = vertices@.subrange(0, r as int);
            assert(vs.last() == vertex);
            assert(vs.drop_last() =~= vertices@.subrange(0, r - 1));
            assert(log@.drop_last() =~= old_log);
            assert(log@.last()@ == neighbors@);
            assert forall|k: int| 0 <= k < r implies isolated(graph@, #[trigger] vertices@[k]) by {
                if k < r - 1 {
                    assert(isolated(before, vertices@[k]));
                }
            }
            assert forall|k: int, j: int|
                0 <= k < log@.len() && 0 <= j < log@[k]@.len() implies #[trigger] log@[k]@[j]
                < graph.size && log@[k]@[j] != vertices@[k] by {
                if k < r - 1 {
                    assert(log@[k] == old_log[k]);
                    assert(old_log[k]@[j] < graph.size);
                }
            }
        }
    }
    log
}

/// Gives back to each vertex the neighbours that `detach_all` recorded for
/// it, the last detached first.
pub fn restore_all(graph: &mut Graph, vertices: &Vec<usize>, log: &Vec<Vec<usize>>)
    requires
        old(graph).wf(),
        vertex_log_valid(old(graph).size, vertices@, log@),
    ensures
        final(graph).wf(),
        final(graph).size == old(graph).size,
        final(graph)@ == vertices_restored(
            old(graph)@,
            vertices@.subrange(0, log@.len() as int),
            log@,
        ),
{
    let mut k: usize = log.len();
    assert(log@.subrange(0, k as int) =~= log@);
    while k > 0
        invariant
            k <= log@.len(),
            graph.wf(),
            graph.size == old(graph).size,
            vertex_log_valid(graph.size, vertices@, log@),
            vertices_restored(
                graph@,
                vertices@.subrange(0, k as int),
                log@.subrange(0, k as int),
            ) == vertices_restored(
                old(graph)@,
                vertices@.subrange(0, log@.len() as int),
                log@,
            ),
        decreases k,
    {
        let ghost vs = vertices@.subrange(0, k as int);
        let ghost ls = log@.subrange(0, k as int);
        k -= 1;
        assert(vs.last() == vertices@[k as int]);
        assert(ls.last() == log@[k as int]);
        assert(vs.drop_last() =~= vertices@.subrange(0, k as int));
        assert(ls.drop_last() =~= log@.subrange(0, k as int));
        assert forall|j: int| 0 <= j < log@[k as int]@.len() implies log@[k as int]@[j]
            < graph.size && log@[k as int]@[j] != vertices@[k as int] by {
            assert(log@[k as int]@[j] < graph.size);
        }
        graph.add_edges(vertices[k], &log[k]);
    }
    assert(vertices@.subrange(0, 0) =~= Seq::<usize>::empty());
}

/// Every path of the list visits vertices of the graph only, and none twice.
pub open spec fn all_simple(size: usize, paths: Seq<Vec<usize>>) -> bool {
    forall|a: int|
        0 <= a < paths.len() ==> (#[trigger] paths[a])@.no_duplicates() && forall|j: int|
            0 <= j < paths[a]@.len() ==> #[trigger] paths[a]@[j] < size
}

/// Every path of the list is a path of `g` from `s` to `t`.
pub open spec fn all_paths(g: Adjacency, paths: Seq<Vec<usize>>, s: usize, t: usize) -> bool {
    forall|a: int| 0 <= a < paths.len() ==> is_path(g, (#[trigger] paths[a])@, s, t)
}

/// Whether the two paths visit the same vertices in the same order.
pub fn same_path(path: &Vec<usize>, other: &Vec<usize>) -> (same: bool)
    ensures
        same == (path@ == other@),
{
    if path.len() != other.len() {
        return false;
    }
    let mut j: usize = 0;
    while j < path.len()
        invariant
            j <= path@.len(),
            path@.len() == other@.len(),
            forall|k: int| 0 <= k < j ==> path@[k] == other@[k],
        decreases path@.len() - j,
    {
        if path[j] != other[j] {
            return false;
        }
        j += 1;
    }
    assert(path@ =~= other@);
    true
}

/// Whether `path` goes on beyond its first `count` vertices and has them in
/// common with `other`.
pub fn shares_prefix(path: &Vec<usize>, other: &Vec<usize>, count: usize) -> (same: bool)
    requires
        count <= other@.len(),
    ensures
        same == (path@.len() > count && path@.subrange(0, count as int) == other@.subrange(
            0,
            count as int,
        )),
{
    if path.len() <= count {
        return false;
    }
    let mut j: usize = 0;
    while j < count
        invariant
            j <= count,
            count < path@.len(),
            count <= other@.len(),
            forall|k: int| 0 <= k < j ==> path@[k] == other@[k],
        decreases count - j,
    {
        if path[j] != other[j] {
            assert(path@.subrange(0, count as int)[j as int] != other@.subrange(0, count as int)[j as int]);
            return false;
        }
        j += 1;
    }
    assert(path@.subrange(0, count as int) =~= other@.subrange(0, count as int));
    true
}

/// Whether `path` is one of `paths`.
pub fn contains_path(paths: &Vec<Vec<usize>>, path: &Vec<usize>) -> (found: bool)
    ensures
        found == exists|b: int| 0 <= b < paths@.len() && (#[trigger] paths@[b])@ == path@,
{
    let mut b: usize = 0;
    while b < paths.len()
        invariant
            b <= paths@.len(),
            forall|k: int| 0 <= k < b ==> (#[trigger] paths@[k])@ != path@,
        decreases paths@.len() - b,
    {
        if same_path(&paths[b], path) {
            return true;
        }
        b += 1;
    }
    false
}

/// The position of the first among the shortest of `paths`.
pub fn shortest_index(paths: &Vec<Vec<usize>>) -> (index: usize)
    requires
        paths@.len() > 0,
    ensures
        index < paths@.len(),
        forall|b: int| 0 <= b < paths@.len() ==> paths@[index as int]@.len() <= (#[trigger] paths@[b])@.len(),
        forall|b: int| 0 <= b < index ==> paths@[index as int]@.len() < (#[trigger] paths@[b])@.len(),
{
    let mut index: usize = 0;
    let mut b: usize = 1;
    while b < paths.len()
        invariant
            1 <= b <= paths@.len(),
            index < b,
            forall|k: int| 0 <= k < b ==> paths@[index as int]@.len() <= (#[trigger] paths@[k])@.len(),
            forall|k: int| 0 <= k < index ==> paths@[index as int]@.len() < (#[trigger] paths@[k])@.len(),
        decreases paths@.len() - b,
    {
        if paths[b].len() < paths[index].len() {
            index = b;
        }
        b += 1;
    }
    index
}

/// For every accepted path that has its first `i + 1` vertices in common
/// with `previous`, removes the edges between its vertex at position `i`
/// and the next one, and records what was removed.
pub fn exclude_edges(
    graph: &mut Graph,
    accepted: &Vec<Vec<usize>>,
    previous: &Vec<usize>,
    i: usize,
) -> (log: Vec<(usize, usize, usize)>)
    requires
        old(graph).wf(),
        i < previous@.len(),
        all_simple(old(graph).size, accepted@),
    ensures
        final(graph).wf(),
        final(graph).size == old(graph).size,
        edge_log_valid(old(graph).size, log@),
        final(graph)@ == edges_excluded(old(graph)@, accepted@, previous@, i as int),
        subgraph(final(graph)@, old(graph)@),
        edges_restored(final(graph)@, log@) == old(graph)@,
{
    let mut log: Vec<(usize, usize, usize)> = Vec::new();
    proof {
        assert(accepted@.subrange(0, 0) =~= Seq::<Vec<usize>>::empty());
    }
    let mut a: usize = 0;
    let total = previous.len();
    while a < accepted.len()
        invariant
            a <= accepted@.len(),
            graph.wf(),
            graph.size == old(graph).size,
            i < total,
            total == previous@.len(),
            all_simple(graph.size, accepted@),
            edge_log_valid(graph.size, log@),
            graph@ == edges_excluded(
                old(graph)@,
                accepted@.subrange(0, a as int),
                previous@,
                i as int,
            ),
            subgraph(graph@, old(graph)@),
            edges_restored(graph@, log@) == old(graph)@,
        decreases accepted@.len() - a,
    {
        proof {
            let next = accepted@.subrange(0, a + 1);
            assert(next.drop_last() =~= accepted@.subrange(0, a as int));
            assert(next.last() == accepted@[a as int]);
        }
        if shares_prefix(&accepted[a], previous, i + 1) {
            let ghost before = graph@;
            let ghost old_log = log@;
            let from = accepted[a][i];
            let to = accepted[a][i + 1];
            proof {
                let p = accepted@[a as int];
                assert(p@.no_duplicates());
                assert(p@[i as int] < graph.size);
                assert(p@[i + 1] < graph.size);
            }
            let count = graph.remove_edge(from, to);
            log.push((from, to, count));
            proof {
                lemma_remove_then_restore_edge(before, from, to);
                lemma_without_edge_subgraph(before, from, to);
                lemma_subgraph_transitive(graph@, before, old(graph)@);
                assert(log@.drop_last() =~= old_log);
                assert forall|k: int| 0 <= k < log@.len() implies (#[trigger] log@[k]).0
                    < graph.size && log@[k].1 < graph.size && log@[k].0 != log@[k].1 by {
                    if k < old_log.len() {
                        assert(log@[k] == old_log[k]);
                    }
                }
            }
        }
        a += 1;
    }
    proof {
        assert(accepted@.subrange(0, a as int) =~= accepted@);
    }
    log
}

/// A path that follows `previous` up to position `i` and goes on from
/// there along a path of a subgraph in which the vertices before position
/// `i` are isolated is a path of the whole graph.
pub proof fn lemma_spur_candidate(
    g: Adjacency,
    h: Adjacency,
    previous: Seq<usize>,
    i: int,
    spur: Seq<usize>,
    s: usize,
    t: usize,
)
    requires
        is_path(g, previous, s, t),
        0 <= i < previous.len(),
        subgraph(h, g),
        well_formed(h),
        forall|k: int| 0 <= k < i ==> isolated(h, #[trigger] previous[k]),
        is_path(h, spur, previous[i], t),
    ensures
        is_path(g, previous.subrange(0, i) + spur, s, t),
{
    let root = previous.subrange(0, i);
    let c = root + spur;
    lemma_walk_in_subgraph(h, g, spur);
    assert forall|k: int| 0 <= k < c.len() implies #[trigger] c[k] < g.len() by {
        if k < i {
            assert(previous[k] < g.len());
        } else {
            assert(spur[k - i] < g.len());
        }
    }
    assert forall|k: int| 0 <= k < c.len() - 1 implies adjacent(g, #[trigger] c[k], c[k + 1]) by {
        if k < i - 1 {
            assert(adjacent(g, previous[k], previous[k + 1]));
        } else if k == i - 1 {
            assert(adjacent(g, previous[k], previous[k + 1]));
            assert(c[k + 1] == spur[0]);
        } else {
            assert(adjacent(g, spur[k - i], spur[k - i + 1]));
        }
    }
    assert forall|a: int, b: int| 0 <= a < c.len() && 0 <= b < c.len() && a != b implies c[a]
        != c[b] by {
        let lo = if a < b { a } else { b };
        let hi = if a < b { b } else { a };
        if hi < i {
        } else if lo >= i {
            assert(spur[lo - i] != spur[hi - i]);
        } else {
            // c[lo] lies before the spur node, c[hi] on the spur path
            assert(isolated(h, previous[lo]));
            if hi == i {
                assert(c[hi] == previous[i]);
            } else {
                let m = hi - i;
                assert(adjacent(h, spur[m - 1], spur[m - 1 + 1]));
                assert(previous[lo] < g.len());
                lemma_isolated_unreachable(h, spur[m - 1], previous[lo]);
            }
        }
    }
    assert(c[0] == s) by {
        if i == 0 {
            assert(c[0] == spur[0]);
        } else {
            assert(c[0] == previous[0]);
        }
    }
    assert(c.last() == spur.last());
}

/// In a graph that records each edge at both ends, nothing is adjacent to
/// an isolated vertex.
pub proof fn lemma_isolated_unreachable(h: Adjacency, u: usize, v: usize)
    requires
        isolated(h, v),
        v < h.len(),
        well_formed(h),
    ensures
        !adjacent(h, u, v),
{
    if adjacent(h, u, v) {
        assert(h[u as int].count(v) == h[v as int].count(u));
        assert(adjacent(h, v, u));
    }
}

/// One spur search: a path that follows `previous` up to position `i` and
/// then leaves the accepted paths. The edges by which an accepted path
/// goes on from there are taken out, the vertices before position `i` are
/// detached, the shortest path from the spur vertex to `end` is sought in
/// what is left, and everything taken out is put back.
pub fn spur_candidate(
    graph: &mut Graph,
    accepted: &Vec<Vec<usize>>,
    previous: &Vec<usize>,
    i: usize,
    end: usize,
) -> (result: Option<Vec<usize>>)
    requires
        old(graph).wf(),
        i < previous@.len(),
        end < old(graph).size,
        is_path(old(graph)@, previous@, previous@[0], end),
        all_simple(old(graph).size, accepted@),
    ensures
        final(graph).wf(),
        final(graph).size == old(graph).size,
        final(graph)@ == old(graph)@,
        match result {
            Some(candidate) => {
                &&& is_path(old(graph)@, candidate@, previous@[0], end)
                &&& candidate@.len() > i
                &&& candidate@.subrange(0, i as int) == previous@.subrange(0, i as int)
                &&& is_path(
                    spur_graph(old(graph)@, accepted@, previous@, i as int),
                    candidate@.subrange(i as int, candidate@.len() as int),
                    previous@[i as int],
                    end,
                )
                &&& no_shorter_walk(
                    spur_graph(old(graph)@, accepted@, previous@, i as int),
                    previous@[i as int],
                    end,
                    candidate@.len() - i - 1,
                )
            },
            None => !reachable(
                spur_graph(old(graph)@, accepted@, previous@, i as int),
                previous@[i as int],
                end,
            ),
        },
{
    let ghost g0 = graph@;
    let edge_log = exclude_edges(graph, accepted, previous, i);
    let ghost g1 = graph@;
    proof {
        assert forall|k: int| 0 <= k < i implies #[trigger] previous@[k] < graph.size by {
            assert(previous@[k] < g0.len());
        }
        assert(previous@[i as int] < g0.len());
    }
    let vertex_log = detach_all(graph, previous, i);
    let ghost g2 = graph@;
    let spur = shortest_path(graph, previous[i], end);
    restore_all(graph, previous, &vertex_log);
    restore_edges(graph, &edge_log);
    match spur {
        None => None,
        Some(tail) => {
            let mut candidate: Vec<usize> = Vec::new();
            let mut r: usize = 0;
            while r < i
                invariant
                    r <= i,
                    i < previous@.len(),
                    candidate@ == previous@.subrange(0, r as int),
                decreases i - r,
            {
                candidate.push(previous[r]);
                r += 1;
                assert(candidate@ =~= previous@.subrange(0, r as int));
            }
            let mut j: usize = 0;
            while j < tail.len()
                invariant
                    j <= tail@.len(),
                    i < previous@.len(),
                    candidate@ == previous@.subrange(0, i as int) + tail@.subrange(0, j as int),
                decreases tail@.len() - j,
            {
                candidate.push(tail[j]);
                j += 1;
                assert(candidate@ =~= previous@.subrange(0, i as int) + tail@.subrange(
                    0,
                    j as int,
                ));
            }
            proof {
                assert(tail@.subrange(0, j as int) =~= tail@);
                lemma_subgraph_transitive(g2, g1, g0);
                lemma_spur_candidate(g0, g2, previous@, i as int, tail@, previous@[0], end);
                assert(candidate@.subrange(0, i as int) =~= previous@.subrange(0, i as int));
                assert(candidate@.subrange(i as int, candidate@.len() as int) =~= tail@);
            }
            Some(candidate)
        },
    }
}

/// A path from `start` to `end` with exactly `length` edges, sought among
/// the shortest path and the alternatives that branch off the paths
/// accepted so far, each round accepting the shortest alternative found.
/// The graph is changed during the search and is the same again afterwards.
///
/// The rounds end after `size - length` of them, or when one leaves no
/// alternative; they do not reach every path. Where they find none, every
/// way from the start is tried, so that `None` comes only where no such
/// path exists.
pub fn alternative_paths(graph: &mut Graph, start: usize, end: usize, length: usize) -> (result:
    Option<Vec<usize>>)
    requires
        old(graph).wf(),
        start < old(graph).size,
        end < old(graph).size,
        length < old(graph).size,
    ensures
        final(graph).wf(),
        final(graph).size == old(graph).size,
        final(graph)@ == old(graph)@,
        match result {
            Some(path) => is_path(old(graph)@, path@, start, end) && path@.len() == length + 1,
            None => !has_path(old(graph)@, start, end, length as int),
        },
{
    let ghost g = graph@;
    let first = match shortest_path(graph, start, end) {
        None => {
            proof {
                if has_path(g, start, end, length as int) {
                    let p = choose|p: Seq<usize>| #[trigger]
                        is_path(g, p, start, end) && p.len() == length + 1;
                    assert(is_walk(g, p) && joins(p, start, end));
                }
            }
            return None;
        },
        Some(path) => path,
    };
    if first.len() == length + 1 {
        return Some(first);
    }
    let mut accepted: Vec<Vec<usize>> = Vec::new();
    accepted.push(first);
    let mut pool: Vec<Vec<usize>> = Vec::new();
    let rounds = graph.size - length;
    let mut k: usize = 0;
    while k < rounds
        invariant
            graph.wf(),
            graph.size == old(graph).size,
            graph@ == g,
            g == old(graph)@,
            start < graph.size,
            end < graph.size,
            length < graph.size,
            accepted@.len() > 0,
            all_paths(g, accepted@, start, end),
            all_paths(g, pool@, start, end),
        decreases rounds - k,
    {
        let previous = &accepted[accepted.len() - 1];
        let spurs = if previous.len() > 2 {
            previous.len() - 2
        } else {
            0
        };
        let mut i: usize = 0;
        proof {
            lemma_all_simple(g, graph.size, accepted@, start, end);
            assert(is_path(g, previous@, start, end));
        }
        while i < spurs
            invariant
                graph.wf(),
                graph.size == old(graph).size,
                graph@ == g,
                end < graph.size,
                i <= spurs,
                spurs < previous@.len() || spurs == 0,
                is_path(g, previous@, start, end),
                all_simple(graph.size, accepted@),
                all_paths(g, pool@, start, end),
            decreases spurs - i,
        {
            let found = spur_candidate(graph, &accepted, previous, i, end);
            if let Some(candidate) = found {
                if !contains_path(&pool, &candidate) {
                    let ghost before = pool@;
                    pool.push(candidate);
                    assert forall|a: int| 0 <= a < pool@.len() implies is_path(
                        g,
                        (#[trigger] pool@[a])@,
                        start,
                        end,
                    ) by {
                        if a < before.len() {
                            assert(pool@[a] == before[a]);
                        }
                    }
                }
            }
            i += 1;
        }
        if pool.len() == 0 {
            return exhaustive_path(graph, start, end, length);
        }
        let index = shortest_index(&pool);
        let ghost before = pool@;
        let best = pool.remove(index);
        proof {
            assert(is_path(g, before[index as int]@, start, end));
            assert forall|a: int| 0 <= a < pool@.len() implies is_path(
                g,
                (#[trigger] pool@[a])@,
                start,
                end,
            ) by {
                if a < index {
                    assert(pool@[a] == before[a]);
                } else {
                    assert(pool@[a] == before[a + 1]);
                }
            }
        }
        if best.len() == length + 1 {
            return Some(best);
        }
        let ghost known = accepted@;
        accepted.push(best);
        proof {
            assert forall|a: int| 0 <= a < accepted@.len() implies is_path(
                g,
                (#[trigger] accepted@[a])@,
                start,
                end,
            ) by {
                if a < known.len() {
                    assert(accepted@[a] == known[a]);
                }
            }
        }
        k += 1;
    }
    exhaustive_path(graph, start, end, length)
}

/// Paths of a graph visit its vertices only, and none twice.
pub proof fn lemma_all_simple(g: Adjacency, size: usize, paths: Seq<Vec<usize>>, s: usize, t: usize)
    requires
        all_paths(g, paths, s, t),
        g.len() == size,
    ensures
        all_simple(size, paths),
{
    assert forall|a: int| 0 <= a < paths.len() implies (#[trigger] paths[a])@.no_duplicates()
        && forall|j: int| 0 <= j < paths[a]@.len() ==> #[trigger] paths[a]@[j] < size by {
        assert(is_path(g, paths[a]@, s, t));
    }
}

} // verus!
