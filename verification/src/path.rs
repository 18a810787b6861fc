//! Breadth-first search and the shortest path between two vertices.

use std::collections::VecDeque;
use vstd::prelude::*;
use vstd::seq_lib::*;
use crate::chain::UNREACHED;
use crate::graph::{adjacent, Adjacency, Graph};
use crate::walk::{is_path, is_walk, joins, lemma_distinct_bounded, no_shorter_walk, reachable};

verus! {

/// `dist` and `pred` describe a tree rooted at `start`: every reached vertex
/// but the root has a reached neighbour one step nearer to the root.
pub open spec fn is_search_tree(g: Adjacency, start: usize, dist: Seq<usize>, pred: Seq<usize>) -> bool {
    &&& g.len() <= usize::MAX
    &&& start < g.len()
    &&& dist.len() == g.len()
    &&& pred.len() == g.len()
    &&& dist[start as int] == 0
    &&& pred[start as int] == UNREACHED
    &&& forall|v: usize| v < g.len() && dist[v as int] == UNREACHED ==> #[trigger] pred[v as int] == UNREACHED
    &&& forall|v: usize|
        v < g.len() && dist[v as int] != UNREACHED && v != start ==> {
            &&& #[trigger] pred[v as int] < g.len()
            &&& dist[pred[v as int] as int] != UNREACHED
            &&& dist[pred[v as int] as int] + 1 == dist[v as int]
            &&& adjacent(g, pred[v as int], v)
        }
}

/// `dist[t]` is the least number of edges of a walk from `start` to `t`, or
/// the mark `UNREACHED` where there is no such walk.
pub open spec fn is_distance(g: Adjacency, start: usize, dist: Seq<usize>, t: usize) -> bool {
    forall|q: Seq<usize>| #[trigger] is_walk(g, q) && joins(q, start, t) ==> dist[t as int] != UNREACHED && dist[t as int] <= q.len() - 1
}

/// What holds of a breadth-first search in progress. `order` lists the
/// reached vertices as they were reached; those before position `head` have
/// had all their neighbours looked at.
pub open spec fn search_state(
    g: Adjacency,
    start: usize,
    dist: Seq<usize>,
    pred: Seq<usize>,
    order: Seq<usize>,
    head: int,
) -> bool {
    &&& is_search_tree(g, start, dist, pred)
    &&& 0 <= head <= order.len()
    &&& order.len() > 0
    &&& order[0] == start
    &&& order.no_duplicates()
    &&& forall|i: int| 0 <= i < order.len() ==> #[trigger] order[i] < g.len()
    &&& forall|i: int| 0 <= i < order.len() ==> dist[#[trigger] order[i] as int] <= i
    &&& forall|v: usize| v < g.len() && dist[v as int] != UNREACHED ==> #[trigger] order.contains(v)
    &&& forall|i: int, j: int|
        0 <= i <= j < order.len() ==> dist[#[trigger] order[i] as int] <= dist[#[trigger] order[j] as int]
    &&& forall|i: int, w: usize|
        0 <= i < head && #[trigger] adjacent(g, order[i], w) ==> w < g.len() && dist[w as int]
            != UNREACHED && dist[w as int] <= dist[order[i] as int] + 1
}

/// While the vertex at position `head` is being looked at, every walk from
/// the start either ends at a vertex that was reached in no more steps than
/// the walk has edges, or is longer than the way to that vertex.
proof fn lemma_search_bound(
    g: Adjacency,
    start: usize,
    dist: Seq<usize>,
    pred: Seq<usize>,
    order: Seq<usize>,
    head: int,
    q: Seq<usize>,
)
    requires
        search_state(g, start, dist, pred, order, head),
        is_walk(g, q),
        q[0] == start,
    ensures
        (dist[q.last() as int] != UNREACHED && dist[q.last() as int] <= q.len() - 1) || (head
            < order.len() && q.len() - 1 > dist[order[head] as int]),
    decreases q.len(),
{
    if q.len() == 1 {
    } else {
        let init = q.drop_last();
        let u = init.last();
        let w = q.last();
        assert(is_walk(g, init)) by {
            assert forall|i: int| 0 <= i < init.len() - 1 implies adjacent(
                g,
                #[trigger] init[i],
                init[i + 1],
            ) by {
                assert(adjacent(g, q[i], q[i + 1]));
            }
            assert forall|i: int| 0 <= i < init.len() implies #[trigger] init[i] < g.len() by {
                assert(q[i] < g.len());
            }
        }
        lemma_search_bound(g, start, dist, pred, order, head, init);
        assert(u == q[q.len() - 2]);
        assert(adjacent(g, q[q.len() - 2], q[q.len() - 2 + 1]));
        assert(adjacent(g, u, w));
        assert(u < g.len()) by {
            assert(q[q.len() - 2] < g.len());
        }
        if dist[u as int] != UNREACHED && dist[u as int] <= init.len() - 1 {
            assert(order.contains(u));
            let i = choose|i: int| 0 <= i < order.len() && order[i] == u;
            if i < head {
                assert(adjacent(g, order[i], w));
            } else {
                assert(dist[order[head] as int] <= dist[order[i] as int]);
            }
        }
    }
}

/// Reaching a new vertex from the one at position `head` keeps the state of
/// the search.
proof fn lemma_discover(
    g: Adjacency,
    start: usize,
    dist: Seq<usize>,
    pred: Seq<usize>,
    order: Seq<usize>,
    head: int,
    vertex: usize,
)
    requires
        search_state(g, start, dist, pred, order, head),
        head < order.len(),
        vertex < g.len(),
        dist[vertex as int] == UNREACHED,
        adjacent(g, order[head], vertex),
        forall|i: int| 0 <= i < order.len() ==> dist[#[trigger] order[i] as int] <= dist[order[head] as int] + 1,
    ensures
        dist[order[head] as int] + 1 < g.len(),
        order.len() < g.len(),
        search_state(
            g,
            start,
            dist.update(vertex as int, (dist[order[head] as int] + 1) as usize),
            pred.update(vertex as int, order[head]),
            order.push(vertex),
            head,
        ),
        forall|i: int|
            0 <= i < order.len() + 1 ==> dist.update(
                vertex as int,
                (dist[order[head] as int] + 1) as usize,
            )[#[trigger] order.push(vertex)[i] as int] <= dist[order[head] as int] + 1,
{
    let current = order[head];
    let next = order.push(vertex);
    assert(dist[current as int] <= head);
    lemma_distinct_bounded(order, g.len());
    assert forall|i: int| 0 <= i < order.len() implies order[i] != vertex by {
        assert(dist[order[i] as int] <= i);
    }
    assert(next.no_duplicates());
    assert forall|i: int| 0 <= i < next.len() implies next[i] < g.len() by {
        if i < order.len() {
            assert(order[i] < g.len());
        }
    }
    lemma_distinct_bounded(next, g.len());
    let d = (dist[current as int] + 1) as usize;
    let dist2 = dist.update(vertex as int, d);
    let pred2 = pred.update(vertex as int, current);
    assert(dist[start as int] == 0);
    assert(vertex != start);
    assert(vertex != current);
    assert(order[head] < g.len());
    assert(is_search_tree(g, start, dist2, pred2)) by {
        assert forall|v: usize|
            v < g.len() && dist2[v as int] != UNREACHED && v != start implies {
            &&& #[trigger] pred2[v as int] < g.len()
            &&& dist2[pred2[v as int] as int] != UNREACHED
            &&& dist2[pred2[v as int] as int] + 1 == dist2[v as int]
            &&& adjacent(g, pred2[v as int], v)
        } by {
            if v != vertex {
                assert(dist[v as int] != UNREACHED);
                assert(pred[v as int] != vertex);
            }
        }
        assert forall|v: usize| v < g.len() && dist2[v as int] == UNREACHED implies #[trigger] pred2[v as int]
            == UNREACHED by {
            assert(dist[v as int] == UNREACHED);
            assert(pred[v as int] == UNREACHED);
        }
    }
    assert forall|i: int| 0 <= i < next.len() implies dist2[#[trigger] next[i] as int] <= i by {
        if i < order.len() {
            assert(dist[order[i] as int] <= i);
        }
    }
    assert forall|v: usize| v < g.len() && dist2[v as int] != UNREACHED implies #[trigger] next.contains(
        v,
    ) by {
        if v == vertex {
            assert(next[order.len() as int] == vertex);
        } else {
            assert(dist[v as int] != UNREACHED);
            assert(order.contains(v));
            let i = choose|i: int| 0 <= i < order.len() && order[i] == v;
            assert(next[i] == v);
        }
    }
    assert forall|i: int, j: int| 0 <= i <= j < next.len() implies dist2[#[trigger] next[i] as int]
        <= dist2[#[trigger] next[j] as int] by {
        if j < order.len() {
            assert(dist[order[i] as int] <= dist[order[j] as int]);
        } else if i < order.len() {
            assert(dist[order[i] as int] <= dist[order[head] as int] + 1);
        }
    }
    assert forall|i: int, w: usize| 0 <= i < head && #[trigger] adjacent(g, next[i], w) implies w
        < g.len() && dist2[w as int] != UNREACHED && dist2[w as int] <= dist2[next[i] as int]
        + 1 by {
        assert(adjacent(g, order[i], w));
        assert(order[i] != vertex);
    }
    assert forall|i: int| 0 <= i < order.len() + 1 implies dist2[#[trigger] next[i] as int]
        <= dist[order[head] as int] + 1 by {
        if i < order.len() {
            assert(dist[order[i] as int] <= dist[order[head] as int] + 1);
        }
    }
}

/// Breadth-first search from `start`. With a target the search stops as soon
/// as it reaches the target, and only the target's entry is then known to
/// be final; without one it runs until no vertex is left to look at.
pub fn breadth_first(graph: &Graph, start: usize, target: Option<usize>) -> (tables: (
    Vec<usize>,
    Vec<usize>,
))
    requires
        graph.wf(),
        start < graph.size,
    ensures
        is_search_tree(graph@, start, tables.0@, tables.1@),
        match target {
            Some(t) => t < graph.size ==> is_distance(graph@, start, tables.0@, t),
            None => forall|t: usize| t < graph.size ==> is_distance(graph@, start, tables.0@, t),
        },
{
    let size = graph.size;
    let mut distance = vec![UNREACHED; size];
    let mut predecessor = vec![UNREACHED; size];
    let mut queue: VecDeque<usize> = VecDeque::new();
    distance[start] = 0;
    queue.push_back(start);
    let ghost mut order = seq![start];
    let ghost mut head: int = 0;
    if let Some(t) = target {
        if t == start {
            return (distance, predecessor);
        }
    }
    assert(search_state(graph@, start, distance@, predecessor@, order, head)) by {
        assert forall|v: usize| v < graph@.len() && distance@[v as int] != UNREACHED implies #[trigger] order.contains(
            v,
        ) by {
            assert(order[0] == start);
        }
    }
    while queue.len() > 0
        invariant
            graph.wf(),
            size == graph.size,
            start < size,
            search_state(graph@, start, distance@, predecessor@, order, head),
            queue@ == order.subrange(head, order.len() as int),
            head < order.len() ==> forall|i: int|
                0 <= i < order.len() ==> distance@[#[trigger] order[i] as int] <= distance@[order[head] as int]
                    + 1,
            match target {
                Some(t) => t < size ==> distance@[t as int] == UNREACHED,
                None => true,
            },
        decreases size - head,
    {
        proof {
            lemma_distinct_bounded(order, size as nat);
        }
        let current = queue.pop_front().unwrap();
        assert(current == order[head]);
        assert(current < size);
        let neighbors = graph.get_neighbors(current);
        let mut j: usize = 0;
        while j < neighbors.len()
            invariant
                graph.wf(),
                size == graph.size,
                start < size,
                current < size,
                0 <= j <= neighbors@.len(),
                neighbors@.to_multiset() == graph@[current as int],
                forall|k: int| 0 <= k < neighbors@.len() ==> #[trigger] neighbors@[k] < size,
                search_state(graph@, start, distance@, predecessor@, order, head),
                head < order.len(),
                order.len() <= size,
                current == order[head],
                queue@ == order.subrange(head + 1, order.len() as int),
                forall|i: int|
                    0 <= i < order.len() ==> distance@[#[trigger] order[i] as int] <= distance@[current as int]
                        + 1,
                forall|k: int|
                    0 <= k < j ==> distance@[#[trigger] neighbors@[k] as int] != UNREACHED,
                match target {
                    Some(t) => t < size ==> distance@[t as int] == UNREACHED,
                    None => true,
                },
            decreases neighbors@.len() - j,
        {
            let vertex = neighbors[j];
            if distance[vertex] == UNREACHED {
                proof {
                    to_multiset_contains(neighbors@, vertex);
                    assert(neighbors@.contains(neighbors@[j as int]));
                    assert(adjacent(graph@, current, vertex));
                    lemma_discover(graph@, start, distance@, predecessor@, order, head, vertex);
                    if target == Some(vertex) {
                        assert forall|q: Seq<usize>| #[trigger]
                            is_walk(graph@, q) && joins(q, start, vertex) implies distance@[current as int]
                            + 1 <= q.len() - 1 by {
                            lemma_search_bound(
                                graph@,
                                start,
                                distance@,
                                predecessor@,
                                order,
                                head,
                                q,
                            );
                        }
                    }
                    order = order.push(vertex);
                }
                let next = distance[current] + 1;
                distance[vertex] = next;
                predecessor[vertex] = current;
                queue.push_back(vertex);
                assert(queue@ =~= order.subrange(head + 1, order.len() as int));
                if let Some(t) = target {
                    if t == vertex {
                        return (distance, predecessor);
                    }
                }
            }
            j += 1;
        }
        proof {
            assert forall|i: int, w: usize|
                0 <= i < head + 1 && #[trigger] adjacent(graph@, order[i], w) implies w < graph@.len()
                && distance@[w as int] != UNREACHED && distance@[w as int] <= distance@[order[i] as int]
                + 1 by {
                if i == head {
                    to_multiset_contains(neighbors@, w);
                    let k = choose|k: int| 0 <= k < neighbors@.len() && neighbors@[k] == w;
                    assert(distance@[neighbors@[k] as int] != UNREACHED);
                    assert(order.contains(w));
                    let m = choose|m: int| 0 <= m < order.len() && order[m] == w;
                    assert(distance@[order[m] as int] <= distance@[current as int] + 1);
                }
            }
            head = head + 1;
            assert(queue@ =~= order.subrange(head, order.len() as int));
            if head < order.len() {
                assert forall|i: int| 0 <= i < order.len() implies distance@[#[trigger] order[i] as int]
                    <= distance@[order[head] as int] + 1 by {
                    assert(distance@[order[i] as int] <= distance@[current as int] + 1);
                    assert(distance@[order[head - 1] as int] <= distance@[order[head] as int]);
                }
            }
        }
    }
    proof {
        assert(head == order.len());
        assert forall|t: usize| t < graph.size implies is_distance(graph@, start, distance@, t) by {
            assert forall|q: Seq<usize>| #[trigger]
                is_walk(graph@, q) && joins(q, start, t) implies distance@[t as int] != UNREACHED
                && distance@[t as int] <= q.len() - 1 by {
                lemma_search_bound(graph@, start, distance@, predecessor@, order, head, q);
            }
        }
    }
    (distance, predecessor)
}

/// The entries of `list` in the opposite order.
pub fn reversed(list: &Vec<usize>) -> (result: Vec<usize>)
    ensures
        result@ == list@.reverse(),
{
    let mut result: Vec<usize> = Vec::new();
    let mut i: usize = list.len();
    while i > 0
        invariant
            i <= list@.len(),
            result@.len() == list@.len() - i,
            forall|k: int| 0 <= k < result@.len() ==> result@[k] == list@[list@.len() - 1 - k],
        decreases i,
    {
        i -= 1;
        result.push(list[i]);
    }
    assert(result@ =~= list@.reverse());
    result
}

/// The way from the root of a search tree down to `vertex`, read off the
/// table of predecessors. Its `i`-th vertex lies `i` steps from the root.
pub(crate) fn path_from_root(
    Ghost(g): Ghost<Adjacency>,
    Ghost(start): Ghost<usize>,
    distance: &Vec<usize>,
    predecessor: &Vec<usize>,
    vertex: usize,
) -> (path: Vec<usize>)
    requires
        is_search_tree(g, start, distance@, predecessor@),
        vertex < g.len(),
        distance@[vertex as int] != UNREACHED,
    ensures
        is_path(g, path@, start, vertex),
        path@.len() == distance@[vertex as int] + 1,
        forall|i: int| 0 <= i < path@.len() ==> distance@[#[trigger] path@[i] as int] == i,
{
    let mut back: Vec<usize> = Vec::new();
    let mut current = vertex;
    back.push(current);
    let ghost total = distance@[vertex as int] as int;
    while predecessor[current] != UNREACHED
        invariant
            is_search_tree(g, start, distance@, predecessor@),
            total == distance@[vertex as int],
            total < usize::MAX,
            current < g.len(),
            back@.len() > 0,
            back@.last() == current,
            back@[0] == vertex,
            forall|i: int|
                0 <= i < back@.len() ==> #[trigger] back@[i] < g.len() && distance@[back@[i] as int]
                    + i == total,
            forall|i: int| 0 <= i < back@.len() - 1 ==> adjacent(g, back@[i + 1], #[trigger] back@[i]),
        decreases distance@[current as int],
    {
        let ghost child = current;
        assert(distance@[current as int] != UNREACHED) by {
            assert(distance@[back@[back@.len() - 1] as int] + back@.len() - 1 == total);
        }
        assert(current != start);
        current = predecessor[current];
        back.push(current);
        proof {
            let n = back@.len() - 1;
            assert forall|i: int| 0 <= i < back@.len() implies #[trigger] back@[i] < g.len()
                && distance@[back@[i] as int] + i == total by {
                if i == n {
                    assert(distance@[back@[n - 1] as int] + n - 1 == total);
                }
            }
        }
    }
    proof {
        assert(distance@[back@[back@.len() - 1] as int] + back@.len() - 1 == total);
        if current != start {
            assert(predecessor@[current as int] < g.len());
        }
    }
    let path = reversed(&back);
    proof {
        let n = back@.len() as int;
        assert forall|i: int| 0 <= i < path@.len() implies distance@[#[trigger] path@[i] as int]
            == i && path@[i] < g.len() by {
            assert(path@[i] == back@[n - 1 - i]);
            assert(distance@[back@[n - 1 - i] as int] + (n - 1 - i) == total);
        }
        assert forall|i: int| 0 <= i < path@.len() - 1 implies adjacent(
            g,
            #[trigger] path@[i],
            path@[i + 1],
        ) by {
            let k = n - 2 - i;
            assert(adjacent(g, back@[k + 1], back@[k]));
        }
        assert forall|i: int, j: int|
            0 <= i < path@.len() && 0 <= j < path@.len() && i != j implies path@[i] != path@[j] by {
            assert(distance@[path@[i] as int] == i);
            assert(distance@[path@[j] as int] == j);
        }
    }
    path
}

/// A path from `start` to `end` with as few edges as any walk between
/// them has, found breadth first; `None` where `end` cannot be reached.
/// Among several shortest paths the order of the neighbour lists decides.
pub fn shortest_path(graph: &Graph, start: usize, end: usize) -> (result: Option<Vec<usize>>)
    requires
        graph.wf(),
        start < graph.size,
        end < graph.size,
    ensures
        match result {
            Some(path) => is_path(graph@, path@, start, end) && no_shorter_walk(
                graph@,
                start,
                end,
                path@.len() - 1,
            ),
            None => !reachable(graph@, start, end),
        },
{
    let (distance, predecessor) = breadth_first(graph, start, Some(end));
    if distance[end] == UNREACHED {
        None
    } else {
        Some(path_from_root(Ghost(graph@), Ghost(start), &distance, &predecessor, end))
    }
}

} // verus!
