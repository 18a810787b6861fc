//! The search from both ends for a path with an exact number of edges.

use vstd::prelude::*;
use vstd::seq_lib::*;
use crate::chain::{
    chain, chained, in_path, leads_to, lemma_chain_bound, lemma_relink, relinked_rank,
    UNREACHED,
};
use crate::backtrack::exhaustive_path;
use crate::graph::{adjacent, well_formed, Adjacency, Graph};
use crate::path::{breadth_first, is_distance, is_search_tree, path_from_root};
use crate::walk::{has_path, is_path, is_walk, joins};

verus! {

/// Every link of the table joins two neighbours.
pub open spec fn linked(g: Adjacency, pred: Seq<usize>) -> bool {
    &&& pred.len() == g.len()
    &&& forall|x: usize|
        x < g.len() && #[trigger] pred[x as int] != UNREACHED ==> pred[x as int] < g.len()
            && adjacent(g, x, pred[x as int])
}

/// How much farther from the end the search may still record a vertex.
pub open spec fn slack(d: usize, length: usize) -> nat {
    if d == UNREACHED {
        (length + 2) as nat
    } else if d <= length {
        (length + 1 - d) as nat
    } else {
        0
    }
}

/// The sum of the slack of all vertices: what bounds the work that is left.
pub open spec fn potential(dist: Seq<usize>, length: usize) -> nat
    decreases dist.len(),
{
    if dist.len() == 0 {
        0
    } else {
        potential(dist.drop_last(), length) + slack(dist.last(), length)
    }
}

/// Changing one entry changes the potential by the difference of the two
/// slacks.
pub proof fn lemma_potential_update(dist: Seq<usize>, length: usize, i: int, d: usize)
    requires
        0 <= i < dist.len(),
    ensures
        potential(dist.update(i, d), length) + slack(dist[i], length) == potential(dist, length)
            + slack(d, length),
    decreases dist.len(),
{
    let next = dist.update(i, d);
    if i == dist.len() - 1 {
        assert(next.drop_last() =~= dist.drop_last());
    } else {
        assert(next.drop_last() =~= dist.drop_last().update(i, d));
        lemma_potential_update(dist.drop_last(), length, i, d);
    }
}

/// A walk along the tree from its root to a reached vertex.
pub proof fn lemma_tree_walk(
    g: Adjacency,
    start: usize,
    dist: Seq<usize>,
    pred: Seq<usize>,
    v: usize,
) -> (q: Seq<usize>)
    requires
        is_search_tree(g, start, dist, pred),
        v < g.len(),
        dist[v as int] != UNREACHED,
    ensures
        is_walk(g, q),
        joins(q, start, v),
        q.len() == dist[v as int] + 1,
    decreases dist[v as int],
{
    if v == start {
        seq![start]
    } else {
        let u = pred[v as int];
        let q = lemma_tree_walk(g, start, dist, pred, u);
        let r = q.push(v);
        assert forall|i: int| 0 <= i < r.len() - 1 implies adjacent(g, #[trigger] r[i], r[i + 1]) by {
            if i < q.len() - 1 {
                assert(adjacent(g, q[i], q[i + 1]));
            }
        }
        r
    }
}

/// A neighbour of a reached vertex is reached.
pub proof fn lemma_neighbor_reached(
    g: Adjacency,
    start: usize,
    dist: Seq<usize>,
    pred: Seq<usize>,
    u: usize,
    v: usize,
)
    requires
        is_search_tree(g, start, dist, pred),
        u < g.len(),
        v < g.len(),
        dist[u as int] != UNREACHED,
        adjacent(g, u, v),
        is_distance(g, start, dist, v),
    ensures
        dist[v as int] != UNREACHED,
        dist[v as int] <= dist[u as int] + 1,
{
    let q = lemma_tree_walk(g, start, dist, pred, u);
    let r = q.push(v);
    assert forall|i: int| 0 <= i < r.len() - 1 implies adjacent(g, #[trigger] r[i], r[i + 1]) by {
        if i < q.len() - 1 {
            assert(adjacent(g, q[i], q[i + 1]));
        }
    }
    assert(is_walk(g, r) && joins(r, start, v));
}

/// What holds of the search that sets out from the end. `de` records for
/// each vertex it has reached a number of steps from the end, `pe` the
/// neighbour through which it was last reached.
pub open spec fn backward_state(
    g: Adjacency,
    end: usize,
    length: usize,
    ds: Seq<usize>,
    de: Seq<usize>,
    pe: Seq<usize>,
    rank: Seq<nat>,
) -> bool {
    &&& g.len() <= usize::MAX
    &&& end < g.len()
    &&& length < g.len()
    &&& ds.len() == g.len()
    &&& de.len() == g.len()
    &&& de[end as int] == 0
    &&& pe[end as int] == UNREACHED
    &&& chained(pe, rank)
    &&& linked(g, pe)
    &&& forall|x: usize|
        x < g.len() && #[trigger] pe[x as int] != UNREACHED ==> de[x as int] != UNREACHED
            && de[pe[x as int] as int] != UNREACHED
    &&& forall|x: usize|
        x < g.len() && #[trigger] pe[x as int] == UNREACHED ==> de[x as int] == UNREACHED || x
            == end
    &&& forall|x: usize|
        x < g.len() && #[trigger] pe[x as int] != UNREACHED ==> de[x as int] <= de[pe[x as int] as int]
            + 1
    &&& forall|x: usize|
        x < g.len() && #[trigger] de[x as int] != UNREACHED ==> ds[x as int] != UNREACHED
}

/// A reached vertex is recorded no farther from the end than the table
/// leads from it.
pub proof fn lemma_recorded_bound(
    g: Adjacency,
    end: usize,
    length: usize,
    ds: Seq<usize>,
    de: Seq<usize>,
    pe: Seq<usize>,
    rank: Seq<nat>,
    x: usize,
)
    requires
        backward_state(g, end, length, ds, de, pe, rank),
        x < g.len(),
        de[x as int] != UNREACHED,
    ensures
        de[x as int] + 1 <= chain(pe, rank, x).len(),
    decreases rank[x as int],
{
    if x != end {
        assert(pe[x as int] != UNREACHED);
        lemma_recorded_bound(g, end, length, ds, de, pe, rank, pe[x as int]);
        assert(chain(pe, rank, x) =~= seq![x] + chain(pe, rank, pe[x as int]));
    }
}

/// One step beyond a reached vertex, to a vertex that it does not lead to,
/// is a number of steps that some path has.
pub proof fn lemma_step_bound(
    g: Adjacency,
    end: usize,
    length: usize,
    ds: Seq<usize>,
    de: Seq<usize>,
    pe: Seq<usize>,
    rank: Seq<nat>,
    c: usize,
    v: usize,
)
    requires
        backward_state(g, end, length, ds, de, pe, rank),
        c < g.len(),
        v < g.len(),
        de[c as int] != UNREACHED,
        !leads_to(pe, rank, c, v),
    ensures
        de[c as int] + 1 < g.len(),
{
    lemma_recorded_bound(g, end, length, ds, de, pe, rank, c);
    lemma_chain_bound(pe, rank, c, v);
}

/// Following the table from a reached vertex never meets one that was not
/// reached.
pub proof fn lemma_unreached_off_chain(
    g: Adjacency,
    end: usize,
    length: usize,
    ds: Seq<usize>,
    de: Seq<usize>,
    pe: Seq<usize>,
    rank: Seq<nat>,
    x: usize,
    v: usize,
)
    requires
        backward_state(g, end, length, ds, de, pe, rank),
        x < g.len(),
        de[x as int] != UNREACHED,
        v < g.len(),
        de[v as int] == UNREACHED,
    ensures
        !leads_to(pe, rank, x, v),
    decreases rank[x as int],
{
    if pe[x as int] != UNREACHED {
        lemma_unreached_off_chain(g, end, length, ds, de, pe, rank, pe[x as int], v);
    }
}

/// Following the table from a reached vertex leads to the end.
pub proof fn lemma_leads_to_end(
    g: Adjacency,
    end: usize,
    length: usize,
    ds: Seq<usize>,
    de: Seq<usize>,
    pe: Seq<usize>,
    rank: Seq<nat>,
    x: usize,
)
    requires
        backward_state(g, end, length, ds, de, pe, rank),
        x < g.len(),
        de[x as int] != UNREACHED,
    ensures
        leads_to(pe, rank, x, end),
    decreases rank[x as int],
{
    if x != end {
        assert(pe[x as int] != UNREACHED);
        lemma_leads_to_end(g, end, length, ds, de, pe, rank, pe[x as int]);
    }
}

/// Recording `v` as reached through its neighbour `c`, farther from the
/// end than before, keeps the state and uses up some of the potential.
pub proof fn lemma_accept(
    g: Adjacency,
    end: usize,
    length: usize,
    ds: Seq<usize>,
    de: Seq<usize>,
    pe: Seq<usize>,
    rank: Seq<nat>,
    c: usize,
    v: usize,
    next: usize,
)
    requires
        well_formed(g),
        backward_state(g, end, length, ds, de, pe, rank),
        c < g.len(),
        v < g.len(),
        adjacent(g, c, v),
        de[c as int] != UNREACHED,
        ds[v as int] != UNREACHED,
        !leads_to(pe, rank, c, v),
        v != end,
        next == de[c as int] + 1,
        de[v as int] == UNREACHED || (de[v as int] < next && next <= length),
    ensures
        backward_state(
            g,
            end,
            length,
            ds,
            de.update(v as int, next),
            pe.update(v as int, c),
            relinked_rank(pe, rank, v, c),
        ),
        potential(de.update(v as int, next), length) < potential(de, length),
{
    let de2 = de.update(v as int, next);
    let pe2 = pe.update(v as int, c);
    let rank2 = relinked_rank(pe, rank, v, c);
    lemma_relink(pe, rank, v, c);
    lemma_potential_update(de, length, v as int, next);
    lemma_step_bound(g, end, length, ds, de, pe, rank, c, v);
    assert(leads_to(pe, rank, c, c));
    assert(c != v);
    assert(g[c as int].count(v) == g[v as int].count(c));
    assert(adjacent(g, v, c));
    assert(linked(g, pe2)) by {
        assert forall|x: usize| x < g.len() && #[trigger] pe2[x as int] != UNREACHED implies pe2[x as int]
            < g.len() && adjacent(g, x, pe2[x as int]) by {
            if x != v {
                assert(pe[x as int] != UNREACHED);
            }
        }
    }
    assert forall|x: usize| x < g.len() && #[trigger] pe2[x as int] != UNREACHED implies de2[x as int]
        != UNREACHED && de2[pe2[x as int] as int] != UNREACHED by {
        if x != v {
            assert(pe[x as int] != UNREACHED);
        }
    }
    assert forall|x: usize| x < g.len() && #[trigger] pe2[x as int] == UNREACHED implies de2[x as int]
        == UNREACHED || x == end by {
        if x != v {
            assert(pe[x as int] == UNREACHED);
        }
    }
    assert forall|x: usize| x < g.len() && #[trigger] pe2[x as int] != UNREACHED implies de2[x as int]
        <= de2[pe2[x as int] as int] + 1 by {
        if x != v {
            assert(pe[x as int] != UNREACHED);
        }
    }
    assert forall|x: usize| x < g.len() && #[trigger] de2[x as int] != UNREACHED implies ds[x as int]
        != UNREACHED by {
        if x != v {
            assert(de[x as int] != UNREACHED);
        }
    }
}

/// Completes a path that leads from the start to a neighbour of `from` by
/// following `predecessor` from `from` for `steps` links. The result is
/// kept only if that ends at `end` and no vertex comes up twice.
pub(crate) fn bridge(
    Ghost(g): Ghost<Adjacency>,
    Ghost(start): Ghost<usize>,
    forward: Vec<usize>,
    predecessor: &Vec<usize>,
    from: usize,
    steps: usize,
    end: usize,
) -> (result: Option<Vec<usize>>)
    requires
        g.len() <= usize::MAX,
        linked(g, predecessor@),
        from < g.len(),
        forward@.len() > 0,
        is_path(g, forward@, start, forward@.last()),
        adjacent(g, forward@.last(), from),
    ensures
        match result {
            Some(path) => is_path(g, path@, start, end) && path@.len() == forward@.len() + steps
                + 1,
            None => true,
        },
{
    let size = predecessor.len();
    let mut used = vec![false; size];
    let mut i: usize = 0;
    while i < forward.len()
        invariant
            i <= forward@.len(),
            used@.len() == size,
            size == g.len(),
            forall|k: int| 0 <= k < forward@.len() ==> #[trigger] forward@[k] < size,
            forall|x: int| 0 <= x < size ==> (#[trigger] used@[x] <==> exists|k: int|
                0 <= k < i && forward@[k] == x),
        decreases forward@.len() - i,
    {
        let ghost before = used@;
        let vertex = forward[i];
        used[vertex] = true;
        i += 1;
        proof {
            assert forall|x: int| 0 <= x < size implies (#[trigger] used@[x] <==> exists|k: int|
                0 <= k < i && forward@[k] == x) by {
                if x == vertex {
                    assert(forward@[i - 1] == x);
                } else {
                    if before[x] {
                        let k = choose|k: int| 0 <= k < i - 1 && forward@[k] == x;
                        assert(0 <= k < i && forward@[k] == x);
                    }
                    if exists|k: int| 0 <= k < i && forward@[k] == x {
                        let k = choose|k: int| 0 <= k < i && forward@[k] == x;
                        assert(k < i - 1);
                    }
                }
            }
        }
    }
    let ghost given = forward@;
    let mut path = forward;
    let mut current = from;
    let mut remaining = steps;
    while remaining > 0
        invariant
            size == g.len(),
            used@.len() == size,
            linked(g, predecessor@),
            current < size,
            remaining <= steps,
            path@.len() == given.len() + (steps - remaining),
            is_walk(g, path@),
            path@[0] == start,
            path@.no_duplicates(),
            adjacent(g, path@.last(), current),
            forall|x: int| 0 <= x < size ==> (#[trigger] used@[x] <==> path@.contains(x as usize)),
        decreases remaining,
    {
        if used[current] {
            return None;
        }
        let ghost before = path@;
        used[current] = true;
        path.push(current);
        proof {
            lemma_extend(g, before, current, used@);
        }
        let next = predecessor[current];
        if next == UNREACHED {
            return None;
        }
        current = next;
        remaining -= 1;
    }
    if used[current] || current != end {
        return None;
    }
    let ghost before = path@;
    path.push(current);
    proof {
        lemma_extend(g, before, current, used@.update(current as int, true));
    }
    Some(path)
}

/// A path grows by a neighbour of its last vertex that is not on it.
pub proof fn lemma_extend(g: Adjacency, p: Seq<usize>, v: usize, used: Seq<bool>)
    requires
        is_walk(g, p),
        p.no_duplicates(),
        v < g.len(),
        g.len() <= usize::MAX,
        adjacent(g, p.last(), v),
        !p.contains(v),
        used.len() == g.len(),
        used[v as int],
        forall|x: int| 0 <= x < g.len() && x != v ==> (#[trigger] used[x] <==> p.contains(x as usize)),
    ensures
        is_walk(g, p.push(v)),
        p.push(v).no_duplicates(),
        p.push(v)[0] == p[0],
        forall|x: int| 0 <= x < g.len() ==> (#[trigger] used[x] <==> p.push(v).contains(x as usize)),
{
    let r = p.push(v);
    assert forall|i: int| 0 <= i < r.len() - 1 implies adjacent(g, #[trigger] r[i], r[i + 1]) by {
        if i < p.len() - 1 {
            assert(adjacent(g, p[i], p[i + 1]));
        }
    }
    assert forall|i: int| 0 <= i < r.len() implies #[trigger] r[i] < g.len() by {
        if i < p.len() {
            assert(p[i] < g.len());
        }
    }
    assert forall|i: int, j: int| 0 <= i < r.len() && 0 <= j < r.len() && i != j implies r[i]
        != r[j] by {
        if i < p.len() && j < p.len() {
        } else if i < p.len() {
            assert(p.contains(p[i]));
        } else {
            assert(p.contains(p[j]));
        }
    }
    assert forall|x: int| 0 <= x < g.len() implies (#[trigger] used[x] <==> r.contains(x as usize)) by {
        if x == v {
            assert(r[p.len() as int] == v);
        } else {
            if p.contains(x as usize) {
                let k = choose|k: int| 0 <= k < p.len() && p[k] == x as usize;
                assert(r[k] == x as usize);
            }
            if r.contains(x as usize) {
                let k = choose|k: int| 0 <= k < r.len() && r[k] == x as usize;
                assert(p[k] == x as usize);
            }
        }
    }
}

/// A path from `start` to `end` with exactly `length` edges, sought from
/// both ends: breadth first from the start, then depth first from the end
/// among the vertices that can still be joined to the start within
/// `length` edges. A joint counts only if the two halves make a path.
///
/// That search does not find every path. Where it finds none, every way
/// from the start is tried, so that `None` comes only where no such path
/// exists.
pub fn fixed_length_bfs(graph: &Graph, start: usize, end: usize, length: usize) -> (result: Option<
    Vec<usize>,
>)
    requires
        graph.wf(),
        start < graph.size,
        end < graph.size,
        length < graph.size,
    ensures
        match result {
            Some(path) => is_path(graph@, path@, start, end) && path@.len() == length + 1,
            None => !has_path(graph@, start, end, length as int),
        },
{
    let ghost g = graph@;
    if length == 0 {
        if start == end {
            let mut path: Vec<usize> = Vec::new();
            path.push(start);
            return Some(path);
        } else {
            proof {
                if has_path(g, start, end, 0) {
                    let p = choose|p: Seq<usize>| #[trigger]
                        is_path(g, p, start, end) && p.len() == 1;
                    assert(p.first() == p.last());
                }
            }
            return None;
        }
    }
    let (distance_to_start, predecessor_from_start) = breadth_first(graph, start, None);
    if distance_to_start[end] == UNREACHED {
        proof {
            assert(is_distance(g, start, distance_to_start@, end));
            if has_path(g, start, end, length as int) {
                let p = choose|p: Seq<usize>| #[trigger]
                    is_path(g, p, start, end) && p.len() == length + 1;
                assert(is_walk(g, p) && joins(p, start, end));
            }
        }
        return None;
    }
    let size = graph.size;
    let mut predecessor_from_end = vec![UNREACHED; size];
    let mut distance_to_end = vec![UNREACHED; size];
    let mut stack: Vec<usize> = Vec::new();
    distance_to_end[end] = 0;
    stack.push(end);
    let ghost mut rank: Seq<nat> = Seq::new(size as nat, |i: int| 0nat);
    proof {
        assert(is_distance(g, start, distance_to_start@, end));
    }
    while stack.len() > 0
        invariant
            graph.wf(),
            g == graph@,
            size == graph.size,
            start < size,
            end < size,
            0 < length < size,
            is_search_tree(g, start, distance_to_start@, predecessor_from_start@),
            forall|t: usize| t < size ==> is_distance(g, start, distance_to_start@, t),
            backward_state(
                g,
                end,
                length,
                distance_to_start@,
                distance_to_end@,
                predecessor_from_end@,
                rank,
            ),
            forall|k: int|
                0 <= k < stack@.len() ==> #[trigger] stack@[k] < size && distance_to_end@[stack@[k] as int]
                    != UNREACHED,
        decreases potential(distance_to_end@, length), stack@.len(),
    {
        let current = stack.pop().unwrap();
        let neighbors = graph.get_neighbors(current);
        let ghost phi0 = potential(distance_to_end@, length);
        let ghost len0 = stack@.len();
        let mut j: usize = 0;
        while j < neighbors.len()
            invariant
                graph.wf(),
                g == graph@,
                size == graph.size,
                start < size,
                end < size,
                0 < length < size,
                is_search_tree(g, start, distance_to_start@, predecessor_from_start@),
                forall|t: usize| t < size ==> is_distance(g, start, distance_to_start@, t),
                backward_state(
                    g,
                    end,
                    length,
                    distance_to_start@,
                    distance_to_end@,
                    predecessor_from_end@,
                    rank,
                ),
                forall|k: int|
                    0 <= k < stack@.len() ==> #[trigger] stack@[k] < size && distance_to_end@[stack@[k] as int]
                        != UNREACHED,
                current < size,
                distance_to_end@[current as int] != UNREACHED,
                neighbors@.to_multiset() == g[current as int],
                forall|k: int| 0 <= k < neighbors@.len() ==> #[trigger] neighbors@[k] < size,
                0 <= j <= neighbors@.len(),
                potential(distance_to_end@, length) <= phi0,
                potential(distance_to_end@, length) == phi0 ==> stack@.len() == len0,
            decreases neighbors@.len() - j,
        {
            let vertex = neighbors[j];
            let reach = distance_to_end[current];
            let seen = distance_to_end[vertex];
            proof {
                to_multiset_contains(neighbors@, vertex);
                assert(neighbors@.contains(neighbors@[j as int]));
                assert(adjacent(g, current, vertex));
                assert(!adjacent(g, current, current));
                assert(is_distance(g, start, distance_to_start@, vertex));
                lemma_neighbor_reached(
                    g,
                    start,
                    distance_to_start@,
                    predecessor_from_start@,
                    current,
                    vertex,
                );
            }
            let accept = if seen == UNREACHED {
                true
            } else if reach >= seen && distance_to_start[vertex] <= length && reach < length
                - distance_to_start[vertex] {
                !in_path(&predecessor_from_end, current, vertex, Ghost(rank))
            } else {
                false
            };
            if accept {
                proof {
                    if seen == UNREACHED {
                        lemma_unreached_off_chain(
                            g,
                            end,
                            length,
                            distance_to_start@,
                            distance_to_end@,
                            predecessor_from_end@,
                            rank,
                            current,
                            vertex,
                        );
                    } else {
                        lemma_leads_to_end(
                            g,
                            end,
                            length,
                            distance_to_start@,
                            distance_to_end@,
                            predecessor_from_end@,
                            rank,
                            current,
                        );
                    }
                    assert(!leads_to(predecessor_from_end@, rank, current, vertex));
                    assert(vertex != end);
                    lemma_step_bound(
                        g,
                        end,
                        length,
                        distance_to_start@,
                        distance_to_end@,
                        predecessor_from_end@,
                        rank,
                        current,
                        vertex,
                    );
                }
                let next = reach + 1;
                proof {
                    lemma_accept(
                        g,
                        end,
                        length,
                        distance_to_start@,
                        distance_to_end@,
                        predecessor_from_end@,
                        rank,
                        current,
                        vertex,
                        next,
                    );
                    rank = relinked_rank(predecessor_from_end@, rank, vertex, current);
                }
                distance_to_end[vertex] = next;
                predecessor_from_end[vertex] = current;
                if distance_to_start[vertex] <= length && next == length
                    - distance_to_start[vertex] {
                    let forward = path_from_root(
                        Ghost(g),
                        Ghost(start),
                        &distance_to_start,
                        &predecessor_from_start,
                        vertex,
                    );
                    proof {
                        assert(g[current as int].count(vertex) == g[vertex as int].count(current));
                    }
                    let found = bridge(
                        Ghost(g),
                        Ghost(start),
                        forward,
                        &predecessor_from_end,
                        current,
                        reach,
                        end,
                    );
                    if found.is_some() {
                        return found;
                    }
                }
                stack.push(vertex);
            }
            j += 1;
        }
    }
    exhaustive_path(graph, start, end, length)
}

} // verus!
