//! The exhaustive search for a path with an exact number of edges: every
//! way of going on is tried, but for those that lead too far from the end.

use vstd::prelude::*;
use vstd::seq_lib::*;
use crate::chain::UNREACHED;
use crate::fixed::lemma_extend;
use crate::graph::{adjacent, well_formed, Adjacency, Graph};
use crate::path::{breadth_first, is_distance};
use crate::walk::{has_path, is_path, is_walk, joins};

verus! {

/// `p` is a path that begins with `prefix`, goes on for `remaining` more
/// edges and ends at `end`.
pub open spec fn completes(
    g: Adjacency,
    prefix: Seq<usize>,
    end: usize,
    remaining: int,
    p: Seq<usize>,
) -> bool {
    &&& is_walk(g, p)
    &&& p.no_duplicates()
    &&& p.len() == prefix.len() + remaining
    &&& p.last() == end
    &&& p.subrange(0, prefix.len() as int) == prefix
}

/// A walk read backwards is a walk, where each edge is recorded at both
/// of its ends.
pub proof fn lemma_walk_reversed(g: Adjacency, p: Seq<usize>)
    requires
        well_formed(g),
        is_walk(g, p),
    ensures
        is_walk(g, p.reverse()),
        joins(p.reverse(), p.last(), p.first()),
{
    let r = p.reverse();
    assert forall|i: int| 0 <= i < r.len() implies #[trigger] r[i] < g.len() by {
        assert(p[p.len() - 1 - i] < g.len());
    }
    assert forall|i: int| 0 <= i < r.len() - 1 implies adjacent(g, #[trigger] r[i], r[i + 1]) by {
        let k = p.len() - 2 - i;
        assert(adjacent(g, p[k], p[k + 1]));
        assert(p[k] < g.len());
        assert(p[k + 1] < g.len());
        assert(g[p[k] as int].count(p[k + 1]) == g[p[k + 1] as int].count(p[k]));
    }
}

/// The vertex by which a completion goes on from the prefix lies within
/// `remaining - 1` edges of the end.
pub proof fn lemma_completion_near(
    g: Adjacency,
    prefix: Seq<usize>,
    end: usize,
    remaining: int,
    p: Seq<usize>,
    dist: Seq<usize>,
)
    requires
        well_formed(g),
        prefix.len() > 0,
        remaining >= 1,
        completes(g, prefix, end, remaining, p),
        is_distance(g, end, dist, p[prefix.len() as int]),
    ensures
        dist[p[prefix.len() as int] as int] != UNREACHED,
        dist[p[prefix.len() as int] as int] <= remaining - 1,
{
    let n = prefix.len() as int;
    let tail = p.subrange(n, p.len() as int);
    assert(is_walk(g, tail)) by {
        assert forall|i: int| 0 <= i < tail.len() implies #[trigger] tail[i] < g.len() by {
            assert(p[n + i] < g.len());
        }
        assert forall|i: int| 0 <= i < tail.len() - 1 implies adjacent(
            g,
            #[trigger] tail[i],
            tail[i + 1],
        ) by {
            assert(adjacent(g, p[n + i], p[n + i + 1]));
        }
    }
    lemma_walk_reversed(g, tail);
    let back = tail.reverse();
    assert(is_walk(g, back) && joins(back, end, p[n]));
}

/// Seeks a way to go on from `path` for `remaining` more edges to `end`
/// without meeting a vertex twice. Where there is one, `path` holds it
/// afterwards; where there is none, `path` and `used` are as before.
pub fn extend(
    graph: &Graph,
    distance_to_end: &Vec<usize>,
    path: &mut Vec<usize>,
    used: &mut Vec<bool>,
    end: usize,
    remaining: usize,
) -> (found: bool)
    requires
        graph.wf(),
        end < graph.size,
        distance_to_end@.len() == graph.size,
        forall|t: usize| t < graph.size ==> is_distance(graph@, end, distance_to_end@, t),
        is_walk(graph@, old(path)@),
        old(path)@.no_duplicates(),
        old(used)@.len() == graph.size,
        forall|x: int|
            0 <= x < graph.size ==> (#[trigger] old(used)@[x] <==> old(path)@.contains(x as usize)),
    ensures
        found ==> completes(graph@, old(path)@, end, remaining as int, final(path)@),
        !found ==> final(path)@ == old(path)@ && final(used)@ == old(used)@,
        !found ==> forall|p: Seq<usize>|
            !#[trigger] completes(graph@, old(path)@, end, remaining as int, p),
    decreases remaining,
{
    let ghost g = graph@;
    let ghost prefix = path@;
    let ghost marks = used@;
    let count = path.len();
    let last = path[count - 1];
    if remaining == 0 {
        proof {
            assert(prefix.subrange(0, prefix.len() as int) =~= prefix);
            if last != end {
                assert forall|p: Seq<usize>| !#[trigger] completes(g, prefix, end, 0, p) by {
                    if completes(g, prefix, end, 0, p) {
                        assert(p.subrange(0, prefix.len() as int) =~= p);
                    }
                }
            }
        }
        return last == end;
    }
    assert(last < graph.size) by {
        assert(prefix[count - 1] < g.len());
    }
    let neighbors = graph.get_neighbors(last);
    let mut j: usize = 0;
    while j < neighbors.len()
        invariant
            graph.wf(),
            g == graph@,
            end < graph.size,
            remaining > 0,
            distance_to_end@.len() == graph.size,
            forall|t: usize| t < graph.size ==> is_distance(g, end, distance_to_end@, t),
            path@ == prefix,
            used@ == marks,
            prefix == old(path)@,
            marks == old(used)@,
            count == prefix.len(),
            count > 0,
            last == prefix[count - 1],
            is_walk(g, prefix),
            prefix.no_duplicates(),
            marks.len() == graph.size,
            forall|x: int| 0 <= x < graph.size ==> (#[trigger] marks[x] <==> prefix.contains(x as usize)),
            0 <= j <= neighbors@.len(),
            neighbors@.to_multiset() == g[last as int],
            forall|k: int| 0 <= k < neighbors@.len() ==> #[trigger] neighbors@[k] < graph.size,
            forall|p: Seq<usize>, k: int|
                #[trigger] completes(g, prefix, end, remaining as int, p) && 0 <= k < j
                    ==> p[count as int] != #[trigger] neighbors@[k],
        decreases neighbors@.len() - j,
    {
        let vertex = neighbors[j];
        let reach = distance_to_end[vertex];
        if !used[vertex] && reach != UNREACHED && reach < remaining {
            proof {
                to_multiset_contains(neighbors@, vertex);
                assert(neighbors@.contains(neighbors@[j as int]));
                assert(adjacent(g, last, vertex));
            }
            used[vertex] = true;
            path.push(vertex);
            proof {
                lemma_extend(g, prefix, vertex, used@);
            }
            if extend(graph, distance_to_end, path, used, end, remaining - 1) {
                proof {
                    let whole = path@;
                    assert(whole.subrange(0, count + 1) == prefix.push(vertex));
                    assert(whole.subrange(0, count as int) =~= prefix) by {
                        assert forall|i: int| 0 <= i < count implies whole[i] == prefix[i] by {
                            assert(whole.subrange(0, count + 1)[i] == prefix.push(vertex)[i]);
                        }
                    }
                }
                return true;
            }
            path.pop();
            used[vertex] = false;
            proof {
                assert(path@ =~= prefix);
                assert(used@ =~= marks);
                assert forall|p: Seq<usize>|
                    #[trigger] completes(g, prefix, end, remaining as int, p) implies p[count as int]
                    != vertex by {
                    if p[count as int] == vertex {
                        assert(p.subrange(0, count + 1) =~= prefix.push(vertex)) by {
                            assert forall|i: int| 0 <= i < count implies p[i] == prefix[i] by {
                                assert(p.subrange(0, count as int)[i] == prefix[i]);
                            }
                        }
                        assert(completes(g, prefix.push(vertex), end, remaining - 1, p));
                    }
                }
            }
        } else {
            proof {
                assert forall|p: Seq<usize>|
                    #[trigger] completes(g, prefix, end, remaining as int, p) implies p[count as int]
                    != vertex by {
                    if p[count as int] == vertex {
                        if used@[vertex as int] {
                            let i = choose|i: int| 0 <= i < prefix.len() && prefix[i] == vertex;
                            assert(p.subrange(0, count as int)[i] == prefix[i]);
                            assert(p[i] == p[count as int]);
                        } else {
                            assert(is_distance(g, end, distance_to_end@, vertex));
                            lemma_completion_near(
                                g,
                                prefix,
                                end,
                                remaining as int,
                                p,
                                distance_to_end@,
                            );
                        }
                    }
                }
            }
        }
        j += 1;
    }
    proof {
        assert forall|p: Seq<usize>| !#[trigger] completes(g, prefix, end, remaining as int, p) by {
            if completes(g, prefix, end, remaining as int, p) {
                assert(p.subrange(0, count as int)[count - 1] == prefix[count - 1]);
                assert(adjacent(g, p[count - 1], p[count - 1 + 1]));
                let next = p[count as int];
                to_multiset_contains(neighbors@, next);
                let k = choose|k: int| 0 <= k < neighbors@.len() && neighbors@[k] == next;
                assert(p[count as int] != neighbors@[k]);
            }
        }
    }
    false
}

/// A path from `start` to `end` with exactly `length` edges, sought by
/// trying every way of going on; `None` exactly where there is no such
/// path.
pub fn exhaustive_path(graph: &Graph, start: usize, end: usize, length: usize) -> (result: Option<
    Vec<usize>,
>)
    requires
        graph.wf(),
        start < graph.size,
        end < graph.size,
    ensures
        match result {
            Some(path) => is_path(graph@, path@, start, end) && path@.len() == length + 1,
            None => !has_path(graph@, start, end, length as int),
        },
{
    let (distance_to_end, _) = breadth_first(graph, end, None);
    let mut used = vec![false; graph.size];
    used[start] = true;
    let mut path: Vec<usize> = Vec::new();
    path.push(start);
    let ghost prefix = path@;
    proof {
        assert forall|x: int| 0 <= x < graph.size implies (#[trigger] used@[x] <==> prefix.contains(
            x as usize,
        )) by {
            if x == start {
                assert(prefix[0] == start);
            }
        }
    }
    if extend(graph, &distance_to_end, &mut path, &mut used, end, length) {
        proof {
            assert(path@.subrange(0, 1)[0] == prefix[0]);
        }
        Some(path)
    } else {
        proof {
            if has_path(graph@, start, end, length as int) {
                let p = choose|p: Seq<usize>| #[trigger]
                    is_path(graph@, p, start, end) && p.len() == length + 1;
                assert(p.subrange(0, 1) =~= prefix);
                assert(completes(graph@, prefix, end, length as int, p));
            }
        }
        None
    }
}

} // verus!
