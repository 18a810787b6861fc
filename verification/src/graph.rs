//! The graph: one neighbour list per vertex, with edges that can be taken
//! out and put back, and its content as adjacency multisets.

use vstd::prelude::*;
use vstd::multiset::*;
use vstd::seq_lib::*;
use crate::sampling::UniformRng;

verus! {

/// The mathematical content of a graph: for each vertex, the multiset of its
/// neighbours. An undirected edge {u, v} occurs once in `g[u]` and once in
/// `g[v]`; parallel edges raise both counts together.
pub type Adjacency = Seq<Multiset<usize>>;

/// `v` is a neighbour of `u`.
pub open spec fn adjacent(g: Adjacency, u: usize, v: usize) -> bool {
    u < g.len() && g[u as int].count(v) > 0
}

/// Every neighbour is a vertex of the graph.
pub open spec fn in_range(g: Adjacency) -> bool {
    forall|u: usize, v: usize| #[trigger] adjacent(g, u, v) ==> v < g.len()
}

/// Each edge is recorded at both of its ends, as often at one as at the other.
pub open spec fn symmetric(g: Adjacency) -> bool {
    forall|u: usize, v: usize|
        u < g.len() && v < g.len() ==> #[trigger] g[u as int].count(v) == g[v as int].count(u)
}

/// No vertex is its own neighbour.
pub open spec fn loop_free(g: Adjacency) -> bool {
    forall|u: usize| u < g.len() ==> !#[trigger] adjacent(g, u, u)
}

/// The invariant of an undirected multigraph without self-loops.
pub open spec fn well_formed(g: Adjacency) -> bool {
    &&& g.len() <= usize::MAX
    &&& in_range(g)
    &&& symmetric(g)
    &&& loop_free(g)
}

/// The graph `g` with one more edge between `a` and `b`.
pub open spec fn with_edge(g: Adjacency, a: usize, b: usize) -> Adjacency {
    let h = g.update(a as int, g[a as int].insert(b));
    h.update(b as int, h[b as int].insert(a))
}

/// The graph `g` with one more edge between `v` and each entry of `ns`.
pub open spec fn with_edges(g: Adjacency, v: usize, ns: Seq<usize>) -> Adjacency
    decreases ns.len(),
{
    if ns.len() == 0 {
        g
    } else {
        with_edge(with_edges(g, v, ns.drop_last()), v, ns.last())
    }
}

/// The graph `g` without any edge that touches `v`.
pub open spec fn detached(g: Adjacency, v: usize) -> Adjacency {
    Seq::new(
        g.len(),
        |u: int|
            if u == v {
                Multiset::empty()
            } else {
                g[u].update(v, 0)
            },
    )
}

/// The graph `g` without any edge between `a` and `b`.
pub open spec fn without_edge(g: Adjacency, a: usize, b: usize) -> Adjacency {
    let h = g.update(a as int, g[a as int].update(b, 0));
    h.update(b as int, h[b as int].update(a, 0))
}

/// The graph `g` with `n` more edges between `a` and `b`.
pub open spec fn with_parallel_edges(g: Adjacency, a: usize, b: usize, n: nat) -> Adjacency
    decreases n,
{
    if n == 0 {
        g
    } else {
        with_edge(with_parallel_edges(g, a, b, (n - 1) as nat), a, b)
    }
}

/// How often `x` occurs in `s`.
pub open spec fn occurrences(s: Seq<usize>, x: usize) -> nat {
    s.to_multiset().count(x)
}

/// Nothing occurs in the empty sequence.
pub proof fn lemma_occurrences_empty(x: usize)
    ensures
        occurrences(Seq::<usize>::empty(), x) == 0,
{
    broadcast use group_to_multiset_ensures;
    Seq::<usize>::empty().to_multiset_ensures();
    assert(!Seq::<usize>::empty().contains(x));
}

/// Appending `y` adds one occurrence of `y` and none of anything else.
pub proof fn lemma_occurrences_push(s: Seq<usize>, y: usize, x: usize)
    ensures
        occurrences(s.push(y), x) == occurrences(s, x) + if x == y { 1nat } else { 0nat },
{
    to_multiset_build(s, y);
}

/// The first entry accounts for one occurrence of its value.
pub proof fn lemma_occurrences_drop_first(s: Seq<usize>, x: usize)
    requires
        s.len() > 0,
    ensures
        occurrences(s, x) == occurrences(s.drop_first(), x) + if x == s[0] { 1nat } else { 0nat },
{
    to_multiset_remove(s, 0);
    assert(s.remove(0) =~= s.drop_first());
    to_multiset_contains(s, s[0]);
    assert(s.contains(s[0]));
}

/// What occurs in a sequence is what the sequence contains.
pub proof fn lemma_occurrences_contains(s: Seq<usize>, x: usize)
    ensures
        occurrences(s, x) > 0 <==> s.contains(x),
{
    to_multiset_contains(s, x);
}

/// What `swap_remove` leaves is the old content less one copy of the removed entry.
pub proof fn lemma_swap_remove(s: Seq<usize>, i: int)
    requires
        0 <= i < s.len(),
    ensures
        s.update(i, s.last()).drop_last().to_multiset() == s.to_multiset().remove(s[i]),
{
    let t = s.update(i, s.last()).drop_last();
    if i == s.len() - 1 {
        assert(t =~= s.remove(i));
        to_multiset_remove(s, i);
    } else {
        let r = s.remove(i);
        // r still ends with s.last(); moving that entry to position i gives t
        let last = s.len() - 2;
        assert(r[last] == s.last());
        assert(r.remove(last).insert(i, s.last()) =~= t);
        to_multiset_remove(s, i);
        to_multiset_remove(r, last);
        to_multiset_insert(r.remove(last), i, s.last());
        to_multiset_contains(r, s.last());
        assert(r.contains(r[last]));
        assert(t.to_multiset() =~= s.to_multiset().remove(s[i]));
    }
}

/// A new edge between `a` and `b` raises the count of `b` at `a` and of
/// `a` at `b` by one and leaves every other count.
pub proof fn lemma_with_edge_count(g: Adjacency, a: usize, b: usize, u: usize, w: usize)
    requires
        a < g.len(),
        b < g.len(),
        u < g.len(),
    ensures
        with_edge(g, a, b).len() == g.len(),
        with_edge(g, a, b)[u as int].count(w) == g[u as int].count(w) + (if u == a && w == b {
            1nat
        } else {
            0nat
        }) + (if u == b && w == a {
            1nat
        } else {
            0nat
        }),
{
}

/// A new edge between two different vertices keeps the invariant.
pub proof fn lemma_with_edge_well_formed(g: Adjacency, a: usize, b: usize)
    requires
        well_formed(g),
        a < g.len(),
        b < g.len(),
        a != b,
    ensures
        well_formed(with_edge(g, a, b)),
        with_edge(g, a, b).len() == g.len(),
{
    let h = with_edge(g, a, b);
    assert forall|u: usize, v: usize| #[trigger] adjacent(h, u, v) implies v < h.len() by {
        lemma_with_edge_count(g, a, b, u, v);
        if !(u == a && v == b) && !(u == b && v == a) {
            assert(adjacent(g, u, v));
        }
    }
    assert forall|u: usize, v: usize| u < h.len() && v < h.len() implies #[trigger] h[u as int].count(
        v,
    ) == h[v as int].count(u) by {
        lemma_with_edge_count(g, a, b, u, v);
        lemma_with_edge_count(g, a, b, v, u);
        assert(g[u as int].count(v) == g[v as int].count(u));
    }
    assert forall|u: usize| u < h.len() implies !#[trigger] adjacent(h, u, u) by {
        lemma_with_edge_count(g, a, b, u, u);
        assert(!adjacent(g, u, u));
    }
}

/// Detaching `v` brings every count at `v` and of `v` to zero and leaves
/// every other count.
pub proof fn lemma_detached_count(g: Adjacency, v: usize, u: usize, w: usize)
    requires
        u < g.len(),
    ensures
        detached(g, v).len() == g.len(),
        detached(g, v)[u as int].count(w) == if u == v || w == v {
            0nat
        } else {
            g[u as int].count(w)
        },
{
    broadcast use group_multiset_axioms;
    if u != v {
        if w == v {
            lemma_update_same(g[u as int], v, 0);
        } else {
            lemma_update_different(g[u as int], v, 0, w);
        }
    }
}

/// Detaching a vertex keeps the invariant.
pub proof fn lemma_detached_well_formed(g: Adjacency, v: usize)
    requires
        well_formed(g),
    ensures
        well_formed(detached(g, v)),
        detached(g, v).len() == g.len(),
{
    let h = detached(g, v);
    assert forall|u: usize, w: usize| #[trigger] adjacent(h, u, w) implies w < h.len() by {
        lemma_detached_count(g, v, u, w);
        assert(adjacent(g, u, w));
    }
    assert forall|u: usize, w: usize| u < h.len() && w < h.len() implies #[trigger] h[u as int].count(
        w,
    ) == h[w as int].count(u) by {
        lemma_detached_count(g, v, u, w);
        lemma_detached_count(g, v, w, u);
        assert(g[u as int].count(w) == g[w as int].count(u));
    }
    assert forall|u: usize| u < h.len() implies !#[trigger] adjacent(h, u, u) by {
        lemma_detached_count(g, v, u, u);
        assert(!adjacent(g, u, u));
    }
}

/// The first position of `value` in `list`.
pub fn position_of(list: &Vec<usize>, value: usize) -> (index: usize)
    requires
        list@.contains(value),
    ensures
        index < list@.len(),
        list@[index as int] == value,
        forall|j: int| 0 <= j < index ==> list@[j] != value,
{
    let mut i: usize = 0;
    while i < list.len() && list[i] != value
        invariant
            i <= list@.len(),
            list@.contains(value),
            forall|j: int| 0 <= j < i ==> list@[j] != value,
        decreases list@.len() - i,
    {
        i += 1;
    }
    i
}

/// New edges from `v` to the entries of `ns` raise the count of `w` at `v`,
/// and of `v` at `w`, by the number of times that `w` occurs in `ns`.
pub proof fn lemma_with_edges_count(g: Adjacency, v: usize, ns: Seq<usize>, u: usize, w: usize)
    requires
        v < g.len(),
        forall|j: int| 0 <= j < ns.len() ==> ns[j] < g.len(),
        u < g.len(),
    ensures
        with_edges(g, v, ns).len() == g.len(),
        with_edges(g, v, ns)[u as int].count(w) == g[u as int].count(w) + (if u == v {
            occurrences(ns, w)
        } else {
            0nat
        }) + (if w == v {
            occurrences(ns, u)
        } else {
            0nat
        }),
    decreases ns.len(),
{
    if ns.len() == 0 {
        assert(ns =~= Seq::<usize>::empty());
        lemma_occurrences_empty(w);
        lemma_occurrences_empty(u);
    } else {
        let init = ns.drop_last();
        lemma_with_edges_count(g, v, init, u, w);
        lemma_with_edge_count(with_edges(g, v, init), v, ns.last(), u, w);
        assert(init.push(ns.last()) =~= ns);
        lemma_occurrences_push(init, ns.last(), w);
        lemma_occurrences_push(init, ns.last(), u);
    }
}

/// Removing the edges between `a` and `b` brings the count of `b` at `a`
/// and of `a` at `b` to zero and leaves every other count.
pub proof fn lemma_without_edge_count(g: Adjacency, a: usize, b: usize, u: usize, w: usize)
    requires
        a < g.len(),
        b < g.len(),
        u < g.len(),
    ensures
        without_edge(g, a, b).len() == g.len(),
        without_edge(g, a, b)[u as int].count(w) == if (u == a && w == b) || (u == b && w == a) {
            0nat
        } else {
            g[u as int].count(w)
        },
{
    broadcast use group_multiset_axioms;
    let h = g.update(a as int, g[a as int].update(b, 0));
    if w == b {
        lemma_update_same(g[a as int], b, 0);
    } else {
        lemma_update_different(g[a as int], b, 0, w);
    }
    if w == a {
        lemma_update_same(h[b as int], a, 0);
    } else {
        lemma_update_different(h[b as int], a, 0, w);
    }
}

/// Removing the edges between two vertices keeps the invariant.
pub proof fn lemma_without_edge_well_formed(g: Adjacency, a: usize, b: usize)
    requires
        well_formed(g),
        a < g.len(),
        b < g.len(),
    ensures
        well_formed(without_edge(g, a, b)),
        without_edge(g, a, b).len() == g.len(),
{
    let h = without_edge(g, a, b);
    assert forall|u: usize, w: usize| #[trigger] adjacent(h, u, w) implies w < h.len() by {
        lemma_without_edge_count(g, a, b, u, w);
        assert(adjacent(g, u, w));
    }
    assert forall|u: usize, w: usize| u < h.len() && w < h.len() implies #[trigger] h[u as int].count(
        w,
    ) == h[w as int].count(u) by {
        lemma_without_edge_count(g, a, b, u, w);
        lemma_without_edge_count(g, a, b, w, u);
        assert(g[u as int].count(w) == g[w as int].count(u));
    }
    assert forall|u: usize| u < h.len() implies !#[trigger] adjacent(h, u, u) by {
        lemma_without_edge_count(g, a, b, u, u);
        assert(!adjacent(g, u, u));
    }
}

/// `n` new edges between `a` and `b` raise the count of `b` at `a` and of
/// `a` at `b` by `n` and leave every other count.
pub proof fn lemma_with_parallel_edges_count(
    g: Adjacency,
    a: usize,
    b: usize,
    n: nat,
    u: usize,
    w: usize,
)
    requires
        a < g.len(),
        b < g.len(),
        u < g.len(),
    ensures
        with_parallel_edges(g, a, b, n).len() == g.len(),
        with_parallel_edges(g, a, b, n)[u as int].count(w) == g[u as int].count(w) + (if u == a && w
            == b {
            n
        } else {
            0nat
        }) + (if u == b && w == a {
            n
        } else {
            0nat
        }),
    decreases n,
{
    if n > 0 {
        lemma_with_parallel_edges_count(g, a, b, (n - 1) as nat, u, w);
        lemma_with_edge_count(with_parallel_edges(g, a, b, (n - 1) as nat), a, b, u, w);
    }
}

/// Two graphs on the same vertices with the same count for every ordered
/// pair are the same graph.
pub proof fn lemma_same_counts(g: Adjacency, h: Adjacency)
    requires
        g.len() == h.len(),
        g.len() <= usize::MAX,
        forall|u: usize, w: usize| u < g.len() ==> g[u as int].count(w) == h[u as int].count(w),
    ensures
        g == h,
{
    assert forall|u: int| 0 <= u < g.len() implies g[u] =~= h[u] by {
        assert forall|w: usize| g[u].count(w) == h[u].count(w) by {
            assert(g[u as usize as int].count(w) == h[u as usize as int].count(w));
        }
    }
    assert(g =~= h);
}

/// Removing every edge of a vertex and then adding an edge to each
/// neighbour it had gives the graph back, whatever the order in which the
/// neighbours are listed.
pub proof fn lemma_detach_then_restore(g: Adjacency, v: usize, ns: Seq<usize>)
    requires
        well_formed(g),
        v < g.len(),
        ns.to_multiset() == g[v as int],
    ensures
        with_edges(detached(g, v), v, ns) == g,
{
    let d = detached(g, v);
    let h = with_edges(d, v, ns);
    assert forall|j: int| 0 <= j < ns.len() implies ns[j] < d.len() by {
        to_multiset_contains(ns, ns[j]);
        assert(ns.contains(ns[j]));
        assert(adjacent(g, v, ns[j]));
    }
    lemma_detached_count(g, v, v, v);
    lemma_with_edges_count(d, v, ns, v, v);
    assert forall|u: usize, w: usize| u < g.len() implies h[u as int].count(w) == g[u as int].count(
        w,
    ) by {
        lemma_detached_count(g, v, u, w);
        lemma_with_edges_count(d, v, ns, u, w);
        assert(!adjacent(g, v, v));
        if w == v && u != v {
            assert(g[u as int].count(v) == g[v as int].count(u));
        }
    }
    lemma_same_counts(h, g);
}

/// Adding edges at a vertex and then removing every edge of that vertex
/// leaves what removing alone would have left.
pub proof fn lemma_restore_then_detach(g: Adjacency, v: usize, ns: Seq<usize>)
    requires
        g.len() <= usize::MAX,
        v < g.len(),
        forall|j: int| 0 <= j < ns.len() ==> ns[j] < g.len(),
    ensures
        detached(with_edges(g, v, ns), v) == detached(g, v),
{
    let r = with_edges(g, v, ns);
    lemma_with_edges_count(g, v, ns, v, v);
    assert forall|u: usize, w: usize| u < g.len() implies detached(r, v)[u as int].count(w)
        == detached(g, v)[u as int].count(w) by {
        lemma_with_edges_count(g, v, ns, u, w);
        lemma_detached_count(r, v, u, w);
        lemma_detached_count(g, v, u, w);
    }
    lemma_same_counts(detached(r, v), detached(g, v));
}

/// Removing the edges between two vertices and adding as many again gives
/// the graph back.
pub proof fn lemma_remove_then_restore_edge(g: Adjacency, a: usize, b: usize)
    requires
        well_formed(g),
        a < g.len(),
        b < g.len(),
        a != b,
    ensures
        with_parallel_edges(without_edge(g, a, b), a, b, g[a as int].count(b)) == g,
{
    let d = without_edge(g, a, b);
    let n = g[a as int].count(b);
    let h = with_parallel_edges(d, a, b, n);
    lemma_without_edge_count(g, a, b, a, b);
    lemma_with_parallel_edges_count(d, a, b, n, a, b);
    assert(g[a as int].count(b) == g[b as int].count(a));
    assert forall|u: usize, w: usize| u < g.len() implies h[u as int].count(w) == g[u as int].count(
        w,
    ) by {
        lemma_without_edge_count(g, a, b, u, w);
        lemma_with_parallel_edges_count(d, a, b, n, u, w);
    }
    lemma_same_counts(h, g);
}

/// Removes every copy of `value` from `list` and says how many there were.
/// Each time the first copy is taken out and the last entry moves into its
/// place.
pub fn remove_all(list: &mut Vec<usize>, value: usize) -> (removed: usize)
    ensures
        final(list)@.to_multiset() == old(list)@.to_multiset().update(value, 0),
        removed == occurrences(old(list)@, value),
        final(list)@ == swapped_out(old(list)@, value, removed as nat),
{
    let mut removed: usize = 0;
    let mut i: usize = 0;
    let ghost start = list@.to_multiset();
    let total = list.len();
    while i < list.len()
        invariant
            list@ == swapped_out(old(list)@, value, removed as nat),
            i <= list@.len(),
            forall|j: int| 0 <= j < i ==> list@[j] != value,
            forall|w: usize| w != value ==> list@.to_multiset().count(w) == start.count(w),
            list@.to_multiset().count(value) + removed == start.count(value),
            removed + list@.len() <= total,
        decreases list@.len() - i,
    {
        if list[i] == value {
            proof {
                broadcast use group_multiset_axioms;
                lemma_swap_remove(list@, i as int);
                to_multiset_contains(list@, value);
                assert(list@.contains(list@[i as int]));
                lemma_first_index(list@, value, i as int);
            }
            list.swap_remove(i);
            removed += 1;
        } else {
            i += 1;
        }
    }
    proof {
        to_multiset_contains(list@, value);
        assert(!list@.contains(value));
        assert forall|w: usize| list@.to_multiset().count(w) == start.update(value, 0).count(w) by {
            if w == value {
                lemma_update_same(start, value, 0);
            } else {
                lemma_update_different(start, value, 0, w);
            }
        }
        assert(list@.to_multiset() =~= start.update(value, 0));
    }
    removed
}

/// The number of entries of all neighbour lists together: two for each edge.
pub open spec fn entries(g: Adjacency) -> nat
    decreases g.len(),
{
    if g.len() == 0 {
        0
    } else {
        entries(g.drop_last()) + g.last().len()
    }
}

/// Replacing one neighbour multiset changes the number of entries by the
/// difference of the two sizes.
pub proof fn lemma_entries_update(g: Adjacency, i: int, m: Multiset<usize>)
    requires
        0 <= i < g.len(),
    ensures
        entries(g.update(i, m)) + g[i].len() == entries(g) + m.len(),
    decreases g.len(),
{
    let h = g.update(i, m);
    if i == g.len() - 1 {
        assert(h.drop_last() =~= g.drop_last());
    } else {
        assert(h.drop_last() =~= g.drop_last().update(i, m));
        lemma_entries_update(g.drop_last(), i, m);
    }
}

/// A new edge makes two entries.
pub proof fn lemma_with_edge_entries(g: Adjacency, a: usize, b: usize)
    requires
        a < g.len(),
        b < g.len(),
    ensures
        entries(with_edge(g, a, b)) == entries(g) + 2,
{
    broadcast use group_multiset_axioms;
    let h = g.update(a as int, g[a as int].insert(b));
    lemma_entries_update(g, a as int, g[a as int].insert(b));
    lemma_entries_update(h, b as int, h[b as int].insert(a));
}

/// A graph without edges has no entries.
pub proof fn lemma_entries_none(g: Adjacency)
    requires
        forall|u: int| 0 <= u < g.len() ==> g[u].len() == 0,
    ensures
        entries(g) == 0,
    decreases g.len(),
{
    if g.len() > 0 {
        lemma_entries_none(g.drop_last());
    }
}

/// Every neighbour list of `before` is the beginning of the list that the
/// same vertex has in `after`.
pub open spec fn extends(before: Seq<Vec<usize>>, after: Seq<Vec<usize>>) -> bool {
    &&& before.len() == after.len()
    &&& forall|u: int| 0 <= u < before.len() ==> (#[trigger] before[u])@.is_prefix_of(after[u]@)
}

/// The graph `g` after the pairs have been gone through in order and an
/// edge has been added for each pair of two different vertices.
pub open spec fn with_sampled_edges(g: Adjacency, pairs: Seq<(usize, usize)>) -> Adjacency
    decreases pairs.len(),
{
    if pairs.len() == 0 {
        g
    } else {
        let h = with_sampled_edges(g, pairs.drop_last());
        if pairs.last().0 != pairs.last().1 {
            with_edge(h, pairs.last().0, pairs.last().1)
        } else {
            h
        }
    }
}

/// What the pairs, gone through in order, append to the neighbour list of
/// `u`: the other vertex of each pair of two different vertices that holds
/// `u`.
pub open spec fn sampled_neighbors(u: usize, pairs: Seq<(usize, usize)>) -> Seq<usize>
    decreases pairs.len(),
{
    if pairs.len() == 0 {
        Seq::empty()
    } else {
        let rest = sampled_neighbors(u, pairs.drop_last());
        if pairs.last().0 == pairs.last().1 {
            rest
        } else if pairs.last().0 == u {
            rest.push(pairs.last().1)
        } else if pairs.last().1 == u {
            rest.push(pairs.last().0)
        } else {
            rest
        }
    }
}

/// `after` is what `fill` makes of `before` when its `attempts` samples
/// come out as `pairs`.
pub open spec fn filled_by(before: Graph, after: Graph, attempts: usize, pairs: Seq<(usize, usize)>) -> bool {
    &&& pairs.len() == attempts
    &&& forall|i: int|
        0 <= i < pairs.len() ==> (#[trigger] pairs[i]).0 < before.size && pairs[i].1 < before.size
    &&& after@ == with_sampled_edges(before@, pairs)
    &&& after.data@.len() == before.data@.len()
    &&& forall|u: int|
        0 <= u < before.data@.len() ==> (#[trigger] after.data@[u])@ == before.data@[u]@
            + sampled_neighbors(u as usize, pairs)
}

/// The position of the first `v` in `s`, or the length of `s` where there
/// is none.
pub open spec fn first_index(s: Seq<usize>, v: usize) -> int
    decreases s.len(),
{
    if s.len() == 0 {
        0
    } else if s[0] == v {
        0
    } else {
        1 + first_index(s.drop_first(), v)
    }
}

/// The first place that holds `v` is the first index.
pub proof fn lemma_first_index(s: Seq<usize>, v: usize, i: int)
    requires
        0 <= i < s.len(),
        s[i] == v,
        forall|j: int| 0 <= j < i ==> s[j] != v,
    ensures
        first_index(s, v) == i,
    decreases s.len(),
{
    if i > 0 {
        assert(s[0] != v);
        let rest = s.drop_first();
        assert forall|j: int| 0 <= j < i - 1 implies rest[j] != v by {
            assert(rest[j] == s[j + 1]);
        }
        lemma_first_index(rest, v, i - 1);
    }
}

/// The list `s` after its first `v` has been taken out as `swap_remove`
/// does it: the last entry moves into its place.
pub open spec fn first_swapped_out(s: Seq<usize>, v: usize) -> Seq<usize> {
    s.update(first_index(s, v), s.last()).drop_last()
}

/// The list `s` after `n` times its first `v` has been taken out, each
/// time with the last entry moving into its place.
pub open spec fn swapped_out(s: Seq<usize>, v: usize, n: nat) -> Seq<usize>
    decreases n,
{
    if n == 0 {
        s
    } else {
        first_swapped_out(swapped_out(s, v, (n - 1) as nat), v)
    }
}

/// The list of `n` entries `v`.
pub open spec fn repeated(v: usize, n: nat) -> Seq<usize> {
    Seq::new(n, |k: int| v)
}

/// Taking out of a list the copies of `v` that were appended to it, as
/// many as there are, gives the list back in its order.
pub proof fn lemma_appended_then_swapped_out(s: Seq<usize>, v: usize, n: nat, k: nat)
    requires
        !s.contains(v),
        k <= n,
    ensures
        swapped_out(s + repeated(v, n), v, k) == s + repeated(v, (n - k) as nat),
    decreases k,
{
    if k > 0 {
        lemma_appended_then_swapped_out(s, v, n, (k - 1) as nat);
        let t = s + repeated(v, (n - k + 1) as nat);
        assert forall|j: int| 0 <= j < s.len() implies t[j] != v by {
            assert(s.contains(s[j]));
        }
        lemma_first_index(t, v, s.len() as int);
        assert(first_swapped_out(t, v) =~= s + repeated(v, (n - k) as nat));
    } else {
        assert((n - 0) as nat == n);
    }
}

/// Taking out of a list all `n` copies of `v` that were appended to it
/// gives the list back in its order.
pub proof fn lemma_appended_then_removed(s: Seq<usize>, v: usize, n: nat)
    requires
        !s.contains(v),
    ensures
        swapped_out(s + repeated(v, n), v, n) == s,
        occurrences(s + repeated(v, n), v) == n,
    decreases n,
{
    lemma_appended_then_swapped_out(s, v, n, n);
    assert(s + repeated(v, 0) =~= s);
    if n == 0 {
        lemma_occurrences_contains(s, v);
    } else {
        lemma_appended_then_removed(s, v, (n - 1) as nat);
        assert(s + repeated(v, n) =~= (s + repeated(v, (n - 1) as nat)).push(v));
        lemma_occurrences_push(s + repeated(v, (n - 1) as nat), v, v);
    }
}

/// The graph of `size` vertices without any edge.
pub open spec fn no_edges(size: usize) -> Adjacency {
    Seq::new(size as nat, |u: int| Multiset::empty())
}

/// `graph` is what `new` makes for `size` vertices when its `attempts`
/// samples come out as `pairs`.
pub open spec fn made_by(graph: Graph, size: usize, attempts: usize, pairs: Seq<(usize, usize)>) -> bool {
    &&& pairs.len() == attempts
    &&& forall|i: int| 0 <= i < pairs.len() ==> (#[trigger] pairs[i]).0 < size && pairs[i].1 < size
    &&& graph@ == with_sampled_edges(no_edges(size), pairs)
    &&& graph.data@.len() == size
    &&& forall|u: int|
        0 <= u < size ==> (#[trigger] graph.data@[u])@ == sampled_neighbors(u as usize, pairs)
}

/// An undirected graph on the vertices `0 .. size`: `data[v]` lists the
/// neighbours of `v`, once for each edge between the two.
pub struct Graph {
    pub size: usize,
    pub data: Vec<Vec<usize>>,
}

impl Graph {
    /// The adjacency multisets; the order of a neighbour list is no part of it.
    pub open spec fn view(&self) -> Adjacency {
        Seq::new(self.data@.len(), |u: int| self.data@[u]@.to_multiset())
    }

    /// The representation invariant: one neighbour list per vertex, and the
    /// lists together describe an undirected multigraph without self-loops.
    pub open spec fn wf(&self) -> bool {
        &&& self.data@.len() == self.size
        &&& well_formed(self@)
    }

    /// Every entry of a neighbour list is a vertex, and is adjacent to the
    /// list's owner.
    pub proof fn lemma_entry(&self, u: usize, j: int)
        requires
            self.wf(),
            u < self.size,
            0 <= j < self.data@[u as int]@.len(),
        ensures
            self.data@[u as int]@[j] < self.size,
            self.data@[u as int]@[j] != u,
            adjacent(self@, u, self.data@[u as int]@[j]),
    {
        let s = self.data@[u as int]@;
        to_multiset_contains(s, s[j]);
        assert(s.contains(s[j]));
        assert(adjacent(self@, u, s[j]));
        assert(!adjacent(self@, u, u));
    }

    /// Inserts the edge between `a` and `b`: `b` at the end of `a`'s
    /// neighbour list and `a` at the end of `b`'s.
    pub fn add_edge(&mut self, a: usize, b: usize)
        requires
            old(self).wf(),
            a < old(self).size,
            b < old(self).size,
            a != b,
        ensures
            final(self).wf(),
            final(self).size == old(self).size,
            final(self)@ == with_edge(old(self)@, a, b),
            final(self).data@[a as int]@ == old(self).data@[a as int]@.push(b),
            final(self).data@[b as int]@ == old(self).data@[b as int]@.push(a),
            forall|u: int|
                0 <= u < old(self).size && u != a && u != b ==> final(self).data@[u]
                    == old(self).data@[u],
    {
        self.data[a].push(b);
        self.data[b].push(a);
        proof {
            to_multiset_build(old(self).data@[a as int]@, b);
            to_multiset_build(old(self).data@[b as int]@, a);
            assert(self@ =~= with_edge(old(self)@, a, b));
            lemma_with_edge_well_formed(old(self)@, a, b);
        }
    }

    /// The current neighbour list of `vertex`, in insertion order less what
    /// was removed.
    pub fn get_neighbors(&self, vertex: usize) -> (neighbors: &Vec<usize>)
        requires
            self.wf(),
            vertex < self.size,
        ensures
            neighbors@ == self.data@[vertex as int]@,
            neighbors@.to_multiset() == self@[vertex as int],
            forall|j: int| 0 <= j < neighbors@.len() ==> #[trigger] neighbors@[j] < self.size,
    {
        proof {
            assert forall|j: int| 0 <= j < self.data@[vertex as int]@.len() implies #[trigger] self.data@[vertex as int]@[j]
                < self.size by {
                self.lemma_entry(vertex, j);
            }
        }
        &self.data[vertex]
    }

    /// Removes every edge that touches `vertex`, at both ends, and returns
    /// the neighbour list that `vertex` had, in its order. From the list of
    /// a neighbour the first copy of `vertex` is taken out, once for each
    /// edge between the two, the last entry moving into its place; every
    /// other list stays as it is.
    pub fn pop_edges(&mut self, vertex: usize) -> (neighbors: Vec<usize>)
        requires
            old(self).wf(),
            vertex < old(self).size,
        ensures
            final(self).wf(),
            final(self).size == old(self).size,
            neighbors@ == old(self).data@[vertex as int]@,
            neighbors@.to_multiset() == old(self)@[vertex as int],
            final(self)@ == detached(old(self)@, vertex),
            final(self).data@[vertex as int]@.len() == 0,
            forall|j: int|
                0 <= j < neighbors@.len() ==> #[trigger] neighbors@[j] < old(self).size
                    && neighbors@[j] != vertex,
            forall|u: int|
                0 <= u < old(self).size && u != vertex ==> (#[trigger] final(self).data@[u])@
                    == swapped_out(old(self).data@[u]@, vertex, old(self)@[u].count(vertex)),
            forall|u: int|
                0 <= u < old(self).size && u != vertex && !old(self).data@[u]@.contains(vertex)
                    ==> #[trigger] final(self).data@[u] == old(self).data@[u],
    {
        let neighbors = self.data[vertex].clone();
        assert(neighbors@ =~= self.data@[vertex as int]@);
        let ghost all = neighbors@;
        let ghost count = all.len() as int;
        let mut k: usize = 0;
        proof {
            assert(all.subrange(0, count) =~= all);
            assert forall|j: int| 0 <= j < count implies all[j] < self.size && all[j] != vertex by {
                self.lemma_entry(vertex, j);
            }
            assert forall|u: usize| u < self.size && u != vertex implies #[trigger] self@[u as int].count(
                vertex,
            ) == occurrences(all.subrange(0, count), u) by {
                assert(self@[u as int].count(vertex) == self@[vertex as int].count(u));
            }
            assert(all.subrange(0, 0) =~= Seq::<usize>::empty());
            assert forall|u: usize| occurrences(all.subrange(0, 0), u) == 0 by {
                lemma_occurrences_empty(u);
            }
        }
        while k < neighbors.len()
            invariant
                forall|u: int|
                    0 <= u < self.size && u != vertex ==> (#[trigger] self.data@[u])@
                        == swapped_out(
                        old(self).data@[u]@,
                        vertex,
                        occurrences(all.subrange(0, k as int), u as usize),
                    ),
                forall|u: int|
                    0 <= u < self.size && occurrences(all.subrange(0, k as int), u as usize) == 0
                        ==> #[trigger] self.data@[u] == old(self).data@[u],
                k <= count,
                count == all.len(),
                neighbors@ == all,
                vertex < self.size,
                self.size == old(self).size,
                self.data@.len() == self.size,
                old(self).data@.len() == self.size,
                self.data@[vertex as int]@ == all,
                forall|j: int| 0 <= j < count ==> all[j] < self.size && all[j] != vertex,
                forall|u: usize, w: usize|
                    u < self.size && u != vertex && w != vertex ==> #[trigger] self@[u as int].count(w)
                        == old(self)@[u as int].count(w),
                forall|u: usize|
                    u < self.size && u != vertex ==> #[trigger] self@[u as int].count(vertex)
                        == occurrences(all.subrange(k as int, count), u),
            decreases count - k,
        {
            let neighbor = neighbors[k];
            let ghost before = *self;
            let ghost rest = all.subrange(k as int, count);
            proof {
                assert(rest[0] == neighbor);
                lemma_occurrences_drop_first(rest, neighbor);
                assert(before@[neighbor as int].count(vertex) > 0);
                to_multiset_contains(before.data@[neighbor as int]@, vertex);
            }
            let position = position_of(&self.data[neighbor], vertex);
            self.data[neighbor].swap_remove(position);
            k += 1;
            proof {
                let list = before.data@[neighbor as int]@;
                let done = all.subrange(0, k - 1);
                assert(all.subrange(0, k as int) =~= done.push(neighbor));
                lemma_first_index(list, vertex, position as int);
                assert(self.data@[neighbor as int]@ == first_swapped_out(list, vertex));
                assert forall|u: int| 0 <= u < self.size && u != vertex implies (
                #[trigger] self.data@[u])@ == swapped_out(
                    old(self).data@[u]@,
                    vertex,
                    occurrences(all.subrange(0, k as int), u as usize),
                ) by {
                    lemma_occurrences_push(done, neighbor, u as usize);
                    if u != neighbor {
                        assert(self.data@[u] == before.data@[u]);
                    }
                }
                assert forall|u: int|
                    0 <= u < self.size && occurrences(all.subrange(0, k as int), u as usize)
                        == 0 implies #[trigger] self.data@[u] == old(self).data@[u] by {
                    lemma_occurrences_push(done, neighbor, u as usize);
                    assert(self.data@[u] == before.data@[u]);
                }
            }
            proof {
                broadcast use group_multiset_axioms;
                let list = before.data@[neighbor as int]@;
                lemma_swap_remove(list, position as int);
                assert(self@[neighbor as int] == before@[neighbor as int].remove(vertex));
                assert(rest.drop_first() =~= all.subrange(k as int, count));
                assert forall|u: usize, w: usize|
                    u < self.size && u != vertex && w != vertex implies #[trigger] self@[u as int].count(
                    w,
                ) == old(self)@[u as int].count(w) by {
                    assert(before@[u as int].count(w) == old(self)@[u as int].count(w));
                    if u != neighbor {
                        assert(self@[u as int] == before@[u as int]);
                    }
                }
                assert forall|u: usize| u < self.size && u != vertex implies #[trigger] self@[u as int].count(
                    vertex,
                ) == occurrences(all.subrange(k as int, count), u) by {
                    assert(before@[u as int].count(vertex) == occurrences(rest, u));
                    lemma_occurrences_drop_first(rest, u);
                    if u != neighbor {
                        assert(self@[u as int] == before@[u as int]);
                    }
                }
            }
        }
        let ghost mid = *self;
        self.data[vertex].clear();
        proof {
            let g = old(self)@;
            let h = detached(g, vertex);
            assert(all.subrange(count, count) =~= Seq::<usize>::empty());
            assert forall|u: int| 0 <= u < self.size implies #[trigger] self@[u] =~= h[u] by {
                assert forall|w: usize| self@[u].count(w) == h[u].count(w) by {
                    lemma_detached_count(g, vertex, u as usize, w);
                    if u == vertex {
                        lemma_occurrences_empty(w);
                    } else if w == vertex {
                        lemma_occurrences_empty(u as usize);
                        assert(self@[u] == mid@[u as usize as int]);
                    } else {
                        assert(self@[u] == mid@[u as usize as int]);
                        assert(mid@[u as usize as int].count(w) == g[u as usize as int].count(w));
                    }
                }
            }
            assert(self@ =~= h);
            lemma_detached_well_formed(g, vertex);
            assert(all.subrange(0, count) =~= all);
            assert forall|u: int| 0 <= u < old(self).size && u != vertex implies (
            #[trigger] self.data@[u])@ == swapped_out(
                old(self).data@[u]@,
                vertex,
                old(self)@[u].count(vertex),
            ) by {
                assert(self.data@[u] == mid.data@[u]);
                assert(g[u as usize as int].count(vertex) == g[vertex as int].count(u as usize));
            }
            assert forall|u: int|
                0 <= u < old(self).size && u != vertex && !old(self).data@[u]@.contains(
                    vertex,
                ) implies #[trigger] self.data@[u] == old(self).data@[u] by {
                assert(self.data@[u] == mid.data@[u]);
                to_multiset_contains(old(self).data@[u]@, vertex);
                assert(g[u as usize as int].count(vertex) == g[vertex as int].count(u as usize));
            }
        }
        neighbors
    }

    /// Adds an edge between `vertex` and each entry of `neighbors`, in
    /// order: what `pop_edges` took away, this puts back. The neighbours
    /// come at the end of the list of `vertex`, and `vertex` at the end of
    /// the list of each of them.
    pub fn add_edges(&mut self, vertex: usize, neighbors: &Vec<usize>)
        requires
            old(self).wf(),
            vertex < old(self).size,
            forall|j: int|
                0 <= j < neighbors@.len() ==> neighbors@[j] < old(self).size && neighbors@[j]
                    != vertex,
        ensures
            final(self).wf(),
            final(self).size == old(self).size,
            final(self)@ == with_edges(old(self)@, vertex, neighbors@),
            final(self).data@[vertex as int]@ == old(self).data@[vertex as int]@ + neighbors@,
            forall|u: int|
                0 <= u < old(self).size && u != vertex ==> (#[trigger] final(self).data@[u])@
                    == old(self).data@[u]@ + repeated(vertex, occurrences(neighbors@, u as usize)),
    {
        let mut k: usize = 0;
        proof {
            assert(neighbors@.subrange(0, 0) =~= Seq::<usize>::empty());
            assert forall|u: int| 0 <= u < self.size && u != vertex implies (
            #[trigger] self.data@[u])@ == old(self).data@[u]@ + repeated(
                vertex,
                occurrences(neighbors@.subrange(0, 0), u as usize),
            ) by {
                lemma_occurrences_empty(u as usize);
                assert(self.data@[u]@ =~= old(self).data@[u]@ + repeated(vertex, 0));
            }
        }
        while k < neighbors.len()
            invariant
                forall|u: int|
                    0 <= u < self.size && u != vertex ==> (#[trigger] self.data@[u])@ == old(
                        self,
                    ).data@[u]@ + repeated(
                        vertex,
                        occurrences(neighbors@.subrange(0, k as int), u as usize),
                    ),
                k <= neighbors@.len(),
                self.wf(),
                self.size == old(self).size,
                vertex < self.size,
                forall|j: int|
                    0 <= j < neighbors@.len() ==> neighbors@[j] < self.size && neighbors@[j]
                        != vertex,
                self@ == with_edges(old(self)@, vertex, neighbors@.subrange(0, k as int)),
                self.data@[vertex as int]@ == old(self).data@[vertex as int]@ + neighbors@.subrange(
                    0,
                    k as int,
                ),
            decreases neighbors@.len() - k,
        {
            let ghost before = *self;
            self.add_edge(vertex, neighbors[k]);
            proof {
                let done = neighbors@.subrange(0, k as int);
                let to = neighbors@[k as int];
                assert(neighbors@.subrange(0, k + 1) =~= done.push(to));
                assert forall|u: int| 0 <= u < self.size && u != vertex implies (
                #[trigger] self.data@[u])@ == old(self).data@[u]@ + repeated(
                    vertex,
                    occurrences(neighbors@.subrange(0, k + 1), u as usize),
                ) by {
                    lemma_occurrences_push(done, to, u as usize);
                    let c = occurrences(done, u as usize);
                    if u == to {
                        assert(self.data@[u]@ == before.data@[u]@.push(vertex));
                        assert(repeated(vertex, c + 1) =~= repeated(vertex, c).push(vertex));
                        assert(self.data@[u]@ =~= old(self).data@[u]@ + repeated(vertex, c + 1));
                    } else {
                        assert(self.data@[u] == before.data@[u]);
                    }
                }
            }
            proof {
                let next = neighbors@.subrange(0, k + 1);
                assert(next.drop_last() =~= neighbors@.subrange(0, k as int));
                assert(next.last() == neighbors@[k as int]);
                assert(self.data@[vertex as int]@ =~= old(self).data@[vertex as int]@ + next);
            }
            k += 1;
        }
        proof {
            assert(neighbors@.subrange(0, k as int) =~= neighbors@);
        }
    }

    /// Removes every edge between `a` and `b` and returns how many there
    /// were. In each of the two neighbour lists the first copy of the other
    /// vertex is taken out, the last entry moving into its place, until
    /// none is left.
    pub fn remove_edge(&mut self, a: usize, b: usize) -> (removed: usize)
        requires
            old(self).wf(),
            a < old(self).size,
            b < old(self).size,
        ensures
            final(self).wf(),
            final(self).size == old(self).size,
            final(self)@ == without_edge(old(self)@, a, b),
            removed == old(self)@[a as int].count(b),
            final(self).data@[a as int]@ == swapped_out(
                old(self).data@[a as int]@,
                b,
                removed as nat,
            ),
            final(self).data@[b as int]@ == swapped_out(
                old(self).data@[b as int]@,
                a,
                removed as nat,
            ),
            forall|u: int|
                0 <= u < old(self).size && u != a && u != b ==> #[trigger] final(self).data@[u]
                    == old(self).data@[u],
    {
        proof {
            assert(self@[a as int].count(b) == self@[b as int].count(a));
            assert(!adjacent(self@, a, a));
        }
        let removed = remove_all(&mut self.data[a], b);
        let _ = remove_all(&mut self.data[b], a);
        proof {
            assert(self@ =~= without_edge(old(self)@, a, b));
            lemma_without_edge_well_formed(old(self)@, a, b);
        }
        removed
    }

    /// Adds an edge between the two sampled vertices unless they are one
    /// and the same, and says whether it did.
    pub fn add_sampled_edge(&mut self, a: usize, b: usize) -> (added: bool)
        requires
            old(self).wf(),
            a < old(self).size,
            b < old(self).size,
        ensures
            final(self).wf(),
            final(self).size == old(self).size,
            added == (a != b),
            final(self)@ == if a != b {
                with_edge(old(self)@, a, b)
            } else {
                old(self)@
            },
            extends(old(self).data@, final(self).data@),
            a != b ==> final(self).data@[a as int]@ == old(self).data@[a as int]@.push(b),
            a != b ==> final(self).data@[b as int]@ == old(self).data@[b as int]@.push(a),
            forall|u: int|
                0 <= u < old(self).size && (a == b || (u != a && u != b)) ==> final(self).data@[u]
                    == old(self).data@[u],
    {
        if a != b {
            self.add_edge(a, b);
            proof {
                assert forall|u: int| 0 <= u < old(self).data@.len() implies (#[trigger] old(
                    self,
                ).data@[u])@.is_prefix_of(self.data@[u]@) by {
                    assert(self.data@[u]@.subrange(0, old(self).data@[u]@.len() as int)
                        =~= old(self).data@[u]@);
                }
            }
            true
        } else {
            proof {
                assert forall|u: int| 0 <= u < old(self).data@.len() implies (#[trigger] old(
                    self,
                ).data@[u])@.is_prefix_of(self.data@[u]@) by {
                    assert(self.data@[u]@.subrange(0, old(self).data@[u]@.len() as int)
                        =~= old(self).data@[u]@);
                }
            }
            false
        }
    }

    /// Samples two vertices `attempts` times and adds an edge between them
    /// each time they differ. The same pair may come more than once, and
    /// is then joined by more than one edge.
    pub fn fill(&mut self, attempts: usize)
        requires
            old(self).wf(),
            old(self).size > 0,
        ensures
            final(self).wf(),
            final(self).size == old(self).size,
            extends(old(self).data@, final(self).data@),
            entries(final(self)@) <= entries(old(self)@) + 2 * attempts,
            exists|pairs: Seq<(usize, usize)>| #[trigger]
                filled_by(*old(self), *final(self), attempts, pairs),
    {
        let mut vertex_rng = UniformRng::new(0, self.size);
        let mut n: usize = 0;
        let ghost mut pairs: Seq<(usize, usize)> = Seq::empty();
        proof {
            assert forall|u: int| 0 <= u < self.data@.len() implies (#[trigger] self.data@[u])@
                == old(self).data@[u]@ + sampled_neighbors(u as usize, pairs) by {
                assert(self.data@[u]@ =~= old(self).data@[u]@ + Seq::<usize>::empty());
            }
        }
        proof {
            assert forall|u: int| 0 <= u < old(self).data@.len() implies (#[trigger] old(
                self,
            ).data@[u])@.is_prefix_of(self.data@[u]@) by {
                assert(self.data@[u]@.subrange(0, old(self).data@[u]@.len() as int) =~= old(
                    self,
                ).data@[u]@);
            }
        }
        while n < attempts
            invariant
                n <= attempts,
                self.wf(),
                self.size == old(self).size,
                vertex_rng.wf(),
                vertex_rng.low() == 0,
                vertex_rng.high() == self.size,
                extends(old(self).data@, self.data@),
                entries(self@) <= entries(old(self)@) + 2 * n,
                filled_by(*old(self), *self, n, pairs),
            decreases attempts - n,
        {
            let a = vertex_rng.sample();
            let b = vertex_rng.sample();
            let ghost before = *self;
            let ghost drawn = pairs;
            let _ = self.add_sampled_edge(a, b);
            proof {
                pairs = drawn.push((a, b));
                assert(pairs.drop_last() =~= drawn);
                assert(pairs.last() == (a, b));
                assert forall|i: int| 0 <= i < pairs.len() implies (#[trigger] pairs[i]).0
                    < self.size && pairs[i].1 < self.size by {
                    if i < drawn.len() {
                        assert(pairs[i] == drawn[i]);
                    }
                }
                assert forall|u: int| 0 <= u < self.data@.len() implies (#[trigger] self.data@[u])@
                    == old(self).data@[u]@ + sampled_neighbors(u as usize, pairs) by {
                    let earlier = sampled_neighbors(u as usize, drawn);
                    assert(before.data@[u]@ == old(self).data@[u]@ + earlier);
                    if a != b && u == a {
                        assert(self.data@[u]@ =~= old(self).data@[u]@ + earlier.push(b));
                    } else if a != b && u == b {
                        assert(self.data@[u]@ =~= old(self).data@[u]@ + earlier.push(a));
                    } else {
                        assert(self.data@[u] == before.data@[u]);
                    }
                }
            }
            proof {
                if a != b {
                    lemma_with_edge_entries(before@, a, b);
                }
                assert forall|u: int| 0 <= u < old(self).data@.len() implies (#[trigger] old(
                    self,
                ).data@[u])@.is_prefix_of(self.data@[u]@) by {
                    let first = old(self).data@[u]@;
                    let second = before.data@[u]@;
                    let third = self.data@[u]@;
                    assert(first.is_prefix_of(second));
                    assert(second.is_prefix_of(third));
                    assert(third.subrange(0, first.len() as int) =~= first);
                }
            }
            n += 1;
        }
    }

    /// A graph of `size` vertices with the edges that `attempts` samples of
    /// two vertices give.
    pub fn new(size: usize, attempts: usize) -> (graph: Graph)
        requires
            size > 0,
        ensures
            graph.wf(),
            graph.size == size,
            entries(graph@) <= 2 * attempts,
            exists|pairs: Seq<(usize, usize)>| #[trigger] made_by(graph, size, attempts, pairs),
    {
        let mut data: Vec<Vec<usize>> = Vec::new();
        let mut n: usize = 0;
        while n < size
            invariant
                n <= size,
                data@.len() == n,
                forall|u: int| 0 <= u < n ==> (#[trigger] data@[u])@.len() == 0,
            decreases size - n,
        {
            data.push(Vec::new());
            n += 1;
        }
        let mut graph = Graph { size, data };
        proof {
            assert forall|u: int| 0 <= u < graph@.len() implies #[trigger] graph@[u].len() == 0 by {
                to_multiset_len(graph.data@[u]@);
            }
            lemma_entries_none(graph@);
            assert forall|u: usize, v: usize| u < graph@.len() implies graph@[u as int].count(v)
                == 0 by {
                lemma_occurrences_contains(graph.data@[u as int]@, v);
            }
        }
        let ghost bare = graph;
        proof {
            assert forall|u: int| 0 <= u < size implies #[trigger] bare@[u] =~= no_edges(size)[u] by {
                assert forall|v: usize| bare@[u].count(v) == 0 by {
                    assert(bare@[u as usize as int].count(v) == 0);
                }
            }
            assert(bare@ =~= no_edges(size));
        }
        graph.fill(attempts);
        proof {
            let pairs = choose|pairs: Seq<(usize, usize)>| #[trigger]
                filled_by(bare, graph, attempts, pairs);
            assert forall|u: int| 0 <= u < size implies (#[trigger] graph.data@[u])@
                == sampled_neighbors(u as usize, pairs) by {
                assert(graph.data@[u]@ == bare.data@[u]@ + sampled_neighbors(u as usize, pairs));
                assert(bare.data@[u]@.len() == 0);
                assert(bare.data@[u]@ + sampled_neighbors(u as usize, pairs) =~= sampled_neighbors(
                    u as usize,
                    pairs,
                ));
            }
            assert(made_by(graph, size, attempts, pairs));
        }
        graph
    }

    /// Whether at least one edge joins `u` and `v`.
    pub fn has_edge(&self, u: usize, v: usize) -> (found: bool)
        requires
            self.wf(),
            u < self.size,
        ensures
            found == adjacent(self@, u, v),
    {
        let list = &self.data[u];
        let mut i: usize = 0;
        while i < list.len()
            invariant
                i <= list@.len(),
                u < self.data@.len(),
                list@ == self.data@[u as int]@,
                forall|j: int| 0 <= j < i ==> list@[j] != v,
            decreases list@.len() - i,
        {
            if list[i] == v {
                proof {
                    to_multiset_contains(list@, v);
                    assert(list@.contains(list@[i as int]));
                }
                return true;
            }
            i += 1;
        }
        proof {
            to_multiset_contains(list@, v);
            assert(!list@.contains(v));
        }
        false
    }
}

} // verus!
