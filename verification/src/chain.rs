//! Tables of predecessors that lead to a root without running in a circle.

use vstd::prelude::*;

verus! {

/// The mark of a vertex that a search has not reached, in a table of
/// distances or of predecessors.
pub const UNREACHED: usize = usize::MAX;

/// Following `pred` from any vertex comes to an end: each link leads to a
/// vertex of strictly smaller rank.
pub open spec fn chained(pred: Seq<usize>, rank: Seq<nat>) -> bool {
    &&& rank.len() == pred.len()
    &&& forall|x: usize|
        x < pred.len() && #[trigger] pred[x as int] != UNREACHED ==> pred[x as int] < pred.len()
            && rank[pred[x as int] as int] < rank[x as int]
}

/// `v` is `x` itself or comes up when `pred` is followed from `x`.
pub open spec fn leads_to(pred: Seq<usize>, rank: Seq<nat>, x: usize, v: usize) -> bool
    decreases rank[x as int],
{
    x == v || (x < pred.len() && pred[x as int] != UNREACHED && pred[x as int] < pred.len()
        && rank[pred[x as int] as int] < rank[x as int] && leads_to(pred, rank, pred[x as int], v))
}

/// Ranks for the table in which `v` has been given the predecessor `c`:
/// `v` and all that lead to it are lifted above `c`.
pub open spec fn relinked_rank(pred: Seq<usize>, rank: Seq<nat>, v: usize, c: usize) -> Seq<nat> {
    Seq::new(
        rank.len(),
        |x: int|
            if leads_to(pred, rank, x as usize, v) {
                rank[x] + rank[c as int] + 1
            } else {
                rank[x]
            },
    )
}

/// Giving `v` a predecessor that does not lead to `v` keeps the table free
/// of cycles.
pub proof fn lemma_relink(pred: Seq<usize>, rank: Seq<nat>, v: usize, c: usize)
    requires
        chained(pred, rank),
        pred.len() <= usize::MAX,
        v < pred.len(),
        c < pred.len(),
        !leads_to(pred, rank, c, v),
    ensures
        chained(pred.update(v as int, c), relinked_rank(pred, rank, v, c)),
{
    let pred2 = pred.update(v as int, c);
    let rank2 = relinked_rank(pred, rank, v, c);
    assert forall|x: usize| x < pred2.len() && #[trigger] pred2[x as int] != UNREACHED implies pred2[x as int]
        < pred2.len() && rank2[pred2[x as int] as int] < rank2[x as int] by {
        if x == v {
            assert(leads_to(pred, rank, v, v));
        } else {
            let y = pred[x as int];
            assert(pred[x as int] != UNREACHED);
            if leads_to(pred, rank, y, v) {
                assert(leads_to(pred, rank, x, v));
            }
        }
    }
}

/// The vertices that come up when `pred` is followed from `x`, `x` first.
pub open spec fn chain(pred: Seq<usize>, rank: Seq<nat>, x: usize) -> Seq<usize>
    decreases rank[x as int],
{
    if x < pred.len() && pred[x as int] != UNREACHED && pred[x as int] < pred.len()
        && rank[pred[x as int] as int] < rank[x as int] {
        seq![x] + chain(pred, rank, pred[x as int])
    } else {
        seq![x]
    }
}

/// A chain starts at its vertex, stays among the vertices, and lists them
/// by falling rank; each of them is led to.
pub proof fn lemma_chain(pred: Seq<usize>, rank: Seq<nat>, x: usize)
    requires
        chained(pred, rank),
        x < pred.len(),
    ensures
        chain(pred, rank, x).len() > 0,
        chain(pred, rank, x)[0] == x,
        forall|i: int|
            0 <= i < chain(pred, rank, x).len() ==> {
                &&& #[trigger] chain(pred, rank, x)[i] < pred.len()
                &&& rank[chain(pred, rank, x)[i] as int] + i <= rank[x as int]
                &&& leads_to(pred, rank, x, chain(pred, rank, x)[i])
            },
    decreases rank[x as int],
{
    if pred[x as int] != UNREACHED {
        let y = pred[x as int];
        lemma_chain(pred, rank, y);
        let rest = chain(pred, rank, y);
        let whole = chain(pred, rank, x);
        assert(whole =~= seq![x] + rest);
        assert forall|i: int| 0 <= i < whole.len() implies {
            &&& #[trigger] whole[i] < pred.len()
            &&& rank[whole[i] as int] + i <= rank[x as int]
            &&& leads_to(pred, rank, x, whole[i])
        } by {
            if i > 0 {
                assert(whole[i] == rest[i - 1]);
            }
        }
    }
}

/// A chain together with a vertex that it does not lead to has no more
/// vertices than there are.
pub proof fn lemma_chain_bound(pred: Seq<usize>, rank: Seq<nat>, x: usize, v: usize)
    requires
        chained(pred, rank),
        x < pred.len(),
        v < pred.len(),
        !leads_to(pred, rank, x, v),
    ensures
        chain(pred, rank, x).len() + 1 <= pred.len(),
{
    lemma_chain(pred, rank, x);
    let c = chain(pred, rank, x);
    let s = c.push(v);
    assert forall|i: int, j: int| 0 <= i < s.len() && 0 <= j < s.len() && i != j implies s[i]
        != s[j] by {
        if i < c.len() && j < c.len() {
            assert(rank[c[i] as int] + i <= rank[x as int]);
            assert(rank[c[j] as int] + j <= rank[x as int]);
            lemma_chain_order(pred, rank, x, i, j);
        } else if i < c.len() {
            assert(leads_to(pred, rank, x, c[i]));
        } else {
            assert(leads_to(pred, rank, x, c[j]));
        }
    }
    assert forall|i: int| 0 <= i < s.len() implies s[i] < pred.len() by {
        if i < c.len() {
            assert(c[i] < pred.len());
        }
    }
    crate::walk::lemma_distinct_bounded(s, pred.len());
}

/// Two places of a chain hold two vertices.
pub proof fn lemma_chain_order(pred: Seq<usize>, rank: Seq<nat>, x: usize, i: int, j: int)
    requires
        chained(pred, rank),
        x < pred.len(),
        0 <= i < chain(pred, rank, x).len(),
        0 <= j < chain(pred, rank, x).len(),
        i != j,
    ensures
        chain(pred, rank, x)[i] != chain(pred, rank, x)[j],
    decreases rank[x as int],
{
    let whole = chain(pred, rank, x);
    if pred[x as int] != UNREACHED {
        let y = pred[x as int];
        let rest = chain(pred, rank, y);
        assert(whole =~= seq![x] + rest);
        lemma_chain(pred, rank, y);
        if i > 0 && j > 0 {
            lemma_chain_order(pred, rank, y, i - 1, j - 1);
            assert(whole[i] == rest[i - 1]);
            assert(whole[j] == rest[j - 1]);
        } else if i == 0 {
            assert(whole[j] == rest[j - 1]);
            assert(rank[rest[j - 1] as int] + (j - 1) <= rank[y as int]);
        } else {
            assert(whole[i] == rest[i - 1]);
            assert(rank[rest[i - 1] as int] + (i - 1) <= rank[y as int]);
        }
    }
}

/// What leads to `v` has at least the rank of `v`.
pub proof fn lemma_leads_rank(pred: Seq<usize>, rank: Seq<nat>, x: usize, v: usize)
    requires
        leads_to(pred, rank, x, v),
    ensures
        rank[v as int] <= rank[x as int],
    decreases rank[x as int],
{
    if x != v {
        lemma_leads_rank(pred, rank, pred[x as int], v);
    }
}

/// Whether `vertex` comes up when `predecessor` is followed from `to`; `to`
/// itself does not count.
pub(crate) fn in_path(
    predecessor: &Vec<usize>,
    to: usize,
    vertex: usize,
    Ghost(rank): Ghost<Seq<nat>>,
) -> (found: bool)
    requires
        chained(predecessor@, rank),
        to < predecessor@.len(),
    ensures
        found == (to != vertex && leads_to(predecessor@, rank, to, vertex)),
{
    let mut current = to;
    while predecessor[current] != UNREACHED
        invariant
            chained(predecessor@, rank),
            current < predecessor@.len(),
            (to != vertex && leads_to(predecessor@, rank, to, vertex)) == (current != vertex
                && leads_to(predecessor@, rank, current, vertex)),
        decreases rank[current as int],
    {
        let ghost before = current;
        current = predecessor[current];
        proof {
            if before == vertex {
                if leads_to(predecessor@, rank, current, vertex) {
                    lemma_leads_rank(predecessor@, rank, current, vertex);
                }
            } else {
                assert(leads_to(predecessor@, rank, before, vertex) == leads_to(
                    predecessor@,
                    rank,
                    current,
                    vertex,
                ));
            }
        }
        if current == vertex {
            assert(to != vertex) by {
                if to == vertex {
                    assert(before != vertex);
                }
            }
            return true;
        }
    }
    false
}

} // verus!
