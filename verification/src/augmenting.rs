//! Augmenting paths in a residual matrix: what one is, how much it can
//! carry, and what pushing along it does to the matrix.

use vstd::prelude::*;
use crate::matrix::{row_sum, square};
use crate::sums::{lemma_partial_sum_agree, lemma_partial_sum_one_change};

verus! {

/// `path` leads from `from` to `to` through nodes of the matrix `m` that
/// `seen` does not mark, visits no node twice, and uses only edges with
/// capacity left.
#[verifier::opaque]
pub open spec fn is_augmenting_path(
    m: Seq<Seq<int>>,
    seen: Seq<bool>,
    path: Seq<int>,
    from: int,
    to: int,
) -> bool {
    &&& path.len() >= 1
    &&& path[0] == from
    &&& path[path.len() - 1] == to
    &&& forall|i: int| 0 <= i < path.len() ==> 0 <= #[trigger] path[i] < m.len() && !seen[path[i]]
    &&& forall|i: int, j: int| 0 <= i < j < path.len() ==> path[i] != path[j]
    &&& forall|i: int| 0 <= i < path.len() - 1 ==> m[#[trigger] path[i]][path[i + 1]] > 0
}

/// Some augmenting path leads from `from` to `to`.
pub open spec fn reaches(m: Seq<Seq<int>>, seen: Seq<bool>, from: int, to: int) -> bool {
    exists|path: Seq<int>| #[trigger] is_augmenting_path(m, seen, path, from, to)
}

/// `seen` marks every node of `path` but the last.
pub open spec fn marks_path(seen: Seq<bool>, path: Seq<int>) -> bool {
    forall|k: int| 0 <= k < path.len() - 1 ==> seen[#[trigger] path[k]]
}

/// What `path` can carry of a flow of `flow` that arrives at its first node:
/// `flow` itself, or the least capacity of its edges where that is smaller.
pub open spec fn carry(m: Seq<Seq<int>>, path: Seq<int>, flow: int) -> int
    decreases path.len(),
{
    if path.len() < 2 {
        flow
    } else if flow < m[path[0]][path[1]] {
        carry(m, path.drop_first(), flow)
    } else {
        carry(m, path.drop_first(), m[path[0]][path[1]])
    }
}

/// The matrix `m` after `amount` moved from the edge `u` to `v` to the edge
/// that runs back.
pub open spec fn shift(m: Seq<Seq<int>>, u: int, v: int, amount: int) -> Seq<Seq<int>> {
    Seq::new(
        m.len(),
        |a: int|
            Seq::new(
                m[a].len(),
                |b: int|
                    if a == u && b == v {
                        m[a][b] - amount
                    } else if a == v && b == u {
                        m[a][b] + amount
                    } else {
                        m[a][b]
                    },
            ),
    )
}

/// The matrix `m` after `amount` was pushed along every edge of `path`, the
/// last edge first.
pub open spec fn push_along(m: Seq<Seq<int>>, path: Seq<int>, amount: int) -> Seq<Seq<int>>
    decreases path.len(),
{
    if path.len() < 2 {
        m
    } else {
        shift(push_along(m, path.drop_first(), amount), path[0], path[1], amount)
    }
}

/// A path carries no more than arrives at it, and no more than any of its
/// edges has left.
pub proof fn lemma_carry_bounds(m: Seq<Seq<int>>, path: Seq<int>, flow: int)
    ensures
        carry(m, path, flow) <= flow,
        forall|i: int| 0 <= i < path.len() - 1 ==> carry(m, path, flow) <= m[#[trigger] path[i]][path[i + 1]],
    decreases path.len(),
{
    if path.len() >= 2 {
        let rest = path.drop_first();
        let first = m[path[0]][path[1]];
        let enters = if flow < first { flow } else { first };
        lemma_carry_bounds(m, rest, enters);
        assert forall|i: int| 0 <= i < path.len() - 1 implies carry(m, path, flow) <= m[#[trigger] path[i]][path[i
            + 1]] by {
            if i > 0 {
                assert(rest[i - 1] == path[i]);
                assert(rest[i] == path[i + 1]);
            }
        }
    }
}

/// Putting a node in front of an augmenting path, along an edge with
/// capacity left, gives an augmenting path again, provided the node was not
/// marked and the path avoids it. What the longer path carries, and what
/// pushing along it does, follow from the shorter one.
pub proof fn lemma_path_extends(
    m: Seq<Seq<int>>,
    before: Seq<bool>,
    marks: Seq<bool>,
    tail: Seq<int>,
    current: int,
    next: int,
    to: int,
    flow: int,
    amount: int,
)
    requires
        is_augmenting_path(m, marks, tail, next, to),
        marks.len() == before.len(),
        forall|u: int| 0 <= u < before.len() && before[u] ==> marks[u],
        m.len() == before.len(),
        0 <= current < m.len(),
        marks[current],
        !before[current],
        m[current][next] > 0,
    ensures
        is_augmenting_path(m, before, seq![current] + tail, current, to),
        carry(m, seq![current] + tail, flow) == carry(
            m,
            tail,
            if flow < m[current][next] {
                flow
            } else {
                m[current][next]
            },
        ),
        push_along(m, seq![current] + tail, amount) == shift(
            push_along(m, tail, amount),
            current,
            next,
            amount,
        ),
{
    reveal(is_augmenting_path);
    let path = seq![current] + tail;
    assert(path.drop_first() =~= tail);
    assert(path[1] == tail[0]);
    assert forall|k: int| 0 <= k < path.len() implies 0 <= #[trigger] path[k] < m.len()
        && !before[path[k]] by {
        if k > 0 {
            assert(path[k] == tail[k - 1]);
        }
    }
    assert forall|j: int, k: int| 0 <= j < k < path.len() implies path[j] != path[k] by {
        assert(path[k] == tail[k - 1]);
        if j > 0 {
            assert(path[j] == tail[j - 1]);
        }
    }
    assert forall|k: int| 0 <= k < path.len() - 1 implies m[#[trigger] path[k]][path[k + 1]] > 0 by {
        if k > 0 {
            assert(path[k] == tail[k - 1]);
            assert(path[k + 1] == tail[k]);
        }
    }
}

/// What can be reached from `next` without the nodes that `marks` marks can
/// be reached from `current`, along the edge to `next`, without the nodes
/// that `before` marks.
pub proof fn lemma_reach_extends(
    m: Seq<Seq<int>>,
    before: Seq<bool>,
    marks: Seq<bool>,
    current: int,
    next: int,
    to: int,
)
    requires
        reaches(m, marks, next, to),
        marks.len() == before.len(),
        forall|u: int| 0 <= u < before.len() && before[u] ==> marks[u],
        m.len() == before.len(),
        0 <= current < m.len(),
        marks[current],
        !before[current],
        m[current][next] > 0,
    ensures
        reaches(m, before, current, to),
{
    let tail = choose|tail: Seq<int>| #[trigger] is_augmenting_path(m, marks, tail, next, to);
    lemma_path_extends(m, before, marks, tail, current, next, to, 0, 0);
}

/// Marks that cover a path from `next` still cover it after the node
/// `current` is put in front, where they mark `current` too.
pub proof fn lemma_marks_path_extends(seen: Seq<bool>, tail: Seq<int>, current: int)
    requires
        marks_path(seen, tail),
        tail.len() >= 1,
        seen[current],
    ensures
        marks_path(seen, seq![current] + tail),
{
    let path = seq![current] + tail;
    assert forall|k: int| 0 <= k < path.len() - 1 implies seen[#[trigger] path[k]] by {
        if k > 0 {
            assert(path[k] == tail[k - 1]);
        }
    }
}

/// What shifting `amount` from the edge `u` to `v` to the edge that runs
/// back does to a square matrix: the two edges together hold what they held,
/// row `u` loses `amount`, row `v` gains it, and nothing else changes.
pub proof fn lemma_shift_effects(m: Seq<Seq<int>>, n: int, u: int, v: int, amount: int)
    requires
        square(m, n),
        0 <= u < n,
        0 <= v < n,
        u != v,
    ensures
        square(shift(m, u, v, amount), n),
        forall|a: int, b: int|
            0 <= a < n && 0 <= b < n ==> #[trigger] shift(m, u, v, amount)[a][b] + shift(
                m,
                u,
                v,
                amount,
            )[b][a] == m[a][b] + m[b][a],
        forall|a: int, b: int|
            0 <= a < n && 0 <= b < n && !(a == u && b == v) && !(a == v && b == u) ==> #[trigger] shift(
                m,
                u,
                v,
                amount,
            )[a][b] == m[a][b],
        forall|a: int|
            0 <= a < n ==> #[trigger] row_sum(shift(m, u, v, amount), a) == row_sum(m, a) - (if a == u {
                amount
            } else {
                0
            }) + (if a == v {
                amount
            } else {
                0
            }),
{
    let w = shift(m, u, v, amount);
    assert forall|a: int| 0 <= a < n implies #[trigger] row_sum(w, a) == row_sum(m, a) - (if a == u {
        amount
    } else {
        0
    }) + (if a == v {
        amount
    } else {
        0
    }) by {
        if a == u {
            assert forall|b: int| 0 <= b < n && b != v implies m[a][b] == w[a][b] by {}
            lemma_partial_sum_one_change(m[a], w[a], n, v);
        } else if a == v {
            assert forall|b: int| 0 <= b < n && b != u implies m[a][b] == w[a][b] by {}
            lemma_partial_sum_one_change(m[a], w[a], n, u);
        } else {
            assert forall|b: int| 0 <= b < n implies m[a][b] == w[a][b] by {}
            lemma_partial_sum_agree(m[a], w[a], n);
        }
    }
}

/// From a node that `after` marks and `before` does not, every edge of `m`
/// with capacity left leads to a node that `after` marks.
pub open spec fn closed(m: Seq<Seq<int>>, before: Seq<bool>, after: Seq<bool>) -> bool {
    forall|u: int, v: int|
        0 <= u < m.len() && 0 <= v < m.len() && after[u] && !before[u] && #[trigger] m[u][v] > 0
            ==> after[v]
}

/// The search is exhausted: `after` marks `from`, and whatever can be reached
/// from a node that the search has marked is marked.
pub open spec fn search_exhausted(m: Seq<Seq<int>>, before: Seq<bool>, after: Seq<bool>, from: int) -> bool {
    after[from] && closed(m, before, after)
}

/// `p` comes no later than `q` in the order of a depth-first search that
/// tries nodes by their number: at the first place where the two differ, `p`
/// has the lower node.
pub open spec fn comes_first(p: Seq<int>, q: Seq<int>) -> bool
    decreases p.len(),
{
    if p.len() == 0 {
        true
    } else if q.len() == 0 {
        false
    } else if p[0] != q[0] {
        p[0] < q[0]
    } else {
        comes_first(p.drop_first(), q.drop_first())
    }
}

/// `path` is the first augmenting path from `from` to `to`: an augmenting
/// path that comes no later than any other.
pub open spec fn is_first_path(m: Seq<Seq<int>>, seen: Seq<bool>, path: Seq<int>, from: int, to: int) -> bool {
    &&& is_augmenting_path(m, seen, path, from, to)
    &&& forall|other: Seq<int>| #[trigger]
        is_augmenting_path(m, seen, other, from, to) ==> comes_first(path, other)
}

/// Two sequences each of which comes no later than the other are the same.
pub proof fn lemma_comes_first_both_ways(p: Seq<int>, q: Seq<int>)
    requires
        comes_first(p, q),
        comes_first(q, p),
    ensures
        p == q,
    decreases p.len(),
{
    if p.len() == 0 {
        assert(p =~= q);
    } else {
        lemma_comes_first_both_ways(p.drop_first(), q.drop_first());
        assert(p =~= seq![p[0]] + p.drop_first());
        assert(q =~= seq![q[0]] + q.drop_first());
    }
}

/// There is one first augmenting path at most.
pub proof fn lemma_first_path_is_one(
    m: Seq<Seq<int>>,
    seen: Seq<bool>,
    p: Seq<int>,
    q: Seq<int>,
    from: int,
    to: int,
)
    requires
        is_first_path(m, seen, p, from, to),
        is_first_path(m, seen, q, from, to),
    ensures
        p == q,
{
    lemma_comes_first_both_ways(p, q);
}

/// An exhausted search has marked every node of an augmenting path that
/// starts where it started.
proof fn lemma_exhausted_search_marks_path(
    m: Seq<Seq<int>>,
    before: Seq<bool>,
    after: Seq<bool>,
    path: Seq<int>,
    from: int,
    to: int,
    i: int,
)
    requires
        is_augmenting_path(m, before, path, from, to),
        search_exhausted(m, before, after, from),
        0 <= i < path.len(),
    ensures
        after[path[i]],
    decreases i,
{
    reveal(is_augmenting_path);
    if i > 0 {
        lemma_exhausted_search_marks_path(m, before, after, path, from, to, i - 1);
        let u = path[i - 1];
        let v = path[i];
        assert(0 <= u < m.len() && !before[u]);
        assert(0 <= v < m.len());
        assert(m[u][v] > 0);
    }
}

/// An exhausted search has marked the end of every augmenting path that
/// starts where it started.
pub proof fn lemma_exhausted_search_reaches(
    m: Seq<Seq<int>>,
    before: Seq<bool>,
    after: Seq<bool>,
    path: Seq<int>,
    from: int,
    to: int,
)
    requires
        is_augmenting_path(m, before, path, from, to),
        search_exhausted(m, before, after, from),
    ensures
        after[to],
        !before[to],
{
    reveal(is_augmenting_path);
    lemma_exhausted_search_marks_path(m, before, after, path, from, to, path.len() - 1);
}

/// Along an augmenting path, once a node is marked by an exhausted search,
/// so is every node after it.
proof fn lemma_marks_spread(
    m: Seq<Seq<int>>,
    before: Seq<bool>,
    after: Seq<bool>,
    path: Seq<int>,
    from: int,
    to: int,
    k: int,
    j: int,
)
    requires
        is_augmenting_path(m, before, path, from, to),
        closed(m, before, after),
        0 <= k <= j < path.len(),
        after[path[k]],
    ensures
        after[path[j]],
    decreases j - k,
{
    reveal(is_augmenting_path);
    if k < j {
        lemma_marks_spread(m, before, after, path, from, to, k, j - 1);
        let u = path[j - 1];
        let v = path[j];
        assert(0 <= u < m.len() && !before[u]);
        assert(0 <= v < m.len());
        assert(m[u][v] > 0);
    }
}

/// An augmenting path to a node that an exhausted search has not marked
/// passes through no node that it has marked.
pub proof fn lemma_path_avoids_marks(
    m: Seq<Seq<int>>,
    before: Seq<bool>,
    after: Seq<bool>,
    path: Seq<int>,
    from: int,
    to: int,
)
    requires
        is_augmenting_path(m, before, path, from, to),
        closed(m, before, after),
        !after[to],
    ensures
        is_augmenting_path(m, after, path, from, to),
{
    reveal(is_augmenting_path);
    assert forall|i: int| 0 <= i < path.len() implies !after[#[trigger] path[i]] by {
        if after[path[i]] {
            lemma_marks_spread(m, before, after, path, from, to, i, path.len() - 1);
        }
    }
}

/// An augmenting path between two different nodes goes on, after its first
/// edge, as an augmenting path that avoids its first node.
pub proof fn lemma_rest_of_path(m: Seq<Seq<int>>, seen: Seq<bool>, path: Seq<int>, from: int, to: int)
    requires
        is_augmenting_path(m, seen, path, from, to),
        from != to,
        seen.len() == m.len(),
    ensures
        path.len() >= 2,
        path[0] == from,
        0 <= path[1] < m.len(),
        m[from][path[1]] > 0,
        is_augmenting_path(m, seen.update(from, true), path.drop_first(), path[1], to),
{
    reveal(is_augmenting_path);
    let rest = path.drop_first();
    assert(0 <= path[0] < m.len());
    assert forall|i: int| 0 <= i < rest.len() implies 0 <= #[trigger] rest[i] < m.len() && !seen.update(
        from,
        true,
    )[rest[i]] by {
        assert(rest[i] == path[i + 1]);
        assert(path[0] != path[i + 1]);
    }
    assert forall|i: int, j: int| 0 <= i < j < rest.len() implies rest[i] != rest[j] by {
        assert(rest[i] == path[i + 1]);
        assert(rest[j] == path[j + 1]);
    }
    assert forall|i: int| 0 <= i < rest.len() - 1 implies m[#[trigger] rest[i]][rest[i + 1]] > 0 by {
        assert(rest[i] == path[i + 1]);
        assert(rest[i + 1] == path[i + 2]);
    }
}

/// An augmenting path starts and ends at nodes that are not marked.
pub proof fn lemma_path_ends(m: Seq<Seq<int>>, seen: Seq<bool>, path: Seq<int>, from: int, to: int)
    requires
        is_augmenting_path(m, seen, path, from, to),
    ensures
        path.len() >= 1,
        path[0] == from,
        path[path.len() - 1] == to,
        0 <= from < m.len(),
        0 <= to < m.len(),
        !seen[from],
        !seen[to],
{
    reveal(is_augmenting_path);
}

/// Where a search from `current` has exhausted every lower node that an
/// edge leads to, and `tail` is the first augmenting path from `next`, the
/// first augmenting path from `current` is the edge to `next` and then
/// `tail`.
pub proof fn lemma_first_path_extends(
    m: Seq<Seq<int>>,
    before: Seq<bool>,
    marks: Seq<bool>,
    tail: Seq<int>,
    current: int,
    next: int,
    to: int,
)
    requires
        m.len() == before.len(),
        marks.len() == before.len(),
        forall|u: int| 0 <= u < before.len() && before[u] ==> marks[u],
        0 <= current < m.len(),
        0 <= next < m.len(),
        current != to,
        !before[current],
        marks[current],
        m[current][next] > 0,
        closed(m, before.update(current, true), marks),
        forall|v: int| 0 <= v < next && #[trigger] m[current][v] > 0 ==> marks[v],
        is_first_path(m, marks, tail, next, to),
    ensures
        is_first_path(m, before, seq![current] + tail, current, to),
{
    let path = seq![current] + tail;
    let avoided = before.update(current, true);
    lemma_path_extends(m, before, marks, tail, current, next, to, 0, 0);
    lemma_path_ends(m, marks, tail, next, to);
    assert(path.drop_first() =~= tail);
    assert forall|other: Seq<int>| #[trigger]
        is_augmenting_path(m, before, other, current, to) implies comes_first(path, other) by {
        lemma_rest_of_path(m, before, other, current, to);
        let rest = other.drop_first();
        let v = other[1];
        lemma_path_avoids_marks(m, avoided, marks, rest, v, to);
        lemma_path_ends(m, marks, rest, v, to);
        assert(v >= next);
        assert(comes_first(tail, rest));
        assert(path[0] == other[0]);
        assert(comes_first(path, other));
    }
}

/// An augmenting path between two different nodes starts with an edge, and
/// carries no more than that edge has left.
pub proof fn lemma_first_edge(m: Seq<Seq<int>>, seen: Seq<bool>, path: Seq<int>, from: int, to: int, flow: int)
    requires
        is_augmenting_path(m, seen, path, from, to),
        from != to,
    ensures
        path.len() >= 2,
        path[0] == from,
        0 <= path[1] < m.len(),
        0 < m[from][path[1]],
        carry(m, path, flow) <= m[from][path[1]],
{
    reveal(is_augmenting_path);
    lemma_carry_bounds(m, path, flow);
    assert(0 <= path[0] < m.len());
}

/// A node that is not marked is an augmenting path to itself.
pub proof fn lemma_path_of_one_node(m: Seq<Seq<int>>, seen: Seq<bool>, node: int)
    requires
        0 <= node < m.len(),
        !seen[node],
    ensures
        is_first_path(m, seen, seq![node], node, node),
        forall|flow: int| carry(m, seq![node], flow) == flow,
        forall|amount: int| push_along(m, seq![node], amount) == m,
{
    reveal(is_augmenting_path);
    let path = seq![node];
    assert forall|other: Seq<int>| #[trigger]
        is_augmenting_path(m, seen, other, node, node) implies comes_first(path, other) by {
        assert(other.len() == 1);
        assert(comes_first(path.drop_first(), other.drop_first()));
    }
}

} // verus!
