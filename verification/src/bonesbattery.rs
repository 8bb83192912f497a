//! Shortest distances between all pairs of nodes of a graph that is given
//! by a square table of edge lengths, stored row after row.

use vstd::prelude::*;
use crate::flat::{lemma_flat_index_bound, lemma_flat_index_decode, lemma_flat_index_unique};

verus! {

/// The entry in row `from`, column `to` of the table `adj` with `n` columns:
/// the length of the edge from `from` to `to`.
pub open spec fn entry(adj: Seq<u64>, n: int, from: int, to: int) -> int {
    adj[from * n + to] as int
}

/// `walk` lists the nodes of a walk of at least one edge from `from` to `to`
/// among `n` nodes.
pub open spec fn is_walk(n: int, walk: Seq<int>, from: int, to: int) -> bool {
    &&& walk.len() >= 2
    &&& walk[0] == from
    &&& walk[walk.len() - 1] == to
    &&& forall|i: int| 0 <= i < walk.len() ==> 0 <= #[trigger] walk[i] < n
}

/// The length of the first `k` edges of `walk` together.
pub open spec fn legs(adj: Seq<u64>, n: int, walk: Seq<int>, k: int) -> int
    decreases k,
{
    if k <= 0 {
        0
    } else {
        legs(adj, n, walk, k - 1) + entry(adj, n, walk[k - 1], walk[k])
    }
}

/// The length of `walk`: the lengths of its edges together.
pub open spec fn walk_length(adj: Seq<u64>, n: int, walk: Seq<int>) -> int {
    legs(adj, n, walk, walk.len() - 1)
}

/// Every node of `walk` but the first and the last is below `k`.
pub open spec fn passes_below(walk: Seq<int>, k: int) -> bool {
    forall|i: int| 0 < i < walk.len() - 1 ==> #[trigger] walk[i] < k
}

/// Some walk from `from` to `to` has length `d`.
pub open spec fn reached(adj: Seq<u64>, n: int, d: int, from: int, to: int) -> bool {
    exists|walk: Seq<int>| #[trigger] is_walk(n, walk, from, to) && walk_length(adj, n, walk) == d
}

/// No walk from `from` to `to` that passes only through nodes below `k` is
/// shorter than `d`.
pub open spec fn bounded_below(adj: Seq<u64>, n: int, d: int, from: int, to: int, k: int) -> bool {
    forall|walk: Seq<int>| #[trigger]
        is_walk(n, walk, from, to) && passes_below(walk, k) ==> d <= walk_length(adj, n, walk)
}

/// `d` is the shortest distance from `from` to `to`: the length of some walk
/// between them, and no walk between them is shorter.
pub open spec fn is_shortest(adj: Seq<u64>, n: int, from: int, to: int, d: int) -> bool {
    &&& reached(adj, n, d, from, to)
    &&& forall|walk: Seq<int>| #[trigger] is_walk(n, walk, from, to) ==> d <= walk_length(adj, n, walk)
}

/// `table` holds the shortest distance for every pair of nodes.
pub open spec fn is_shortest_table(adj: Seq<u64>, n: int, table: Seq<u64>) -> bool {
    &&& table.len() == adj.len()
    &&& forall|a: int, b: int|
        0 <= a < n && 0 <= b < n ==> is_shortest(adj, n, a, b, #[trigger] entry(table, n, a, b))
}

/// More edges of a walk are at least as long as fewer.
pub proof fn lemma_legs_grow(adj: Seq<u64>, n: int, walk: Seq<int>, a: int, b: int)
    requires
        0 <= a <= b,
    ensures
        0 <= legs(adj, n, walk, a) <= legs(adj, n, walk, b),
    decreases b,
{
    if a < b {
        lemma_legs_grow(adj, n, walk, a, b - 1);
    } else if a > 0 {
        lemma_legs_grow(adj, n, walk, a - 1, a - 1);
    }
}

/// The first edges of the start of a walk are the first edges of the walk.
pub proof fn lemma_legs_of_start(adj: Seq<u64>, n: int, walk: Seq<int>, p: int, k: int)
    requires
        0 <= k <= p < walk.len(),
    ensures
        legs(adj, n, walk.subrange(0, p + 1), k) == legs(adj, n, walk, k),
    decreases k,
{
    if k > 0 {
        lemma_legs_of_start(adj, n, walk, p, k - 1);
    }
}

/// The first edges of the end of a walk are the edges of the walk from
/// where the end begins.
pub proof fn lemma_legs_of_end(adj: Seq<u64>, n: int, walk: Seq<int>, q: int, k: int)
    requires
        0 <= q,
        0 <= k,
        q + k < walk.len(),
    ensures
        legs(adj, n, walk.subrange(q, walk.len() as int), k) == legs(adj, n, walk, q + k) - legs(
            adj,
            n,
            walk,
            q,
        ),
    decreases k,
{
    if k > 0 {
        lemma_legs_of_end(adj, n, walk, q, k - 1);
    }
}

/// The edges of two walks, the second starting where the first ends, as the
/// edges of the one walk that they make.
proof fn lemma_legs_of_joined(adj: Seq<u64>, n: int, first: Seq<int>, second: Seq<int>, k: int)
    requires
        first.len() >= 1,
        second.len() >= 1,
        first[first.len() - 1] == second[0],
        0 <= k <= first.len() + second.len() - 2,
    ensures
        legs(adj, n, first + second.drop_first(), k) == if k <= first.len() - 1 {
            legs(adj, n, first, k)
        } else {
            legs(adj, n, first, first.len() - 1) + legs(adj, n, second, k - (first.len() - 1))
        },
    decreases k,
{
    if k > 0 {
        lemma_legs_of_joined(adj, n, first, second, k - 1);
        let joined = first + second.drop_first();
        if k > first.len() - 1 {
            let t = k - (first.len() - 1);
            assert(joined[k] == second[t]);
            if t == 1 {
                assert(joined[k - 1] == first[first.len() - 1]);
                assert(legs(adj, n, second, 0) == 0);
            } else {
                assert(joined[k - 1] == second[t - 1]);
            }
        } else {
            assert(joined[k] == first[k]);
            assert(joined[k - 1] == first[k - 1]);
        }
    }
}

/// Two walks, the second starting where the first ends, make a walk as long
/// as the two together.
pub proof fn lemma_walks_join(
    adj: Seq<u64>,
    n: int,
    first: Seq<int>,
    second: Seq<int>,
    from: int,
    middle: int,
    to: int,
)
    requires
        is_walk(n, first, from, middle),
        is_walk(n, second, middle, to),
    ensures
        is_walk(n, first + second.drop_first(), from, to),
        walk_length(adj, n, first + second.drop_first()) == walk_length(adj, n, first) + walk_length(
            adj,
            n,
            second,
        ),
{
    let joined = first + second.drop_first();
    lemma_legs_of_joined(adj, n, first, second, first.len() + second.len() - 2);
    assert forall|i: int| 0 <= i < joined.len() implies 0 <= #[trigger] joined[i] < n by {
        if i >= first.len() {
            assert(joined[i] == second[i - first.len() + 1]);
        } else {
            assert(joined[i] == first[i]);
        }
    }
    assert(joined[joined.len() - 1] == second[second.len() - 1]);
    assert(joined[0] == first[0]);
}

/// What holds of the start of a walk up to one of its inner nodes.
proof fn lemma_start_of_walk(adj: Seq<u64>, n: int, walk: Seq<int>, from: int, to: int, p: int)
    requires
        is_walk(n, walk, from, to),
        0 < p < walk.len() - 1,
    ensures
        is_walk(n, walk.subrange(0, p + 1), from, walk[p]),
        walk.subrange(0, p + 1).len() < walk.len(),
        walk_length(adj, n, walk.subrange(0, p + 1)) <= walk_length(adj, n, walk),
        walk_length(adj, n, walk.subrange(0, p + 1)) == legs(adj, n, walk, p),
        forall|k: int| passes_below(walk, k) ==> passes_below(walk.subrange(0, p + 1), k),
{
    let start = walk.subrange(0, p + 1);
    lemma_legs_of_start(adj, n, walk, p, p);
    lemma_legs_grow(adj, n, walk, p, walk.len() - 1);
    assert forall|i: int| 0 <= i < start.len() implies 0 <= #[trigger] start[i] < n by {
        assert(start[i] == walk[i]);
    }
    assert forall|k: int| passes_below(walk, k) implies passes_below(start, k) by {
        assert forall|i: int| 0 < i < start.len() - 1 implies #[trigger] start[i] < k by {
            assert(start[i] == walk[i]);
        }
    }
}

/// What holds of the end of a walk from one of its inner nodes on.
proof fn lemma_end_of_walk(adj: Seq<u64>, n: int, walk: Seq<int>, from: int, to: int, p: int)
    requires
        is_walk(n, walk, from, to),
        0 < p < walk.len() - 1,
    ensures
        is_walk(n, walk.subrange(p, walk.len() as int), walk[p], to),
        walk.subrange(p, walk.len() as int).len() < walk.len(),
        walk_length(adj, n, walk.subrange(p, walk.len() as int)) <= walk_length(adj, n, walk),
        walk_length(adj, n, walk.subrange(p, walk.len() as int)) == walk_length(adj, n, walk) - legs(
            adj,
            n,
            walk,
            p,
        ),
        forall|k: int|
            passes_below(walk, k) ==> passes_below(walk.subrange(p, walk.len() as int), k),
{
    let end = walk.subrange(p, walk.len() as int);
    lemma_legs_of_end(adj, n, walk, p, walk.len() - 1 - p);
    lemma_legs_grow(adj, n, walk, p, p);
    assert forall|i: int| 0 <= i < end.len() implies 0 <= #[trigger] end[i] < n by {
        assert(end[i] == walk[i + p]);
    }
    assert forall|k: int| passes_below(walk, k) implies passes_below(end, k) by {
        assert forall|i: int| 0 < i < end.len() - 1 implies #[trigger] end[i] < k by {
            assert(end[i] == walk[i + p]);
        }
    }
}

/// A bound on the walks to `k` that pass below `k` holds of the walks to
/// `k` that pass through `k` as well: they only come back to where they
/// have been.
proof fn lemma_bound_to_pivot(adj: Seq<u64>, n: int, d: int, from: int, k: int, walk: Seq<int>)
    requires
        bounded_below(adj, n, d, from, k, k),
        is_walk(n, walk, from, k),
        passes_below(walk, k + 1),
    ensures
        d <= walk_length(adj, n, walk),
    decreases walk.len(),
{
    if !passes_below(walk, k) {
        let p = choose|p: int| 0 < p < walk.len() - 1 && !(#[trigger] walk[p] < k);
        lemma_start_of_walk(adj, n, walk, from, k, p);
        lemma_bound_to_pivot(adj, n, d, from, k, walk.subrange(0, p + 1));
    }
}

/// A bound on the walks from `k` that pass below `k` holds of the walks
/// from `k` that pass through `k` as well.
proof fn lemma_bound_from_pivot(adj: Seq<u64>, n: int, d: int, k: int, to: int, walk: Seq<int>)
    requires
        bounded_below(adj, n, d, k, to, k),
        is_walk(n, walk, k, to),
        passes_below(walk, k + 1),
    ensures
        d <= walk_length(adj, n, walk),
    decreases walk.len(),
{
    if !passes_below(walk, k) {
        let p = choose|p: int| 0 < p < walk.len() - 1 && !(#[trigger] walk[p] < k);
        lemma_end_of_walk(adj, n, walk, k, to, p);
        lemma_bound_from_pivot(adj, n, d, k, to, walk.subrange(p, walk.len() as int));
    }
}

/// The step of the algorithm: once the walks that pass below `k` are
/// bounded, the shorter of the direct distance and the distance by way of
/// `k` bounds the walks that pass below `k + 1`.
pub proof fn lemma_relax(
    adj: Seq<u64>,
    n: int,
    direct: int,
    to_pivot: int,
    from_pivot: int,
    from: int,
    to: int,
    k: int,
)
    requires
        bounded_below(adj, n, direct, from, to, k),
        bounded_below(adj, n, to_pivot, from, k, k),
        bounded_below(adj, n, from_pivot, k, to, k),
    ensures
        bounded_below(
            adj,
            n,
            if direct <= to_pivot + from_pivot {
                direct
            } else {
                to_pivot + from_pivot
            },
            from,
            to,
            k + 1,
        ),
{
    let best = if direct <= to_pivot + from_pivot {
        direct
    } else {
        to_pivot + from_pivot
    };
    assert forall|walk: Seq<int>| #[trigger]
        is_walk(n, walk, from, to) && passes_below(walk, k + 1) implies best <= walk_length(
        adj,
        n,
        walk,
    ) by {
        if !passes_below(walk, k) {
            let p = choose|p: int| 0 < p < walk.len() - 1 && !(#[trigger] walk[p] < k);
            assert(walk[p] == k);
            lemma_start_of_walk(adj, n, walk, from, to, p);
            lemma_end_of_walk(adj, n, walk, from, to, p);
            lemma_bound_to_pivot(adj, n, to_pivot, from, k, walk.subrange(0, p + 1));
            lemma_bound_from_pivot(adj, n, from_pivot, k, to, walk.subrange(p, walk.len() as int));
        }
    }
}

/// A bound on the walks that pass below `k + 1` holds of those that pass
/// below `k`.
proof fn lemma_bound_narrows(adj: Seq<u64>, n: int, d: int, from: int, to: int, k: int)
    requires
        bounded_below(adj, n, d, from, to, k + 1),
    ensures
        bounded_below(adj, n, d, from, to, k),
{
    assert forall|walk: Seq<int>| #[trigger]
        is_walk(n, walk, from, to) && passes_below(walk, k) implies d <= walk_length(adj, n, walk) by {
        assert(passes_below(walk, k + 1));
    }
}

/// What the table `now` holds in round `k` when the entries before column
/// `j` of row `i` have been relaxed: no entry has grown, each is the length
/// of a walk, and each bounds the walks that pass below `k`, the relaxed
/// ones the walks that pass below `k + 1` as well.
spec fn settled(orig: Seq<u64>, n: int, now: Seq<u64>, k: int, i: int, j: int) -> bool {
    &&& now.len() == orig.len()
    &&& forall|a: int, b: int|
        0 <= a < n && 0 <= b < n ==> {
            &&& #[trigger] entry(now, n, a, b) <= entry(orig, n, a, b)
            &&& reached(orig, n, entry(now, n, a, b), a, b)
            &&& bounded_below(
                orig,
                n,
                entry(now, n, a, b),
                a,
                b,
                if a < i || (a == i && b < j) {
                    k + 1
                } else {
                    k
                },
            )
        }
}

/// Before the first round every entry is the length of the edge itself,
/// the one walk that passes through no node.
proof fn lemma_settled_at_start(orig: Seq<u64>, n: int)
    ensures
        settled(orig, n, orig, 0, 0, 0),
{
    assert forall|a: int, b: int| 0 <= a < n && 0 <= b < n implies {
        &&& #[trigger] entry(orig, n, a, b) <= entry(orig, n, a, b)
        &&& reached(orig, n, entry(orig, n, a, b), a, b)
        &&& bounded_below(orig, n, entry(orig, n, a, b), a, b, 0)
    } by {
        let edge = seq![a, b];
        assert(legs(orig, n, edge, 0) == 0);
        assert(is_walk(n, edge, a, b) && walk_length(orig, n, edge) == entry(orig, n, a, b));
        assert forall|walk: Seq<int>| #[trigger]
            is_walk(n, walk, a, b) && passes_below(walk, 0) implies entry(orig, n, a, b) <= walk_length(
            orig,
            n,
            walk,
        ) by {
            if walk.len() > 2 {
                assert(walk[1] < 0);
            }
            assert(legs(orig, n, walk, 0) == 0);
        }
    }
}

/// Relaxing the entry in column `j` of row `i` by way of `k` takes the
/// table from one settled state to the next.
proof fn lemma_settled_step(orig: Seq<u64>, n: int, before: Seq<u64>, now: Seq<u64>, k: int, i: int, j: int)
    requires
        settled(orig, n, before, k, i, j),
        orig.len() == n * n,
        0 <= k < n,
        0 <= i < n,
        0 <= j < n,
        now.len() == before.len(),
        forall|p: int| 0 <= p < before.len() && p != i * n + j ==> now[p] == before[p],
        now[i * n + j] == if entry(before, n, i, j) <= entry(before, n, i, k) + entry(before, n, k, j) {
            entry(before, n, i, j)
        } else {
            entry(before, n, i, k) + entry(before, n, k, j)
        },
    ensures
        settled(orig, n, now, k, i, j + 1),
{
    let direct = entry(before, n, i, j);
    let to_pivot = entry(before, n, i, k);
    let from_pivot = entry(before, n, k, j);
    if i < i || (i == i && k < j) {
        lemma_bound_narrows(orig, n, to_pivot, i, k, k);
    }
    if k < i || (k == i && j < j) {
        lemma_bound_narrows(orig, n, from_pivot, k, j, k);
    }
    lemma_relax(orig, n, direct, to_pivot, from_pivot, i, j, k);
    if direct > to_pivot + from_pivot {
        let first = choose|walk: Seq<int>| #[trigger]
            is_walk(n, walk, i, k) && walk_length(orig, n, walk) == to_pivot;
        let second = choose|walk: Seq<int>| #[trigger]
            is_walk(n, walk, k, j) && walk_length(orig, n, walk) == from_pivot;
        lemma_walks_join(orig, n, first, second, i, k, j);
        assert(is_walk(n, first + second.drop_first(), i, j));
    }
    assert forall|a: int, b: int| 0 <= a < n && 0 <= b < n implies {
        &&& #[trigger] entry(now, n, a, b) <= entry(orig, n, a, b)
        &&& reached(orig, n, entry(now, n, a, b), a, b)
        &&& bounded_below(
            orig,
            n,
            entry(now, n, a, b),
            a,
            b,
            if a < i || (a == i && b < j + 1) {
                k + 1
            } else {
                k
            },
        )
    } by {
        lemma_flat_index_bound(n, n, b, a);
        if a * n + b == i * n + j {
            lemma_flat_index_unique(n, b, a, j, i);
        } else {
            assert(entry(now, n, a, b) == entry(before, n, a, b));
        }
    }
}

/// Replaces every entry of the table `adj` of `n` rows and `n` columns by
/// the shortest distance between the two nodes: the length of the shortest
/// walk of at least one edge from the node of its row to the node of its
/// column, where the table gave the length of each edge.
pub fn floyd_warshall(adj: &mut Vec<u64>, n: usize)
    requires
        old(adj).len() == n * n,
        forall|p: int| 0 <= p < old(adj).len() ==> #[trigger] old(adj)@[p] <= u64::MAX / 2,
    ensures
        is_shortest_table(old(adj)@, n as int, final(adj)@),
        forall|p: int| 0 <= p < old(adj).len() ==> #[trigger] final(adj)@[p] <= old(adj)@[p],
{
    let ghost orig = adj@;
    proof {
        lemma_settled_at_start(orig, n as int);
    }
    let mut k: usize = 0;
    while k < n
        invariant
            0 <= k <= n,
            orig == old(adj)@,
            orig.len() == n * n,
            forall|p: int| 0 <= p < orig.len() ==> #[trigger] orig[p] <= u64::MAX / 2,
            settled(orig, n as int, adj@, k as int, 0, 0),
        decreases n - k,
    {
        let mut i: usize = 0;
        while i < n
            invariant
                0 <= i <= n,
                0 <= k < n,
                orig.len() == n * n,
                forall|p: int| 0 <= p < orig.len() ==> #[trigger] orig[p] <= u64::MAX / 2,
                settled(orig, n as int, adj@, k as int, i as int, 0),
            decreases n - i,
        {
            let mut j: usize = 0;
            while j < n
                invariant
                    0 <= j <= n,
                    0 <= i < n,
                    0 <= k < n,
                    orig.len() == n * n,
                    forall|p: int| 0 <= p < orig.len() ==> #[trigger] orig[p] <= u64::MAX / 2,
                    settled(orig, n as int, adj@, k as int, i as int, j as int),
                    adj.len() == n * n,
                decreases n - j,
            {
                proof {
                    lemma_flat_index_bound(n as int, n as int, j as int, i as int);
                    lemma_flat_index_bound(n as int, n as int, k as int, i as int);
                    lemma_flat_index_bound(n as int, n as int, j as int, k as int);
                    assert(entry(adj@, n as int, i as int, k as int) <= entry(orig, n as int, i as int, k as int));
                    assert(entry(adj@, n as int, k as int, j as int) <= entry(orig, n as int, k as int, j as int));
                }
                let ghost before = adj@;
                let a_ij: u64 = adj[i * n + j];
                let a_ik: u64 = adj[i * n + k];
                let a_kj: u64 = adj[k * n + j];
                let by_way: u64 = a_ik + a_kj;
                adj[i * n + j] = if a_ij <= by_way {
                    a_ij
                } else {
                    by_way
                };
                proof {
                    lemma_settled_step(orig, n as int, before, adj@, k as int, i as int, j as int);
                }
                j += 1;
            }
            assert(settled(orig, n as int, adj@, k as int, i + 1, 0));
            i += 1;
        }
        assert(settled(orig, n as int, adj@, k + 1, 0, 0));
        k += 1;
    }
    proof {
        assert forall|a: int, b: int| 0 <= a < n && 0 <= b < n implies is_shortest(
            orig,
            n as int,
            a,
            b,
            #[trigger] entry(adj@, n as int, a, b),
        ) by {
            let d = entry(adj@, n as int, a, b);
            assert(bounded_below(orig, n as int, d, a, b, n as int));
            assert forall|walk: Seq<int>| #[trigger] is_walk(n as int, walk, a, b) implies d <= walk_length(
                orig,
                n as int,
                walk,
            ) by {
                assert(passes_below(walk, n as int));
            }
        }
        assert forall|p: int| 0 <= p < orig.len() implies #[trigger] adj@[p] <= orig[p] by {
            lemma_flat_index_decode(n as int, n as int, p);
            assert(entry(adj@, n as int, p / (n as int), p % (n as int)) <= entry(
                orig,
                n as int,
                p / (n as int),
                p % (n as int),
            ));
        }
    }
}

/// The length that stands for "no road".
pub const MAX_D: u64 = 1000000000000;

/// The table of road lengths among `n` nodes: each road in turn sets the
/// entries for its two directions, and `MAX_D` stands where no road runs.
pub open spec fn road_table(n: int, roads: Seq<(usize, usize, u64)>) -> Seq<u64>
    decreases roads.len(),
{
    if roads.len() == 0 {
        Seq::new((n * n) as nat, |p: int| MAX_D)
    } else {
        let road = roads.last();
        road_table(n, roads.drop_last()).update(road.0 * n + road.1, road.2).update(
            road.1 * n + road.0,
            road.2,
        )
    }
}

/// The table of stops for the range `range`: one stop between two nodes that
/// are no further apart than `range`, and more stops than any route needs,
/// `n + 1`, between the others.
pub open spec fn stops_table(dist: Seq<u64>, n: int, range: int) -> Seq<u64> {
    Seq::new(
        dist.len(),
        |p: int|
            if dist[p] <= range {
                1u64
            } else {
                (n + 1) as u64
            },
    )
}

/// With the range `range`, some walk from `from` to `to` makes no more than
/// `k` stops.
pub open spec fn within_stops(dist: Seq<u64>, n: int, range: int, k: int, from: int, to: int) -> bool {
    exists|walk: Seq<int>| #[trigger]
        is_walk(n, walk, from, to) && walk_length(stops_table(dist, n, range), n, walk) <= k
}

/// With the range `range`, every node is within `k` stops of every node.
pub open spec fn suffices(dist: Seq<u64>, n: int, range: int, k: int) -> bool {
    forall|a: int, b: int| 0 <= a < n && 0 <= b < n ==> #[trigger] within_stops(dist, n, range, k, a, b)
}

/// `range` is the least range from one up to `top` that suffices, or `MAX_D`
/// where none of them does.
pub open spec fn is_least_range(dist: Seq<u64>, n: int, k: int, top: int, range: int) -> bool {
    ||| {
        &&& range == MAX_D
        &&& forall|r: int| 1 <= r <= top ==> !#[trigger] suffices(dist, n, r, k)
    }
    ||| {
        &&& 1 <= range <= top
        &&& suffices(dist, n, range, k)
        &&& forall|r: int| 1 <= r < range ==> !#[trigger] suffices(dist, n, r, k)
    }
}

/// `top` is the largest entry of `table`.
pub open spec fn is_largest(table: Seq<u64>, top: int) -> bool {
    &&& forall|p: int| 0 <= p < table.len() ==> #[trigger] table[p] <= top
    &&& exists|p: int| 0 <= p < table.len() && #[trigger] table[p] == top
}

/// Where no edge of one table is longer than in another, no walk is.
proof fn lemma_legs_compare(n: int, short: Seq<u64>, long: Seq<u64>, walk: Seq<int>, k: int)
    requires
        short.len() == n * n,
        long.len() == n * n,
        forall|p: int| 0 <= p < n * n ==> #[trigger] short[p] <= long[p],
        forall|i: int| 0 <= i < walk.len() ==> 0 <= #[trigger] walk[i] < n,
        0 <= k < walk.len(),
    ensures
        legs(short, n, walk, k) <= legs(long, n, walk, k),
    decreases k,
{
    if k > 0 {
        lemma_legs_compare(n, short, long, walk, k - 1);
        lemma_flat_index_bound(n, n, walk[k], walk[k - 1]);
        let p = walk[k - 1] * n + walk[k];
        assert(short[p] <= long[p]);
    }
}

/// A range that suffices still does when it grows.
pub proof fn lemma_suffices_grows(dist: Seq<u64>, n: int, k: int, range: int, wider: int)
    requires
        dist.len() == n * n,
        0 <= n < u64::MAX,
        range <= wider,
        suffices(dist, n, range, k),
    ensures
        suffices(dist, n, wider, k),
{
    assert forall|a: int, b: int| 0 <= a < n && 0 <= b < n implies #[trigger] within_stops(
        dist,
        n,
        wider,
        k,
        a,
        b,
    ) by {
        assert(within_stops(dist, n, range, k, a, b));
        let walk = choose|walk: Seq<int>| #[trigger]
            is_walk(n, walk, a, b) && walk_length(stops_table(dist, n, range), n, walk) <= k;
        lemma_legs_compare(
            n,
            stops_table(dist, n, wider),
            stops_table(dist, n, range),
            walk,
            walk.len() - 1,
        );
        assert(is_walk(n, walk, a, b));
    }
}

/// The largest entry of a table that is not empty.
pub fn largest(table: &Vec<u64>) -> (top: u64)
    requires
        table.len() > 0,
    ensures
        is_largest(table@, top as int),
{
    let mut top: u64 = table[0];
    let mut p: usize = 1;
    while p < table.len()
        invariant
            1 <= p <= table.len(),
            forall|q: int| 0 <= q < p ==> #[trigger] table@[q] <= top,
            exists|q: int| 0 <= q < p && #[trigger] table@[q] == top,
        decreases table.len() - p,
    {
        if table[p] > top {
            top = table[p];
        }
        p += 1;
    }
    top
}

/// The table of road lengths among `n` nodes, stored row after row.
pub fn build_table(n: usize, roads: &Vec<(usize, usize, u64)>) -> (adj: Vec<u64>)
    requires
        n * n <= usize::MAX,
        forall|r: int| 0 <= r < roads.len() ==> (#[trigger] roads@[r]).0 < n && roads@[r].1 < n,
    ensures
        adj@ == road_table(n as int, roads@),
        adj.len() == n * n,
{
    let mut adj: Vec<u64> = vec![MAX_D; n * n];
    assert(adj@ =~= road_table(n as int, roads@.take(0)));
    let mut r: usize = 0;
    while r < roads.len()
        invariant
            0 <= r <= roads.len(),
            n * n <= usize::MAX,
            adj.len() == n * n,
            forall|r: int| 0 <= r < roads.len() ==> (#[trigger] roads@[r]).0 < n && roads@[r].1 < n,
            adj@ == road_table(n as int, roads@.take(r as int)),
        decreases roads.len() - r,
    {
        let (from, to, length) = roads[r];
        proof {
            lemma_flat_index_bound(n as int, n as int, to as int, from as int);
            lemma_flat_index_bound(n as int, n as int, from as int, to as int);
            assert(roads@.take(r + 1).drop_last() =~= roads@.take(r as int));
            assert(roads@.take(r + 1).last() == roads@[r as int]);
        }
        adj[from * n + to] = length;
        adj[to * n + from] = length;
        r += 1;
    }
    assert(roads@.take(roads.len() as int) =~= roads@);
    adj
}

/// The largest entry of the table of shortest stop counts decides whether
/// the range suffices.
proof fn lemma_diameter_decides(
    dist: Seq<u64>,
    n: int,
    range: int,
    shortest: Seq<u64>,
    diameter: int,
    k: int,
)
    requires
        0 <= n,
        dist.len() == n * n,
        is_shortest_table(stops_table(dist, n, range), n, shortest),
        is_largest(shortest, diameter),
    ensures
        diameter <= k <==> suffices(dist, n, range, k),
{
    let stops = stops_table(dist, n, range);
    if diameter <= k {
        assert forall|a: int, b: int| 0 <= a < n && 0 <= b < n implies #[trigger] within_stops(
            dist,
            n,
            range,
            k,
            a,
            b,
        ) by {
            lemma_flat_index_bound(n, n, b, a);
            let d = entry(shortest, n, a, b);
            assert(is_shortest(stops, n, a, b, d));
            let walk = choose|walk: Seq<int>| #[trigger]
                is_walk(n, walk, a, b) && walk_length(stops, n, walk) == d;
            assert(is_walk(n, walk, a, b) && walk_length(stops, n, walk) <= k);
        }
    } else {
        let p = choose|p: int| 0 <= p < shortest.len() && #[trigger] shortest[p] == diameter;
        lemma_flat_index_decode(n, n, p);
        let a = p / n;
        let b = p % n;
        assert(is_shortest(stops, n, a, b, entry(shortest, n, a, b)));
        assert(!within_stops(dist, n, range, k, a, b));
    }
}

/// Writes the table of stops for the range `range` into `stops`.
fn fill_stops(dist: &Vec<u64>, stops: &mut Vec<u64>, n: usize, range: u64)
    requires
        dist.len() == n * n,
        old(stops).len() == n * n,
        n < u64::MAX,
    ensures
        final(stops)@ == stops_table(dist@, n as int, range as int),
{
    let ghost goal = stops_table(dist@, n as int, range as int);
    let mut i: usize = 0;
    while i < n
        invariant
            0 <= i <= n,
            n < u64::MAX,
            dist.len() == n * n,
            stops.len() == n * n,
            goal == stops_table(dist@, n as int, range as int),
            forall|p: int| 0 <= p < i * n ==> #[trigger] stops@[p] == goal[p],
        decreases n - i,
    {
        let mut j: usize = 0;
        while j < n
            invariant
                0 <= j <= n,
                0 <= i < n,
                n < u64::MAX,
                dist.len() == n * n,
                stops.len() == n * n,
                goal == stops_table(dist@, n as int, range as int),
                forall|p: int| 0 <= p < i * n + j ==> #[trigger] stops@[p] == goal[p],
            decreases n - j,
        {
            proof {
                lemma_flat_index_bound(n as int, n as int, j as int, i as int);
            }
            let is_close: bool = dist[i * n + j] <= range;
            stops[i * n + j] = if is_close {
                1
            } else {
                n as u64 + 1
            };
            j += 1;
        }
        assert((i + 1) * n == i * n + n) by (nonlinear_arith);
        i += 1;
    }
    assert(stops@ =~= goal);
}

/// The least range, from one up to the largest distance, with which every
/// node is within `k` stops of every node, or `MAX_D` where no such range
/// will do. `dist` holds the distance from each of `n` nodes to each.
pub fn least_range(dist: &Vec<u64>, n: usize, k: usize) -> (range: u64)
    requires
        n >= 1,
        dist.len() == n * n,
        forall|p: int| 0 <= p < dist.len() ==> #[trigger] dist@[p] <= u64::MAX / 2,
    ensures
        exists|top: int| #[trigger]
            is_largest(dist@, top) && is_least_range(dist@, n as int, k as int, top, range as int),
{
    proof {
        assert(n <= 0xffff_ffff) by (nonlinear_arith)
            requires
                n * n <= u64::MAX,
        ;
        assert(1 * n <= n * n) by (nonlinear_arith)
            requires
                n >= 1,
        ;
    }
    let mut min_stops: Vec<u64> = vec![0; n * n];
    let mut min: u64 = 1;
    let mut max: u64 = largest(dist);
    let ghost top = max as int;
    let mut best_range: u64 = MAX_D;
    while min <= max
        invariant
            1 <= n <= 0xffff_ffff,
            dist.len() == n * n,
            min_stops.len() == n * n,
            is_largest(dist@, top),
            top <= u64::MAX / 2,
            1 <= min <= top + 1,
            max <= top,
            forall|r: int| 1 <= r < min ==> !#[trigger] suffices(dist@, n as int, r, k as int),
            (best_range == MAX_D && max == top) || (best_range == max + 1 && best_range <= top && suffices(
                dist@,
                n as int,
                best_range as int,
                k as int,
            )),
        decreases max + 1 - min,
    {
        let mid: u64 = (min + max) / 2;
        fill_stops(dist, &mut min_stops, n, mid);
        let ghost stops = min_stops@;
        floyd_warshall(&mut min_stops, n);
        let diam: u64 = largest(&min_stops);
        proof {
            lemma_diameter_decides(dist@, n as int, mid as int, min_stops@, diam as int, k as int);
        }
        if diam <= k as u64 {
            best_range = mid;
            max = mid - 1;
        } else {
            proof {
                assert forall|r: int| 1 <= r < mid + 1 implies !#[trigger] suffices(
                    dist@,
                    n as int,
                    r,
                    k as int,
                ) by {
                    if suffices(dist@, n as int, r, k as int) {
                        lemma_suffices_grows(dist@, n as int, k as int, r, mid as int);
                    }
                }
            }
            min = mid + 1;
        }
    }
    best_range
}

/// Every entry of a table of roads is `MAX_D` or the length of a road.
proof fn lemma_road_table_bounded(n: int, roads: Seq<(usize, usize, u64)>, bound: int)
    requires
        0 <= n,
        MAX_D <= bound,
        forall|r: int| 0 <= r < roads.len() ==> (#[trigger] roads[r]).2 <= bound,
        forall|r: int| 0 <= r < roads.len() ==> (#[trigger] roads[r]).0 < n && roads[r].1 < n,
    ensures
        road_table(n, roads).len() == n * n,
        forall|p: int| 0 <= p < n * n ==> #[trigger] road_table(n, roads)[p] <= bound,
    decreases roads.len(),
{
    assert(0 <= n * n) by (nonlinear_arith);
    if roads.len() > 0 {
        let rest = roads.drop_last();
        assert forall|r: int| 0 <= r < rest.len() implies (#[trigger] rest[r]).2 <= bound by {
            assert(rest[r] == roads[r]);
        }
        assert forall|r: int| 0 <= r < rest.len() implies (#[trigger] rest[r]).0 < n && rest[r].1 < n by {
            assert(rest[r] == roads[r]);
        }
        lemma_road_table_bounded(n, rest, bound);
        let road = roads.last();
        assert(road == roads[roads.len() - 1]);
        lemma_flat_index_bound(n, n, road.1 as int, road.0 as int);
        lemma_flat_index_bound(n, n, road.0 as int, road.1 as int);
    }
}

/// The least battery range with which a trip between any two of `n` nodes
/// needs no more than `k` stops, where `roads` lists the roads as two nodes
/// and a length each, and a stop is possible at every node: the least range
/// from one up to the largest shortest distance that suffices, or `MAX_D`
/// where none does.
pub fn solve_case(n: usize, k: usize, roads: &Vec<(usize, usize, u64)>) -> (best_range: u64)
    requires
        n >= 1,
        n * n <= usize::MAX,
        forall|r: int| 0 <= r < roads.len() ==> (#[trigger] roads@[r]).0 < n && roads@[r].1 < n,
        forall|r: int| 0 <= r < roads.len() ==> (#[trigger] roads@[r]).2 <= u64::MAX / 2,
    ensures
        exists|dist: Seq<u64>, top: int|
            is_shortest_table(road_table(n as int, roads@), n as int, dist) && #[trigger] is_least_range(
                dist,
                n as int,
                k as int,
                top,
                best_range as int,
            ) && is_largest(dist, top),
{
    let mut adj: Vec<u64> = build_table(n, roads);
    proof {
        lemma_road_table_bounded(n as int, roads@, (u64::MAX / 2) as int);
    }
    floyd_warshall(&mut adj, n);
    let best_range: u64 = least_range(&adj, n, k);
    proof {
        let top = choose|top: int| #[trigger]
            is_largest(adj@, top) && is_least_range(adj@, n as int, k as int, top, best_range as int);
        assert(is_least_range(adj@, n as int, k as int, top, best_range as int));
    }
    best_range
}

} // verus!
