//! A flow network held as a dense matrix of residual capacities, and the
//! search for augmenting paths that computes its maximum flow.

use vstd::prelude::*;
use crate::augmenting::{
    carry, closed, is_augmenting_path, is_first_path, lemma_exhausted_search_reaches,
    lemma_first_edge, lemma_first_path_extends, lemma_marks_path_extends, lemma_path_ends,
    lemma_path_extends, lemma_path_of_one_node, lemma_reach_extends, lemma_shift_effects,
    marks_path, push_along, reaches, search_exhausted, shift,
};
use crate::flow::{
    carried_flow, is_capacity, is_max_flow, is_residual, is_saturated_cut, lemma_flow_value_bounds,
    lemma_max_flow_bounds, lemma_residual_carries_flow, lemma_residual_conserves,
    lemma_saturated_cut_is_max_flow, pushed_value,
};
use crate::matrix::{col_sum, row_sum, square};
use crate::sums::{
    lemma_partial_sum_le, lemma_partial_sum_nonneg, lemma_partial_sum_one_change, total,
};

verus! {

/// A network of `size` nodes. `capacity[u][v]` is what the edge from `u` to
/// `v` can still carry.
pub struct FlowNetwork {
    pub size: usize,
    pub capacity: Vec<Vec<usize>>,
}

impl View for FlowNetwork {
    type V = Seq<Seq<int>>;

    /// The capacity matrix, row by row.
    open spec fn view(&self) -> Seq<Seq<int>> {
        Seq::new(
            self.capacity@.len(),
            |u: int| Seq::new(self.capacity@[u]@.len(), |v: int| self.capacity@[u]@[v] as int),
        )
    }
}

/// One for each node that is not marked, zero for each that is.
pub open spec fn unseen_marks(seen: Seq<bool>) -> Seq<int> {
    Seq::new(seen.len(), |u: int| if seen[u] { 0int } else { 1int })
}

/// How many nodes are not marked.
pub open spec fn unseen(seen: Seq<bool>) -> int {
    total(unseen_marks(seen))
}

/// Every node that `before` marks is marked by `after`.
pub open spec fn marks_kept(before: Seq<bool>, after: Seq<bool>) -> bool {
    &&& after.len() == before.len()
    &&& forall|u: int| 0 <= u < before.len() && before[u] ==> after[u]
}

/// Marking more nodes leaves no more nodes unmarked.
proof fn lemma_unseen_shrinks(before: Seq<bool>, after: Seq<bool>)
    requires
        marks_kept(before, after),
    ensures
        0 <= unseen(after) <= unseen(before),
{
    lemma_partial_sum_le(unseen_marks(after), unseen_marks(before), before.len() as int);
    lemma_partial_sum_nonneg(unseen_marks(after), after.len() as int);
}

/// Marking a node that was not marked leaves one node fewer unmarked.
proof fn lemma_unseen_after_mark(seen: Seq<bool>, u: int)
    requires
        0 <= u < seen.len(),
        !seen[u],
    ensures
        unseen(seen.update(u, true)) == unseen(seen) - 1,
{
    lemma_partial_sum_one_change(
        unseen_marks(seen),
        unseen_marks(seen.update(u, true)),
        seen.len() as int,
        u,
    );
}

/// What holds after a search from `next` has pushed `found` and the same
/// amount is then shifted on the edge from `current` to `next`: the
/// bookkeeping of one successful step of the search.
proof fn lemma_pushed_on(
    m: Seq<Seq<int>>,
    before: Seq<bool>,
    marks: Seq<bool>,
    after: Seq<bool>,
    reached: Seq<Seq<int>>,
    current: int,
    next: int,
    sink: int,
    flow: int,
    bottleneck: int,
    found: int,
)
    requires
        square(m, m.len() as int),
        square(reached, m.len() as int),
        before.len() == m.len(),
        marks_kept(before, marks),
        0 <= current < m.len(),
        0 <= next < m.len(),
        0 <= sink < m.len(),
        current != sink,
        current != next,
        marks[current],
        !before[current],
        !marks[next],
        m[current][next] > 0,
        bottleneck == (if flow < m[current][next] {
            flow
        } else {
            m[current][next]
        }),
        forall|u: int, v: int|
            0 <= u < m.len() && 0 <= v < m.len() ==> #[trigger] reached[u][v] + reached[v][u] == m[u][v]
                + m[v][u],
        forall|u: int|
            0 <= u < m.len() ==> #[trigger] row_sum(reached, u) == row_sum(m, u) + (if u == sink {
                found
            } else {
                0
            }) - (if u == next {
                found
            } else {
                0
            }),
        forall|u: int, v: int|
            0 <= u < m.len() && 0 <= v < m.len() && (marks[u] || marks[v]) ==> #[trigger] reached[u][v]
                == m[u][v],
        closed(m, before.update(current, true), marks),
        forall|v: int| 0 <= v < next && #[trigger] m[current][v] > 0 ==> marks[v],
        after.len() == m.len(),
        after[current],
        exists|tail: Seq<int>| #[trigger]
            is_first_path(m, marks, tail, next, sink) && found == carry(m, tail, bottleneck)
                && reached == push_along(m, tail, found) && marks_path(after, tail),
    ensures
        ({
            let given = shift(reached, current, next, found);
            &&& forall|u: int, v: int|
                0 <= u < m.len() && 0 <= v < m.len() ==> #[trigger] given[u][v] + given[v][u] == m[u][v]
                    + m[v][u]
            &&& forall|u: int|
                0 <= u < m.len() ==> #[trigger] row_sum(given, u) == row_sum(m, u) + (if u == sink {
                    found
                } else {
                    0
                }) - (if u == current {
                    found
                } else {
                    0
                })
            &&& forall|u: int, v: int|
                0 <= u < m.len() && 0 <= v < m.len() && (before[u] || before[v]) ==> #[trigger] given[u][v]
                    == m[u][v]
            &&& exists|path: Seq<int>| #[trigger]
                is_first_path(m, before, path, current, sink) && found == carry(m, path, flow) && given
                    == push_along(m, path, found) && marks_path(after, path)
        }),
{
    let n = m.len() as int;
    let given = shift(reached, current, next, found);
    lemma_shift_effects(reached, n, current, next, found);
    assert forall|u: int, v: int| 0 <= u < n && 0 <= v < n implies #[trigger] given[u][v] + given[v][u]
        == m[u][v] + m[v][u] by {
        assert(reached[u][v] + reached[v][u] == m[u][v] + m[v][u]);
    }
    assert forall|u: int| 0 <= u < n implies #[trigger] row_sum(given, u) == row_sum(m, u) + (if u
        == sink {
        found
    } else {
        0
    }) - (if u == current {
        found
    } else {
        0
    }) by {
        assert(row_sum(reached, u) == row_sum(m, u) + (if u == sink {
            found
        } else {
            0
        }) - (if u == next {
            found
        } else {
            0
        }));
    }
    assert forall|u: int, v: int|
        0 <= u < n && 0 <= v < n && (before[u] || before[v]) implies #[trigger] given[u][v] == m[u][v] by {
        assert(marks[u] || marks[v]);
        assert(reached[u][v] == m[u][v]);
    }
    let tail = choose|tail: Seq<int>| #[trigger]
        is_first_path(m, marks, tail, next, sink) && found == carry(m, tail, bottleneck) && reached
            == push_along(m, tail, found) && marks_path(after, tail);
    lemma_path_extends(m, before, marks, tail, current, next, sink, flow, found);
    lemma_first_path_extends(m, before, marks, tail, current, next, sink);
    lemma_path_ends(m, marks, tail, next, sink);
    lemma_marks_path_extends(after, tail, current);
    assert(is_first_path(m, before, seq![current] + tail, current, sink));
}

/// In a network where no edge and the edge back have more than one unit
/// between them, a search that finds a path pushes exactly one unit.
proof fn lemma_found_one(
    c: Seq<Seq<int>>,
    before: Seq<Seq<int>>,
    fresh: Seq<bool>,
    path: Seq<int>,
    source: int,
    sink: int,
    flow: int,
)
    requires
        is_residual(c, before, source, sink),
        0 <= source < c.len(),
        source != sink,
        is_augmenting_path(before, fresh, path, source, sink),
        forall|u: int, v: int| 0 <= u < c.len() && 0 <= v < c.len() ==> #[trigger] c[u][v] + c[v][u] <= 1,
    ensures
        carry(before, path, flow) <= 1,
{
    lemma_first_edge(before, fresh, path, source, sink, flow);
    let v = path[1];
    assert(before[source][v] + before[v][source] == c[source][v] + c[v][source]);
    assert(c[source][v] + c[v][source] <= 1);
    assert(before[v][source] >= 0);
}

impl FlowNetwork {
    /// The matrix is square, with `size` rows.
    pub open spec fn wf(&self) -> bool {
        &&& self.capacity@.len() == self.size
        &&& forall|u: int| 0 <= u < self.size ==> (#[trigger] self.capacity@[u])@.len() == self.size
    }

    /// Each edge together with the edge that runs back fits in a `usize`, so
    /// that whatever is pushed along one can be credited to the other.
    pub open spec fn pairs_fit(&self) -> bool {
        forall|u: int, v: int|
            0 <= u < self.size && 0 <= v < self.size ==> #[trigger] self@[u][v] + self@[v][u]
                <= usize::MAX
    }

    /// A network of `size` nodes and no edges.
    pub fn new(size: usize) -> (network: FlowNetwork)
        ensures
            network.wf(),
            network.size == size,
            forall|u: int, v: int| 0 <= u < size && 0 <= v < size ==> #[trigger] network@[u][v] == 0,
    {
        let mut capacity: Vec<Vec<usize>> = Vec::new();
        let mut u: usize = 0;
        while u < size
            invariant
                u <= size,
                capacity@.len() == u,
                forall|a: int| 0 <= a < u ==> (#[trigger] capacity@[a])@.len() == size,
                forall|a: int, b: int| 0 <= a < u && 0 <= b < size ==> #[trigger] capacity@[a]@[b] == 0,
            decreases size - u,
        {
            let row: Vec<usize> = vec![0usize; size];
            capacity.push(row);
            u += 1;
        }
        FlowNetwork { size, capacity }
    }

    /// Searches depth first, from `current` through the nodes that `seen`
    /// does not mark, for a path to `sink` along edges with capacity left,
    /// trying nodes in the order of their numbers and marking each node that
    /// it enters. Pushes along the first path found as much as it can carry,
    /// at most `flow`, and returns what was pushed: zero where no such path
    /// exists, or where `flow` is zero.
    pub fn augment(&mut self, seen: &mut Vec<bool>, current: usize, sink: usize, flow: usize) -> (pushed:
        usize)
        requires
            old(self).wf(),
            old(self).pairs_fit(),
            old(seen)@.len() == old(self).size,
            current < old(self).size,
            sink < old(self).size,
            !old(seen)@[current as int],
        ensures
            final(self).wf(),
            final(self).size == old(self).size,
            marks_kept(old(seen)@, final(seen)@),
            final(seen)@[sink as int] == old(seen)@[sink as int],
            current != sink ==> final(seen)@[current as int],
            // Every node that the search has marked can be reached.
            forall|u: int|
                0 <= u < old(self).size && #[trigger] final(seen)@[u] && !old(seen)@[u] ==> reaches(
                    old(self)@,
                    old(seen)@,
                    current as int,
                    u,
                ),
            pushed <= flow,
            // Whatever an edge lost, the edge that runs back gained.
            forall|u: int, v: int|
                0 <= u < old(self).size && 0 <= v < old(self).size ==> #[trigger] final(self)@[u][v]
                    + final(self)@[v][u] == old(self)@[u][v] + old(self)@[v][u],
            // What was pushed left `current` and arrived at `sink`; every
            // other node passed on what it received.
            forall|u: int|
                0 <= u < old(self).size ==> #[trigger] row_sum(final(self)@, u) == row_sum(
                    old(self)@,
                    u,
                ) + (if u == sink { pushed as int } else { 0 }) - (if u == current { pushed as int } else { 0 }),
            // No edge at a node that was marked before has changed.
            forall|u: int, v: int|
                0 <= u < old(self).size && 0 <= v < old(self).size && (old(seen)@[u] || old(
                    seen,
                )@[v]) ==> #[trigger] final(self)@[u][v] == old(self)@[u][v],
            // Where nothing was pushed, nothing has changed, and the search
            // is exhausted: from a node that it marked, every edge with
            // capacity left leads to a marked node.
            pushed == 0 ==> final(self)@ == old(self)@,
            pushed == 0 && flow > 0 ==> search_exhausted(
                old(self)@,
                old(seen)@,
                final(seen)@,
                current as int,
            ),
            // Of a flow that is not zero, something is pushed exactly where
            // a path exists, and then along the first such path, as much as
            // it carries.
            pushed > 0 <==> flow > 0 && exists|path: Seq<int>| #[trigger]
                is_augmenting_path(old(self)@, old(seen)@, path, current as int, sink as int),
            pushed > 0 ==> exists|path: Seq<int>| #[trigger]
                is_first_path(old(self)@, old(seen)@, path, current as int, sink as int) && pushed
                    == carry(old(self)@, path, flow as int) && final(self)@ == push_along(
                    old(self)@,
                    path,
                    pushed as int,
                ) && marks_path(final(seen)@, path),
        decreases unseen(old(seen)@),
    {
        if current == sink {
            proof {
                lemma_path_of_one_node(old(self)@, old(seen)@, current as int);
            }
            return flow;
        }
        let ghost n = self.size as int;
        seen[current] = true;
        proof {
            lemma_unseen_after_mark(old(seen)@, current as int);
            lemma_unseen_shrinks(seen@, seen@);
            lemma_path_of_one_node(old(self)@, old(seen)@, current as int);
        }
        let mut i: usize = 0;
        while i < self.size
            invariant
                0 <= i <= self.size,
                n == self.size,
                self.wf(),
                self.size == old(self).size,
                self@ == old(self)@,
                old(self).pairs_fit(),
                old(seen)@.len() == n,
                current < n,
                sink < n,
                current != sink,
                !old(seen)@[current as int],
                marks_kept(old(seen)@, seen@),
                seen@[current as int],
                seen@[sink as int] == old(seen)@[sink as int],
                0 <= unseen(seen@) < unseen(old(seen)@),
                flow > 0 ==> forall|v: int| 0 <= v < i && #[trigger] self@[current as int][v] > 0 ==> seen@[v],
                flow > 0 ==> closed(self@, old(seen)@.update(current as int, true), seen@),
                forall|u: int|
                    0 <= u < n && #[trigger] seen@[u] && !old(seen)@[u] ==> reaches(
                        old(self)@,
                        old(seen)@,
                        current as int,
                        u,
                    ),
            decreases self.size - i,
        {
            if !seen[i] && self.capacity[current][i] > 0 {
                let room: usize = self.capacity[current][i];
                let bottleneck: usize = if flow < room { flow } else { room };
                let ghost marks = seen@;
                assert(self@[current as int][i as int] == room);
                let found: usize = self.augment(seen, i, sink, bottleneck);
                proof {
                    lemma_unseen_shrinks(marks, seen@);
                    assert forall|u: int| 0 <= u < n && #[trigger] seen@[u] && !old(seen)@[u] implies reaches(
                        old(self)@,
                        old(seen)@,
                        current as int,
                        u,
                    ) by {
                        if !marks[u] {
                            lemma_reach_extends(old(self)@, old(seen)@, marks, current as int, i as int, u);
                        }
                    }
                }
                if found > 0 {
                    let ghost reached = self@;
                    assert(reached[current as int][i as int] == room);
                    assert(reached[i as int][current as int] + reached[current as int][i as int]
                        <= usize::MAX) by {
                        assert(old(self)@[i as int][current as int] + old(self)@[current as int][i as int]
                            <= usize::MAX);
                    }
                    self.capacity[current][i] -= found;
                    let ghost taken = self@;
                    assert forall|u: int, v: int| 0 <= u < n && 0 <= v < n implies #[trigger] taken[u][v]
                        == (if u == current && v == i {
                        reached[u][v] - found
                    } else {
                        reached[u][v]
                    }) by {}
                    self.capacity[i][current] += found;
                    assert forall|u: int, v: int| 0 <= u < n && 0 <= v < n implies #[trigger] self@[u][v]
                        == (if u == i && v == current {
                        taken[u][v] + found
                    } else {
                        taken[u][v]
                    }) by {}
                    assert(self@ =~~= shift(reached, current as int, i as int, found as int));
                    proof {
                        lemma_pushed_on(
                            old(self)@,
                            old(seen)@,
                            marks,
                            seen@,
                            reached,
                            current as int,
                            i as int,
                            sink as int,
                            flow as int,
                            bottleneck as int,
                            found as int,
                        );
                    }
                    return found;
                }
            }
            i += 1;
        }
        proof {
            if flow > 0 {
                assert(search_exhausted(old(self)@, old(seen)@, seen@, current as int));
                assert forall|path: Seq<int>|
                    !#[trigger] is_augmenting_path(old(self)@, old(seen)@, path, current as int, sink as int) by {
                    if is_augmenting_path(old(self)@, old(seen)@, path, current as int, sink as int) {
                        lemma_exhausted_search_reaches(
                            old(self)@,
                            old(seen)@,
                            seen@,
                            path,
                            current as int,
                            sink as int,
                        );
                    }
                }
            }
        }
        0
    }

    /// The maximum flow from `source` to `sink`, found by pushing along one
    /// augmenting path after another until none is left, together with the
    /// number of paths that were pushed along. The capacity matrix is left
    /// as the residual matrix of that flow.
    pub fn get_max_flow_counted(&mut self, source: usize, sink: usize) -> (result: (usize, usize))
        requires
            old(self).wf(),
            old(self).pairs_fit(),
            source < old(self).size,
            sink < old(self).size,
            source != sink,
            row_sum(old(self)@, source as int) <= usize::MAX || col_sum(old(self)@, sink as int)
                <= usize::MAX,
        ensures
            is_max_flow(old(self)@, source as int, sink as int, result.0 as int),
            final(self).wf(),
            final(self).size == old(self).size,
            is_residual(old(self)@, final(self)@, source as int, sink as int),
            result.0 == pushed_value(old(self)@, final(self)@, source as int),
            // Every round pushed at least one unit, and exactly one where no
            // edge and the edge back have more than one unit between them.
            result.1 <= result.0,
            (forall|u: int, v: int|
                0 <= u < old(self).size && 0 <= v < old(self).size ==> #[trigger] old(self)@[u][v] + old(
                    self,
                )@[v][u] <= 1) ==> result.1 == result.0,
    {
        let ghost c = self@;
        let ghost n = self.size as int;
        let mut max_flow: usize = 0;
        let mut rounds: usize = 0;
        assert(is_capacity(c, n));
        proof {
            lemma_partial_sum_nonneg(c[source as int], n);
        }
        loop
            invariant
                n == self.size,
                c == old(self)@,
                c.len() == n,
                is_capacity(c, n),
                self.wf(),
                self.size == old(self).size,
                old(self).pairs_fit(),
                source < n,
                sink < n,
                source != sink,
                row_sum(c, source as int) <= usize::MAX || col_sum(c, sink as int) <= usize::MAX,
                is_residual(c, self@, source as int, sink as int),
                max_flow == pushed_value(c, self@, source as int),
                max_flow <= row_sum(c, source as int),
                rounds <= max_flow,
                (forall|u: int, v: int| 0 <= u < n && 0 <= v < n ==> #[trigger] c[u][v] + c[v][u] <= 1)
                    ==> rounds == max_flow,
            decreases row_sum(c, source as int) - max_flow,
        {
            let mut seen: Vec<bool> = vec![false; self.size];
            let ghost before = self@;
            let ghost fresh = seen@;
            assert(self.pairs_fit()) by {
                assert forall|u: int, v: int| 0 <= u < n && 0 <= v < n implies #[trigger] self@[u][v]
                    + self@[v][u] <= usize::MAX by {
                    assert(self@[u][v] + self@[v][u] == c[u][v] + c[v][u]);
                    assert(old(self)@[u][v] + old(self)@[v][u] <= usize::MAX);
                }
            }
            let found: usize = self.augment(&mut seen, source, sink, usize::MAX);
            if found == 0 {
                proof {
                    assert(is_saturated_cut(self@, seen@, source as int, sink as int));
                    lemma_saturated_cut_is_max_flow(c, self@, seen@, source as int, sink as int);
                }
                return (max_flow, rounds);
            }
            proof {
                assert(is_residual(c, self@, source as int, sink as int)) by {
                    assert forall|u: int, v: int| 0 <= u < n && 0 <= v < n implies #[trigger] self@[u][v]
                        + self@[v][u] == c[u][v] + c[v][u] by {
                        assert(before[u][v] + before[v][u] == c[u][v] + c[v][u]);
                    }
                    assert forall|u: int| 0 <= u < n && u != source && u != sink implies #[trigger] row_sum(
                        self@,
                        u,
                    ) == row_sum(c, u) by {
                        assert(row_sum(before, u) == row_sum(c, u));
                    }
                }
                assert(row_sum(self@, source as int) == row_sum(before, source as int) - found);
                lemma_residual_carries_flow(c, self@, source as int, sink as int);
                lemma_flow_value_bounds(c, carried_flow(c, self@), source as int, sink as int);
                if forall|u: int, v: int| 0 <= u < n && 0 <= v < n ==> #[trigger] c[u][v] + c[v][u] <= 1 {
                    let path = choose|path: Seq<int>| #[trigger]
                        is_first_path(before, fresh, path, source as int, sink as int) && found == carry(
                            before,
                            path,
                            usize::MAX as int,
                        ) && self@ == push_along(before, path, found as int);
                    lemma_found_one(c, before, fresh, path, source as int, sink as int, usize::MAX as int);
                }
            }
            max_flow += found;
            rounds += 1;
        }
    }

    /// The maximum flow from `source` to `sink`. The capacity matrix is left
    /// as the residual matrix of that flow.
    pub fn get_max_flow(&mut self, source: usize, sink: usize) -> (max_flow: usize)
        requires
            old(self).wf(),
            old(self).pairs_fit(),
            source < old(self).size,
            sink < old(self).size,
            source != sink,
            row_sum(old(self)@, source as int) <= usize::MAX || col_sum(old(self)@, sink as int)
                <= usize::MAX,
        ensures
            is_max_flow(old(self)@, source as int, sink as int, max_flow as int),
            final(self).wf(),
            final(self).size == old(self).size,
            is_residual(old(self)@, final(self)@, source as int, sink as int),
            max_flow == pushed_value(old(self)@, final(self)@, source as int),
            // No more flows than the edges out of the source carry, or than
            // the edges into the sink do.
            max_flow <= row_sum(old(self)@, source as int),
            max_flow <= col_sum(old(self)@, sink as int),
            // At every node but the two, what the edges into it have lost is
            // what the edges out of it have lost: as much flows in as out.
            forall|u: int|
                0 <= u < old(self).size && u != source && u != sink ==> #[trigger] col_sum(old(self)@, u)
                    - col_sum(final(self)@, u) == row_sum(old(self)@, u) - row_sum(final(self)@, u),
    {
        let result = self.get_max_flow_counted(source, sink);
        proof {
            let c = old(self)@;
            lemma_max_flow_bounds(c, source as int, sink as int, result.0 as int);
            assert forall|u: int| 0 <= u < c.len() && u != source && u != sink implies #[trigger] col_sum(
                c,
                u,
            ) - col_sum(self@, u) == row_sum(c, u) - row_sum(self@, u) by {
                lemma_residual_conserves(c, self@, source as int, sink as int, u);
            }
        }
        result.0
    }
}

} // verus!
