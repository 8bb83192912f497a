//! Flows on a network that is given by its capacity matrix: what a flow is,
//! what its value is, when a number is the maximum flow, and how a residual
//! matrix certifies one.

use vstd::prelude::*;
use crate::matrix::{
    antisymmetric, col_sum, col_sums, column, lemma_antisymmetric_cut,
    lemma_row_sums_total_is_col_sums_total, row_sum, row_sums, square,
};
use crate::sums::{
    lemma_partial_sum_covers, lemma_partial_sum_covers_two, lemma_partial_sum_has_positive,
    lemma_partial_sum_le, lemma_partial_sum_minus, lemma_partial_sum_nonneg,
    lemma_partial_sum_one_change, lemma_partial_sum_plus, lemma_partial_sum_zero,
};

verus! {

/// `c` is the capacity matrix of a network of `n` nodes: `c[u][v]` is the
/// capacity of the edge from `u` to `v`, zero where there is none.
pub open spec fn is_capacity(c: Seq<Seq<int>>, n: int) -> bool {
    &&& square(c, n)
    &&& forall|u: int, v: int| 0 <= u < n && 0 <= v < n ==> #[trigger] c[u][v] >= 0
}

/// `g` is a flow from `source` to `sink` on the network `c`: no edge carries
/// less than nothing or more than its capacity, and at every other node as
/// much comes in as goes out.
pub open spec fn is_flow(c: Seq<Seq<int>>, g: Seq<Seq<int>>, source: int, sink: int) -> bool {
    &&& square(g, c.len() as int)
    &&& forall|u: int, v: int|
        0 <= u < c.len() && 0 <= v < c.len() ==> 0 <= #[trigger] g[u][v] <= c[u][v]
    &&& forall|u: int|
        0 <= u < c.len() && u != source && u != sink ==> #[trigger] col_sum(g, u) == row_sum(g, u)
}

/// What the flow `g` delivers: what leaves `source` less what returns to it.
pub open spec fn flow_value(g: Seq<Seq<int>>, source: int) -> int {
    row_sum(g, source) - col_sum(g, source)
}

/// `value` is the maximum flow from `source` to `sink` on `c`: some flow
/// delivers it, and no flow delivers more.
pub open spec fn is_max_flow(c: Seq<Seq<int>>, source: int, sink: int, value: int) -> bool {
    &&& exists|g: Seq<Seq<int>>| #[trigger] is_flow(c, g, source, sink) && flow_value(g, source) == value
    &&& forall|g: Seq<Seq<int>>| #[trigger] is_flow(c, g, source, sink) ==> flow_value(g, source) <= value
}

/// `r` is a residual matrix of the network `c`: what is left of each edge's
/// capacity after some flow from `source` to `sink` was pushed, where pushing
/// along an edge takes from it and gives to the edge that runs back.
pub open spec fn is_residual(c: Seq<Seq<int>>, r: Seq<Seq<int>>, source: int, sink: int) -> bool {
    &&& square(r, c.len() as int)
    &&& forall|u: int, v: int| 0 <= u < c.len() && 0 <= v < c.len() ==> #[trigger] r[u][v] >= 0
    &&& forall|u: int, v: int|
        0 <= u < c.len() && 0 <= v < c.len() ==> #[trigger] r[u][v] + r[v][u] == c[u][v] + c[v][u]
    &&& forall|u: int|
        0 <= u < c.len() && u != source && u != sink ==> #[trigger] row_sum(r, u) == row_sum(c, u)
}

/// The value of the flow that took `c` to the residual matrix `r`.
pub open spec fn pushed_value(c: Seq<Seq<int>>, r: Seq<Seq<int>>, source: int) -> int {
    row_sum(c, source) - row_sum(r, source)
}

/// The flow that took `c` to the residual matrix `r`, edge by edge.
pub open spec fn carried_flow(c: Seq<Seq<int>>, r: Seq<Seq<int>>) -> Seq<Seq<int>> {
    Seq::new(
        c.len(),
        |u: int|
            Seq::new(
                c.len(),
                |v: int|
                    if c[u][v] >= r[u][v] {
                        c[u][v] - r[u][v]
                    } else {
                        0
                    },
            ),
    )
}

/// `member` is a cut that the residual matrix `r` cannot cross: it holds
/// `source` and not `sink`, and nothing is left on any edge that leaves it.
pub open spec fn is_saturated_cut(r: Seq<Seq<int>>, member: Seq<bool>, source: int, sink: int) -> bool {
    &&& member.len() == r.len()
    &&& member[source]
    &&& !member[sink]
    &&& forall|u: int, v: int|
        0 <= u < r.len() && 0 <= v < r.len() && member[u] && !member[v] ==> #[trigger] r[u][v] == 0
}

/// What a node sends on in the carried flow, less what it receives, is what
/// its row of the capacity matrix lost.
pub proof fn lemma_carried_flow_net(c: Seq<Seq<int>>, r: Seq<Seq<int>>, source: int, sink: int, u: int)
    requires
        is_capacity(c, c.len() as int),
        is_residual(c, r, source, sink),
        0 <= u < c.len(),
    ensures
        row_sum(carried_flow(c, r), u) - col_sum(carried_flow(c, r), u) == row_sum(c, u) - row_sum(
            r,
            u,
        ),
{
    let n = c.len() as int;
    let g = carried_flow(c, r);
    let net = Seq::new(c.len(), |v: int| c[u][v] - r[u][v]);
    assert forall|v: int| 0 <= v < n implies net[v] == g[u][v] - column(g, u)[v] by {
        assert(r[u][v] + r[v][u] == c[u][v] + c[v][u]);
        assert(column(g, u)[v] == g[v][u]);
    }
    lemma_partial_sum_minus(g[u], column(g, u), net, n);
    lemma_partial_sum_minus(c[u], r[u], net, n);
}

/// Over the edges into a node the capacity matrix has lost what it has
/// gained over the edges out of it. So at a node other than source and sink,
/// where the edges out have lost nothing in sum, as much flows in as out.
pub proof fn lemma_residual_conserves(c: Seq<Seq<int>>, r: Seq<Seq<int>>, source: int, sink: int, u: int)
    requires
        square(c, c.len() as int),
        is_residual(c, r, source, sink),
        0 <= u < c.len(),
    ensures
        col_sum(c, u) - col_sum(r, u) == -(row_sum(c, u) - row_sum(r, u)),
        u != source && u != sink ==> col_sum(c, u) - col_sum(r, u) == row_sum(c, u) - row_sum(r, u),
{
    let n = c.len() as int;
    let lost_out = Seq::new(c.len(), |v: int| c[u][v] - r[u][v]);
    let lost_in = Seq::new(c.len(), |v: int| c[v][u] - r[v][u]);
    let zeros = Seq::new(c.len(), |v: int| 0int);
    lemma_partial_sum_minus(c[u], r[u], lost_out, n);
    assert forall|v: int| 0 <= v < n implies lost_in[v] == column(c, u)[v] - column(r, u)[v] by {}
    lemma_partial_sum_minus(column(c, u), column(r, u), lost_in, n);
    assert forall|v: int| 0 <= v < n implies lost_in[v] == zeros[v] - lost_out[v] by {
        assert(r[u][v] + r[v][u] == c[u][v] + c[v][u]);
    }
    lemma_partial_sum_minus(zeros, lost_out, lost_in, n);
    lemma_partial_sum_zero(zeros, n);
    if u != source && u != sink {
        assert(row_sum(r, u) == row_sum(c, u));
    }
}

/// A residual matrix carries a flow, and that flow's value is what the
/// source's row lost.
pub proof fn lemma_residual_carries_flow(c: Seq<Seq<int>>, r: Seq<Seq<int>>, source: int, sink: int)
    requires
        is_capacity(c, c.len() as int),
        is_residual(c, r, source, sink),
        0 <= source < c.len(),
    ensures
        is_flow(c, carried_flow(c, r), source, sink),
        flow_value(carried_flow(c, r), source) == pushed_value(c, r, source),
{
    let g = carried_flow(c, r);
    assert forall|u: int, v: int| 0 <= u < c.len() && 0 <= v < c.len() implies 0 <= #[trigger] g[u][v]
        <= c[u][v] by {
        assert(r[u][v] >= 0);
    }
    assert forall|u: int| 0 <= u < c.len() && u != source && u != sink implies #[trigger] col_sum(g, u)
        == row_sum(g, u) by {
        lemma_carried_flow_net(c, r, source, sink, u);
        assert(row_sum(r, u) == row_sum(c, u));
    }
    lemma_carried_flow_net(c, r, source, sink, source);
}

/// No flow delivers more than a residual matrix has pushed, once a cut
/// exists that the residual matrix cannot cross.
pub proof fn lemma_saturated_cut_bounds_flow(
    c: Seq<Seq<int>>,
    r: Seq<Seq<int>>,
    member: Seq<bool>,
    g: Seq<Seq<int>>,
    source: int,
    sink: int,
)
    requires
        is_capacity(c, c.len() as int),
        is_residual(c, r, source, sink),
        is_saturated_cut(r, member, source, sink),
        is_flow(c, g, source, sink),
        0 <= source < c.len(),
        0 <= sink < c.len(),
    ensures
        flow_value(g, source) <= pushed_value(c, r, source),
{
    let n = c.len() as int;
    // How far the carried flow is ahead of `g` on each edge, net of the edge back.
    let lead = Seq::new(
        c.len(),
        |u: int| Seq::new(c.len(), |v: int| (c[u][v] - r[u][v]) - (g[u][v] - g[v][u])),
    );
    assert(square(lead, n));
    assert forall|u: int, v: int| 0 <= u < n && 0 <= v < n implies #[trigger] lead[u][v]
        == -lead[v][u] by {
        assert(r[u][v] + r[v][u] == c[u][v] + c[v][u]);
    }
    assert(antisymmetric(lead));
    assert forall|u: int, v: int|
        0 <= u < n && 0 <= v < n && member[u] && !member[v] implies #[trigger] lead[u][v] >= 0 by {
        assert(r[u][v] == 0);
        assert(0 <= g[u][v] <= c[u][v]);
        assert(0 <= g[v][u] <= c[v][u]);
    }
    assert forall|u: int| 0 <= u < n implies #[trigger] row_sum(lead, u) == (row_sum(c, u) - row_sum(
        r,
        u,
    )) - (row_sum(g, u) - col_sum(g, u)) by {
        let ahead = Seq::new(c.len(), |v: int| c[u][v] - r[u][v]);
        let net = Seq::new(c.len(), |v: int| g[u][v] - g[v][u]);
        lemma_partial_sum_minus(c[u], r[u], ahead, n);
        assert forall|v: int| 0 <= v < n implies net[v] == g[u][v] - column(g, u)[v] by {}
        lemma_partial_sum_minus(g[u], column(g, u), net, n);
        lemma_partial_sum_minus(ahead, net, lead[u], n);
    }
    let inside = Seq::new(c.len(), |u: int| if member[u] { row_sum(lead, u) } else { 0 });
    lemma_antisymmetric_cut(lead, n, member, inside);
    let zeros = Seq::new(c.len(), |u: int| 0int);
    assert forall|u: int| 0 <= u < n && u != source implies zeros[u] == inside[u] by {
        if member[u] {
            assert(row_sum(r, u) == row_sum(c, u));
            assert(col_sum(g, u) == row_sum(g, u));
        }
    }
    lemma_partial_sum_one_change(zeros, inside, n, source);
    lemma_partial_sum_zero(zeros, n);
}

/// A residual matrix with a cut that it cannot cross has pushed the maximum
/// flow.
pub proof fn lemma_saturated_cut_is_max_flow(
    c: Seq<Seq<int>>,
    r: Seq<Seq<int>>,
    member: Seq<bool>,
    source: int,
    sink: int,
)
    requires
        is_capacity(c, c.len() as int),
        is_residual(c, r, source, sink),
        is_saturated_cut(r, member, source, sink),
        0 <= source < c.len(),
        0 <= sink < c.len(),
    ensures
        is_max_flow(c, source, sink, pushed_value(c, r, source)),
{
    lemma_residual_carries_flow(c, r, source, sink);
    assert forall|g: Seq<Seq<int>>| #[trigger] is_flow(c, g, source, sink) implies flow_value(g, source)
        <= pushed_value(c, r, source) by {
        lemma_saturated_cut_bounds_flow(c, r, member, g, source, sink);
    }
}

/// No flow delivers more than the edges out of the source can carry, nor
/// more than the edges into the sink can.
pub proof fn lemma_flow_value_bounds(c: Seq<Seq<int>>, g: Seq<Seq<int>>, source: int, sink: int)
    requires
        is_flow(c, g, source, sink),
        square(c, c.len() as int),
        0 <= source < c.len(),
        0 <= sink < c.len(),
        source != sink,
    ensures
        flow_value(g, source) <= row_sum(c, source),
        flow_value(g, source) <= col_sum(c, sink),
        flow_value(g, source) == col_sum(g, sink) - row_sum(g, sink),
{
    let n = c.len() as int;
    // Out of the source.
    assert forall|u: int| 0 <= u < n implies column(g, source)[u] >= 0 by {
        assert(g[u][source] >= 0);
    }
    lemma_partial_sum_nonneg(column(g, source), n);
    lemma_partial_sum_le(g[source], c[source], n);
    // Into the sink.
    assert forall|v: int| 0 <= v < n implies g[sink][v] >= 0 by {}
    lemma_partial_sum_nonneg(g[sink], n);
    assert forall|u: int| 0 <= u < n implies column(g, sink)[u] <= column(c, sink)[u] by {
        assert(g[u][sink] <= c[u][sink]);
    }
    lemma_partial_sum_le(column(g, sink), column(c, sink), n);
    // What leaves the source arrives at the sink.
    let net = Seq::new(c.len(), |u: int| row_sum(g, u) - col_sum(g, u));
    lemma_partial_sum_minus(row_sums(g), col_sums(g), net, n);
    lemma_row_sums_total_is_col_sums_total(g, n);
    let at_sink = Seq::new(c.len(), |u: int| if u == sink { net[u] } else { 0 });
    let zeros = Seq::new(c.len(), |u: int| 0int);
    lemma_partial_sum_one_change(at_sink, net, n, source);
    lemma_partial_sum_one_change(zeros, at_sink, n, sink);
    lemma_partial_sum_zero(zeros, n);
}

/// The maximum flow is at most the capacity out of the source and at most
/// the capacity into the sink.
pub proof fn lemma_max_flow_bounds(c: Seq<Seq<int>>, source: int, sink: int, value: int)
    requires
        is_max_flow(c, source, sink, value),
        square(c, c.len() as int),
        0 <= source < c.len(),
        0 <= sink < c.len(),
        source != sink,
    ensures
        value <= row_sum(c, source),
        value <= col_sum(c, sink),
{
    let g = choose|g: Seq<Seq<int>>| #[trigger] is_flow(c, g, source, sink) && flow_value(g, source) == value;
    lemma_flow_value_bounds(c, g, source, sink);
}

/// The maximum flow of a network is one number.
pub proof fn lemma_max_flow_unique(c: Seq<Seq<int>>, source: int, sink: int, a: int, b: int)
    requires
        is_max_flow(c, source, sink, a),
        is_max_flow(c, source, sink, b),
    ensures
        a == b,
{
    let ga = choose|g: Seq<Seq<int>>| #[trigger] is_flow(c, g, source, sink) && flow_value(g, source) == a;
    let gb = choose|g: Seq<Seq<int>>| #[trigger] is_flow(c, g, source, sink) && flow_value(g, source) == b;
    assert(is_flow(c, ga, source, sink));
    assert(is_flow(c, gb, source, sink));
}

/// Raising capacities never lowers the maximum flow: where `wider` has the
/// nodes of `c` and gives every edge at least the capacity that `c` gives it,
/// its maximum flow is at least that of `c`.
pub proof fn lemma_max_flow_monotone(
    c: Seq<Seq<int>>,
    wider: Seq<Seq<int>>,
    source: int,
    sink: int,
    value: int,
    wider_value: int,
)
    requires
        wider.len() == c.len(),
        forall|u: int, v: int|
            0 <= u < c.len() && 0 <= v < c.len() ==> #[trigger] c[u][v] <= wider[u][v],
        is_max_flow(c, source, sink, value),
        is_max_flow(wider, source, sink, wider_value),
    ensures
        value <= wider_value,
{
    let g = choose|g: Seq<Seq<int>>| #[trigger] is_flow(c, g, source, sink) && flow_value(g, source) == value;
    assert forall|u: int, v: int| 0 <= u < c.len() && 0 <= v < c.len() implies 0 <= #[trigger] g[u][v]
        <= wider[u][v] by {
        assert(c[u][v] <= wider[u][v]);
    }
    assert(is_flow(wider, g, source, sink));
}

/// The capacity matrix `c` with one more edge of capacity one, from `u` to `v`.
pub open spec fn with_unit_edge(c: Seq<Seq<int>>, u: int, v: int) -> Seq<Seq<int>> {
    c.update(u, c[u].update(v, 1))
}

/// Adding an edge of capacity one, where there was none, never lowers the
/// maximum flow.
pub proof fn lemma_unit_edge_keeps_max_flow(
    c: Seq<Seq<int>>,
    u: int,
    v: int,
    source: int,
    sink: int,
    value: int,
    wider_value: int,
)
    requires
        square(c, c.len() as int),
        0 <= u < c.len(),
        0 <= v < c.len(),
        c[u][v] == 0,
        is_max_flow(c, source, sink, value),
        is_max_flow(with_unit_edge(c, u, v), source, sink, wider_value),
    ensures
        value <= wider_value,
{
    lemma_max_flow_monotone(c, with_unit_edge(c, u, v), source, sink, value, wider_value);
}

/// The matrix of `n` rows and columns that holds zero throughout.
pub open spec fn zeros(n: int) -> Seq<Seq<int>> {
    Seq::new(n as nat, |u: int| Seq::new(n as nat, |v: int| 0int))
}

/// The entries of `f` and `h` added up, place by place.
pub open spec fn plus(f: Seq<Seq<int>>, h: Seq<Seq<int>>) -> Seq<Seq<int>> {
    Seq::new(f.len(), |u: int| Seq::new(f.len(), |v: int| f[u][v] + h[u][v]))
}

/// Nothing at all is a flow, and delivers nothing.
pub proof fn lemma_zero_flow(c: Seq<Seq<int>>, source: int, sink: int)
    requires
        is_capacity(c, c.len() as int),
        0 <= source < c.len(),
    ensures
        is_flow(c, zeros(c.len() as int), source, sink),
        flow_value(zeros(c.len() as int), source) == 0,
        forall|u: int| 0 <= u < c.len() ==> #[trigger] row_sum(zeros(c.len() as int), u) == 0,
{
    let n = c.len() as int;
    let z = zeros(n);
    assert forall|u: int| 0 <= u < n implies #[trigger] row_sum(z, u) == 0 && col_sum(z, u) == 0 by {
        lemma_partial_sum_zero(z[u], n);
        lemma_partial_sum_zero(column(z, u), n);
    }
    lemma_partial_sum_zero(z[source], n);
    lemma_partial_sum_zero(column(z, source), n);
    assert forall|u: int, v: int| 0 <= u < n && 0 <= v < n implies 0 <= #[trigger] z[u][v] <= c[u][v] by {
        assert(c[u][v] >= 0);
    }
}

/// Two flows between the same two nodes add up to a flow, where the edges
/// can carry both, and it delivers what the two deliver together.
pub proof fn lemma_flows_add(c: Seq<Seq<int>>, f: Seq<Seq<int>>, h: Seq<Seq<int>>, source: int, sink: int)
    requires
        is_flow(c, f, source, sink),
        is_flow(h, h, source, sink),
        h.len() == c.len(),
        0 <= source < c.len(),
        forall|u: int, v: int|
            0 <= u < c.len() && 0 <= v < c.len() ==> #[trigger] f[u][v] + h[u][v] <= c[u][v],
    ensures
        is_flow(c, plus(f, h), source, sink),
        flow_value(plus(f, h), source) == flow_value(f, source) + flow_value(h, source),
        forall|u: int|
            0 <= u < c.len() ==> #[trigger] row_sum(plus(f, h), u) == row_sum(f, u) + row_sum(h, u),
{
    let n = c.len() as int;
    let both = plus(f, h);
    assert forall|u: int| 0 <= u < n implies #[trigger] row_sum(both, u) == row_sum(f, u) + row_sum(h, u)
        && col_sum(both, u) == col_sum(f, u) + col_sum(h, u) by {
        lemma_partial_sum_plus(f[u], h[u], both[u], n);
        assert forall|w: int| 0 <= w < n implies column(both, u)[w] == column(f, u)[w] + column(h, u)[w] by {}
        lemma_partial_sum_plus(column(f, u), column(h, u), column(both, u), n);
    }
    lemma_partial_sum_plus(f[source], h[source], both[source], n);
    lemma_partial_sum_plus(column(f, source), column(h, source), column(both, source), n);
    assert forall|u: int, v: int| 0 <= u < n && 0 <= v < n implies 0 <= #[trigger] both[u][v] <= c[u][v] by {
        assert(0 <= f[u][v]);
        assert(0 <= h[u][v]);
        assert(f[u][v] + h[u][v] <= c[u][v]);
    }
    assert forall|u: int| 0 <= u < n && u != source && u != sink implies #[trigger] col_sum(both, u)
        == row_sum(both, u) by {
        assert(row_sum(both, u) == row_sum(f, u) + row_sum(h, u));
        assert(col_sum(f, u) == row_sum(f, u));
        assert(col_sum(h, u) == row_sum(h, u));
    }
}

/// What flows into a node other than source and sink flows out of it: where
/// the edge from `w` to `u` carries something, so does an edge out of `u`.
pub proof fn lemma_flow_passes_on(
    c: Seq<Seq<int>>,
    f: Seq<Seq<int>>,
    source: int,
    sink: int,
    w: int,
    u: int,
) -> (v: int)
    requires
        is_flow(c, f, source, sink),
        0 <= w < c.len(),
        0 <= u < c.len(),
        u != source,
        u != sink,
        f[w][u] > 0,
    ensures
        0 <= v < c.len(),
        f[u][v] > 0,
{
    let n = c.len() as int;
    assert forall|i: int| 0 <= i < n implies column(f, u)[i] >= 0 by {
        assert(f[i][u] >= 0);
    }
    lemma_partial_sum_covers(column(f, u), n, w);
    assert(col_sum(f, u) == row_sum(f, u));
    lemma_partial_sum_has_positive(f[u], n)
}

/// A node other than source and sink whose edges out carry no more than one
/// unit together takes flow from no more than one node.
pub proof fn lemma_flow_one_feeder(
    c: Seq<Seq<int>>,
    f: Seq<Seq<int>>,
    source: int,
    sink: int,
    u: int,
    first: int,
    second: int,
)
    requires
        is_flow(c, f, source, sink),
        square(c, c.len() as int),
        0 <= u < c.len(),
        u != source,
        u != sink,
        row_sum(c, u) <= 1,
        0 <= first < c.len(),
        0 <= second < c.len(),
        f[first][u] > 0,
        f[second][u] > 0,
    ensures
        first == second,
{
    let n = c.len() as int;
    if first != second {
        assert forall|i: int| 0 <= i < n implies column(f, u)[i] >= 0 by {
            assert(f[i][u] >= 0);
        }
        if first < second {
            lemma_partial_sum_covers_two(column(f, u), n, first, second);
        } else {
            lemma_partial_sum_covers_two(column(f, u), n, second, first);
        }
        assert(col_sum(f, u) == row_sum(f, u));
        assert forall|v: int| 0 <= v < n implies f[u][v] <= c[u][v] by {}
        lemma_partial_sum_le(f[u], c[u], n);
    }
}

} // verus!
