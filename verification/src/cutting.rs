//! Pieces of three tiles cut from a grid, and why the maximum flow of the
//! grid's network is the greatest number of pieces that can be cut.

use vstd::prelude::*;
use crate::flat::lemma_flat_index_bound;
use crate::flow::{
    flow_value, is_capacity, is_flow, is_max_flow, lemma_flow_one_feeder, lemma_flow_passes_on,
    lemma_flows_add, lemma_zero_flow, plus, zeros,
};
use crate::matrix::{col_sum, column, row_sum};
use crate::sums::{lemma_partial_sum_one_change, lemma_partial_sum_zero, partial_sum};
use crate::tilecut::{
    adjacent, cells, height, holds, index_of, lemma_index_in_range, lemma_index_of_node_at,
    lemma_node_at_index, linked, node_at, node_count, reduction, sink_of, source_of, width, Node,
    Tile,
};

verus! {

/// Three cells of a grid, each given by its column and its row.
pub struct Piece {
    pub supply: (int, int),
    pub transit: (int, int),
    pub demand: (int, int),
}

/// `p` is a piece that can be cut from `g`: a supply tile, a transit tile
/// beside it, and a demand tile beside the transit tile.
pub open spec fn is_piece(g: Seq<Seq<Tile>>, p: Piece) -> bool {
    &&& holds(g, p.supply.0, p.supply.1)
    &&& holds(g, p.transit.0, p.transit.1)
    &&& holds(g, p.demand.0, p.demand.1)
    &&& g[p.supply.1][p.supply.0] is Supply
    &&& g[p.transit.1][p.transit.0] is Transit
    &&& g[p.demand.1][p.demand.0] is Demand
    &&& adjacent(p.supply.0, p.supply.1, p.transit.0, p.transit.1)
    &&& adjacent(p.transit.0, p.transit.1, p.demand.0, p.demand.1)
}

/// The two pieces have no tile in common.
pub open spec fn apart(p: Piece, q: Piece) -> bool {
    p.supply != q.supply && p.transit != q.transit && p.demand != q.demand
}

/// `pieces` can be cut from `g` together: each is a piece, and no two have
/// a tile in common.
pub open spec fn is_cutting(g: Seq<Seq<Tile>>, pieces: Seq<Piece>) -> bool {
    &&& forall|i: int| 0 <= i < pieces.len() ==> is_piece(g, #[trigger] pieces[i])
    &&& forall|i: int, j: int| 0 <= i < j < pieces.len() ==> apart(#[trigger] pieces[i], #[trigger] pieces[j])
}

/// `count` is the greatest number of pieces that can be cut from `g`
/// together.
pub open spec fn is_most_pieces(g: Seq<Seq<Tile>>, count: int) -> bool {
    &&& exists|pieces: Seq<Piece>| #[trigger] is_cutting(g, pieces) && pieces.len() == count
    &&& forall|pieces: Seq<Piece>| #[trigger] is_cutting(g, pieces) ==> pieces.len() <= count
}

/// The index of the node where flow enters `cell`.
pub open spec fn intake_of(g: Seq<Seq<Tile>>, cell: (int, int)) -> int {
    index_of(g, Node::Intake { x: cell.0, y: cell.1 })
}

/// The index of the node where flow leaves `cell`.
pub open spec fn outtake_of(g: Seq<Seq<Tile>>, cell: (int, int)) -> int {
    index_of(g, Node::Outtake { x: cell.0, y: cell.1 })
}

/// The edge from node `u` to node `v` lies on the way that the piece `p`
/// marks out from the source through its three tiles to the sink.
pub open spec fn piece_edge(g: Seq<Seq<Tile>>, p: Piece, u: int, v: int) -> bool {
    ||| u == source_of(g) && v == intake_of(g, p.supply)
    ||| u == intake_of(g, p.supply) && v == outtake_of(g, p.supply)
    ||| u == outtake_of(g, p.supply) && v == intake_of(g, p.transit)
    ||| u == intake_of(g, p.transit) && v == outtake_of(g, p.transit)
    ||| u == outtake_of(g, p.transit) && v == intake_of(g, p.demand)
    ||| u == intake_of(g, p.demand) && v == outtake_of(g, p.demand)
    ||| u == outtake_of(g, p.demand) && v == sink_of(g)
}

/// One unit of flow along the way that the piece `p` marks out.
pub open spec fn piece_flow(g: Seq<Seq<Tile>>, p: Piece) -> Seq<Seq<int>> {
    Seq::new(
        node_count(g) as nat,
        |u: int|
            Seq::new(
                node_count(g) as nat,
                |v: int|
                    if piece_edge(g, p, u, v) {
                        1int
                    } else {
                        0int
                    },
            ),
    )
}

/// One unit of flow for each of the pieces.
pub open spec fn cutting_flow(g: Seq<Seq<Tile>>, pieces: Seq<Piece>) -> Seq<Seq<int>>
    decreases pieces.len(),
{
    if pieces.len() == 0 {
        zeros(node_count(g))
    } else {
        plus(cutting_flow(g, pieces.drop_last()), piece_flow(g, pieces.last()))
    }
}

/// The nodes on the way of a piece are nodes of the network, each is the
/// node at its index, and the way leads along edges of the network.
proof fn lemma_piece_nodes(g: Seq<Seq<Tile>>, p: Piece)
    requires
        is_piece(g, p),
    ensures
        0 <= cells(g),
        node_at(g, source_of(g)) == Node::Source,
        node_at(g, sink_of(g)) == Node::Sink,
        0 <= intake_of(g, p.supply) < cells(g),
        0 <= intake_of(g, p.transit) < cells(g),
        0 <= intake_of(g, p.demand) < cells(g),
        cells(g) <= outtake_of(g, p.supply) < 2 * cells(g),
        cells(g) <= outtake_of(g, p.transit) < 2 * cells(g),
        cells(g) <= outtake_of(g, p.demand) < 2 * cells(g),
        node_at(g, intake_of(g, p.supply)) == (Node::Intake { x: p.supply.0, y: p.supply.1 }),
        node_at(g, intake_of(g, p.transit)) == (Node::Intake { x: p.transit.0, y: p.transit.1 }),
        node_at(g, intake_of(g, p.demand)) == (Node::Intake { x: p.demand.0, y: p.demand.1 }),
        node_at(g, outtake_of(g, p.supply)) == (Node::Outtake { x: p.supply.0, y: p.supply.1 }),
        node_at(g, outtake_of(g, p.transit)) == (Node::Outtake { x: p.transit.0, y: p.transit.1 }),
        node_at(g, outtake_of(g, p.demand)) == (Node::Outtake { x: p.demand.0, y: p.demand.1 }),
{
    let nodes = seq![
        Node::Intake { x: p.supply.0, y: p.supply.1 },
        Node::Intake { x: p.transit.0, y: p.transit.1 },
        Node::Intake { x: p.demand.0, y: p.demand.1 },
        Node::Outtake { x: p.supply.0, y: p.supply.1 },
        Node::Outtake { x: p.transit.0, y: p.transit.1 },
        Node::Outtake { x: p.demand.0, y: p.demand.1 },
        Node::Source,
        Node::Sink,
    ];
    assert forall|i: int| 0 <= i < nodes.len() implies node_at(g, index_of(g, #[trigger] nodes[i]))
        == nodes[i] && 0 <= index_of(g, nodes[i]) < node_count(g) by {
        lemma_index_in_range(g, nodes[i]);
        lemma_node_at_index(g, nodes[i]);
    }
    assert(nodes[0] == (Node::Intake { x: p.supply.0, y: p.supply.1 }));
    assert(nodes[1] == (Node::Intake { x: p.transit.0, y: p.transit.1 }));
    assert(nodes[2] == (Node::Intake { x: p.demand.0, y: p.demand.1 }));
    assert(nodes[3] == (Node::Outtake { x: p.supply.0, y: p.supply.1 }));
    assert(nodes[4] == (Node::Outtake { x: p.transit.0, y: p.transit.1 }));
    assert(nodes[5] == (Node::Outtake { x: p.demand.0, y: p.demand.1 }));
    assert(nodes[6] == Node::Source);
    assert(nodes[7] == Node::Sink);
    lemma_flat_index_bound(width(g), height(g), p.supply.0, p.supply.1);
    lemma_flat_index_bound(width(g), height(g), p.transit.0, p.transit.1);
    lemma_flat_index_bound(width(g), height(g), p.demand.0, p.demand.1);
}

/// Where the way of the piece `p` goes on from node `u`, or -1 where `u` is
/// not on the way or ends it.
spec fn way_after(g: Seq<Seq<Tile>>, p: Piece, u: int) -> int {
    if u == source_of(g) {
        intake_of(g, p.supply)
    } else if u == intake_of(g, p.supply) {
        outtake_of(g, p.supply)
    } else if u == outtake_of(g, p.supply) {
        intake_of(g, p.transit)
    } else if u == intake_of(g, p.transit) {
        outtake_of(g, p.transit)
    } else if u == outtake_of(g, p.transit) {
        intake_of(g, p.demand)
    } else if u == intake_of(g, p.demand) {
        outtake_of(g, p.demand)
    } else if u == outtake_of(g, p.demand) {
        sink_of(g)
    } else {
        -1
    }
}

/// Where the way of the piece `p` comes from to node `v`, or -1 where `v` is
/// not on the way or starts it.
spec fn way_before(g: Seq<Seq<Tile>>, p: Piece, v: int) -> int {
    if v == sink_of(g) {
        outtake_of(g, p.demand)
    } else if v == outtake_of(g, p.demand) {
        intake_of(g, p.demand)
    } else if v == intake_of(g, p.demand) {
        outtake_of(g, p.transit)
    } else if v == outtake_of(g, p.transit) {
        intake_of(g, p.transit)
    } else if v == intake_of(g, p.transit) {
        outtake_of(g, p.supply)
    } else if v == outtake_of(g, p.supply) {
        intake_of(g, p.supply)
    } else if v == intake_of(g, p.supply) {
        source_of(g)
    } else {
        -1
    }
}

/// On the way of a piece every node but the last has one edge out, and
/// every node but the first one edge in.
proof fn lemma_piece_way(g: Seq<Seq<Tile>>, p: Piece)
    requires
        is_piece(g, p),
    ensures
        forall|u: int, v: int|
            0 <= u < node_count(g) && 0 <= v < node_count(g) ==> (#[trigger] piece_edge(g, p, u, v) <==> v
                == way_after(g, p, u)),
        forall|u: int, v: int|
            0 <= u < node_count(g) && 0 <= v < node_count(g) ==> (#[trigger] piece_edge(g, p, u, v) <==> u
                == way_before(g, p, v)),
        forall|u: int| 0 <= u < node_count(g) ==> -1 <= #[trigger] way_after(g, p, u) < node_count(g),
        forall|u: int| 0 <= u < node_count(g) ==> -1 <= #[trigger] way_before(g, p, u) < node_count(g),
        forall|u: int|
            0 <= u < node_count(g) && u != source_of(g) && u != sink_of(g) ==> (#[trigger] way_after(g, p, u)
                >= 0 <==> way_before(g, p, u) >= 0),
        way_after(g, p, source_of(g)) >= 0,
        way_before(g, p, source_of(g)) == -1,
{
    lemma_piece_nodes(g, p);
}

/// The flow of a piece sends one unit out of every node on its way but the
/// sink, and one unit into every node on its way but the source.
proof fn lemma_piece_sums(g: Seq<Seq<Tile>>, p: Piece, u: int)
    requires
        is_piece(g, p),
        0 <= u < node_count(g),
    ensures
        row_sum(piece_flow(g, p), u) == if way_after(g, p, u) >= 0 {
            1int
        } else {
            0int
        },
        col_sum(piece_flow(g, p), u) == if way_before(g, p, u) >= 0 {
            1int
        } else {
            0int
        },
{
    let n = node_count(g);
    let flow = piece_flow(g, p);
    let none = Seq::new(n as nat, |v: int| 0int);
    lemma_piece_way(g, p);
    lemma_partial_sum_zero(none, n);
    let after = way_after(g, p, u);
    if after >= 0 {
        assert forall|v: int| 0 <= v < n && v != after implies none[v] == flow[u][v] by {
            assert(!piece_edge(g, p, u, v));
        }
        assert(piece_edge(g, p, u, after));
        lemma_partial_sum_one_change(none, flow[u], n, after);
    } else {
        assert forall|v: int| 0 <= v < n implies flow[u][v] == 0 by {
            assert(!piece_edge(g, p, u, v));
        }
        lemma_partial_sum_zero(flow[u], n);
    }
    let before = way_before(g, p, u);
    if before >= 0 {
        assert forall|w: int| 0 <= w < n && w != before implies none[w] == column(flow, u)[w] by {
            assert(!piece_edge(g, p, w, u));
        }
        assert(piece_edge(g, p, before, u));
        lemma_partial_sum_one_change(none, column(flow, u), n, before);
    } else {
        assert forall|w: int| 0 <= w < n implies column(flow, u)[w] == 0 by {
            assert(!piece_edge(g, p, w, u));
        }
        lemma_partial_sum_zero(column(flow, u), n);
    }
}

/// The flow of a piece is a flow of one unit from the source to the sink,
/// along edges of the grid's network.
pub proof fn lemma_piece_flow(g: Seq<Seq<Tile>>, p: Piece)
    requires
        is_piece(g, p),
    ensures
        is_flow(piece_flow(g, p), piece_flow(g, p), source_of(g), sink_of(g)),
        flow_value(piece_flow(g, p), source_of(g)) == 1,
        forall|u: int, v: int|
            0 <= u < node_count(g) && 0 <= v < node_count(g) ==> #[trigger] piece_flow(g, p)[u][v]
                <= reduction(g)[u][v],
{
    let n = node_count(g);
    let flow = piece_flow(g, p);
    lemma_piece_nodes(g, p);
    lemma_piece_way(g, p);
    assert forall|u: int| 0 <= u < n && u != source_of(g) && u != sink_of(g) implies #[trigger] col_sum(
        flow,
        u,
    ) == row_sum(flow, u) by {
        lemma_piece_sums(g, p, u);
    }
    lemma_piece_sums(g, p, source_of(g));
    assert forall|u: int, v: int| 0 <= u < n && 0 <= v < n implies #[trigger] flow[u][v] <= reduction(
        g,
    )[u][v] by {
        if piece_edge(g, p, u, v) {
            assert(linked(g, node_at(g, u), node_at(g, v)));
        }
    }
}

/// Two pieces with no tile in common have no edge in common on their ways.
proof fn lemma_ways_apart(g: Seq<Seq<Tile>>, p: Piece, q: Piece, u: int, v: int)
    requires
        is_piece(g, p),
        is_piece(g, q),
        apart(p, q),
        piece_edge(g, p, u, v),
    ensures
        !piece_edge(g, q, u, v),
{
    lemma_piece_nodes(g, p);
    lemma_piece_nodes(g, q);
}

/// The pieces of a cutting give a flow that delivers one unit for each
/// piece, and that uses only the edges on the ways of the pieces.
pub proof fn lemma_cutting_flow(g: Seq<Seq<Tile>>, pieces: Seq<Piece>)
    requires
        is_cutting(g, pieces),
        0 <= cells(g),
    ensures
        is_flow(reduction(g), cutting_flow(g, pieces), source_of(g), sink_of(g)),
        flow_value(cutting_flow(g, pieces), source_of(g)) == pieces.len(),
        forall|u: int, v: int|
            0 <= u < node_count(g) && 0 <= v < node_count(g) && #[trigger] cutting_flow(g, pieces)[u][v] > 0
                ==> exists|i: int| 0 <= i < pieces.len() && piece_edge(g, #[trigger] pieces[i], u, v),
    decreases pieces.len(),
{
    let n = node_count(g);
    let c = reduction(g);
    assert(is_capacity(c, n));
    if pieces.len() == 0 {
        lemma_zero_flow(c, source_of(g), sink_of(g));
    } else {
        let rest = pieces.drop_last();
        let last = pieces.last();
        assert(is_cutting(g, rest)) by {
            assert forall|i: int| 0 <= i < rest.len() implies is_piece(g, #[trigger] rest[i]) by {
                assert(rest[i] == pieces[i]);
            }
            assert forall|i: int, j: int| 0 <= i < j < rest.len() implies apart(
                #[trigger] rest[i],
                #[trigger] rest[j],
            ) by {
                assert(rest[i] == pieces[i]);
                assert(rest[j] == pieces[j]);
            }
        }
        lemma_cutting_flow(g, rest);
        assert(last == pieces[pieces.len() - 1]);
        lemma_piece_flow(g, last);
        let so_far = cutting_flow(g, rest);
        let added = piece_flow(g, last);
        assert forall|u: int, v: int| 0 <= u < n && 0 <= v < n implies #[trigger] so_far[u][v] + added[u][v]
            <= c[u][v] by {
            if piece_edge(g, last, u, v) {
                if so_far[u][v] > 0 {
                    let i = choose|i: int| 0 <= i < rest.len() && piece_edge(g, #[trigger] rest[i], u, v);
                    assert(rest[i] == pieces[i]);
                    assert(apart(pieces[i], pieces[pieces.len() - 1]));
                    lemma_ways_apart(g, rest[i], last, u, v);
                }
                assert(added[u][v] <= c[u][v]);
            }
        }
        lemma_flows_add(c, so_far, added, source_of(g), sink_of(g));
        let all = cutting_flow(g, pieces);
        assert forall|u: int, v: int| 0 <= u < n && 0 <= v < n && #[trigger] all[u][v] > 0 implies exists|
            i: int,
        | 0 <= i < pieces.len() && piece_edge(g, #[trigger] pieces[i], u, v) by {
            if so_far[u][v] > 0 {
                let i = choose|i: int| 0 <= i < rest.len() && piece_edge(g, #[trigger] rest[i], u, v);
                assert(rest[i] == pieces[i]);
            } else {
                assert(piece_edge(g, pieces[pieces.len() - 1], u, v));
            }
        }
    }
}

/// The flow `f` runs along the way of the piece `p`: out of the source to
/// its supply tile, on to its transit tile, and on to its demand tile.
pub open spec fn served(g: Seq<Seq<Tile>>, f: Seq<Seq<int>>, p: Piece) -> bool {
    &&& is_piece(g, p)
    &&& f[source_of(g)][intake_of(g, p.supply)] > 0
    &&& f[outtake_of(g, p.supply)][intake_of(g, p.transit)] > 0
    &&& f[outtake_of(g, p.transit)][intake_of(g, p.demand)] > 0
}

/// Out of the node where flow enters a cell, the network has the one edge
/// across the cell.
proof fn lemma_intake_row(g: Seq<Seq<Tile>>, cell: (int, int))
    requires
        holds(g, cell.0, cell.1),
    ensures
        row_sum(reduction(g), intake_of(g, cell)) == 1,
{
    let n = node_count(g);
    let c = reduction(g);
    let u = intake_of(g, cell);
    let across = outtake_of(g, cell);
    let here_in = Node::Intake { x: cell.0, y: cell.1 };
    let here_out = Node::Outtake { x: cell.0, y: cell.1 };
    lemma_index_in_range(g, here_in);
    lemma_index_in_range(g, here_out);
    lemma_node_at_index(g, here_in);
    lemma_node_at_index(g, here_out);
    let none = Seq::new(n as nat, |v: int| 0int);
    lemma_partial_sum_zero(none, n);
    assert forall|v: int| 0 <= v < n && v != across implies none[v] == c[u][v] by {
        lemma_index_of_node_at(g, v);
    }
    lemma_partial_sum_one_change(none, c[u], n, across);
}

/// A flow that leaves the source for a node runs on along the way of a
/// piece whose supply tile that node belongs to.
proof fn lemma_flow_traces_piece(g: Seq<Seq<Tile>>, f: Seq<Seq<int>>, k: int) -> (p: Piece)
    requires
        is_flow(reduction(g), f, source_of(g), sink_of(g)),
        0 <= cells(g),
        0 <= k < node_count(g),
        f[source_of(g)][k] > 0,
    ensures
        served(g, f, p),
        intake_of(g, p.supply) == k,
{
    let c = reduction(g);
    let source = source_of(g);
    let sink = sink_of(g);
    lemma_index_of_node_at(g, source);
    lemma_index_of_node_at(g, sink);
    // Into the supply tile.
    lemma_index_of_node_at(g, k);
    assert(c[source][k] >= 1);
    let supply = match node_at(g, k) {
        Node::Intake { x, y } => (x, y),
        _ => (0int, 0int),
    };
    // Across it.
    let k_out = lemma_flow_passes_on(c, f, source, sink, source, k);
    lemma_index_of_node_at(g, k_out);
    assert(c[k][k_out] >= 1);
    // On to the transit tile.
    let t_in = lemma_flow_passes_on(c, f, source, sink, k, k_out);
    lemma_index_of_node_at(g, t_in);
    assert(c[k_out][t_in] >= 1);
    let transit = match node_at(g, t_in) {
        Node::Intake { x, y } => (x, y),
        _ => (0int, 0int),
    };
    // Across it.
    let t_out = lemma_flow_passes_on(c, f, source, sink, k_out, t_in);
    lemma_index_of_node_at(g, t_out);
    assert(c[t_in][t_out] >= 1);
    // On to the demand tile.
    let d_in = lemma_flow_passes_on(c, f, source, sink, t_in, t_out);
    lemma_index_of_node_at(g, d_in);
    assert(c[t_out][d_in] >= 1);
    let demand = match node_at(g, d_in) {
        Node::Intake { x, y } => (x, y),
        _ => (0int, 0int),
    };
    Piece { supply, transit, demand }
}

/// Two pieces along which one flow runs, from different supply tiles, have
/// no tile in common.
proof fn lemma_served_apart(g: Seq<Seq<Tile>>, f: Seq<Seq<int>>, p: Piece, q: Piece)
    requires
        is_flow(reduction(g), f, source_of(g), sink_of(g)),
        0 <= cells(g),
        served(g, f, p),
        served(g, f, q),
        p.supply != q.supply,
    ensures
        apart(p, q),
{
    let c = reduction(g);
    lemma_piece_nodes(g, p);
    lemma_piece_nodes(g, q);
    if p.transit == q.transit {
        lemma_intake_row(g, p.transit);
        lemma_flow_one_feeder(
            c,
            f,
            source_of(g),
            sink_of(g),
            intake_of(g, p.transit),
            outtake_of(g, p.supply),
            outtake_of(g, q.supply),
        );
    } else if p.demand == q.demand {
        lemma_intake_row(g, p.demand);
        lemma_flow_one_feeder(
            c,
            f,
            source_of(g),
            sink_of(g),
            intake_of(g, p.demand),
            outtake_of(g, p.transit),
            outtake_of(g, q.transit),
        );
    }
}

/// The pieces along which a flow runs from the source to the first `k`
/// nodes: as many as the source sends to those nodes.
proof fn lemma_flow_gives_pieces(g: Seq<Seq<Tile>>, f: Seq<Seq<int>>, k: int) -> (pieces: Seq<Piece>)
    requires
        is_flow(reduction(g), f, source_of(g), sink_of(g)),
        0 <= cells(g),
        0 <= k <= node_count(g),
    ensures
        pieces.len() == partial_sum(f[source_of(g)], k),
        is_cutting(g, pieces),
        forall|i: int|
            0 <= i < pieces.len() ==> served(g, f, #[trigger] pieces[i]) && intake_of(g, pieces[i].supply) < k,
    decreases k,
{
    if k == 0 {
        Seq::empty()
    } else {
        let before = lemma_flow_gives_pieces(g, f, k - 1);
        let sent = f[source_of(g)][k - 1];
        assert(0 <= sent <= reduction(g)[source_of(g)][k - 1]);
        if sent > 0 {
            let p = lemma_flow_traces_piece(g, f, k - 1);
            let pieces = before.push(p);
            assert forall|i: int, j: int| 0 <= i < j < pieces.len() implies apart(
                #[trigger] pieces[i],
                #[trigger] pieces[j],
            ) by {
                if j == pieces.len() - 1 {
                    assert(pieces[i] == before[i]);
                    lemma_served_apart(g, f, pieces[i], p);
                } else {
                    assert(pieces[i] == before[i]);
                    assert(pieces[j] == before[j]);
                }
            }
            assert forall|i: int| 0 <= i < pieces.len() implies served(g, f, #[trigger] pieces[i])
                && intake_of(g, pieces[i].supply) < k && is_piece(g, pieces[i]) by {
                if i < before.len() {
                    assert(pieces[i] == before[i]);
                }
            }
            pieces
        } else {
            before
        }
    }
}

/// The maximum flow of the network of a grid is the greatest number of
/// pieces that can be cut from the grid together.
pub proof fn lemma_max_flow_is_most_pieces(g: Seq<Seq<Tile>>, value: int)
    requires
        0 <= cells(g),
        is_max_flow(reduction(g), source_of(g), sink_of(g), value),
    ensures
        is_most_pieces(g, value),
{
    let n = node_count(g);
    let c = reduction(g);
    let source = source_of(g);
    let sink = sink_of(g);
    let f = choose|f: Seq<Seq<int>>| #[trigger] is_flow(c, f, source, sink) && flow_value(f, source) == value;
    let pieces = lemma_flow_gives_pieces(g, f, n);
    assert forall|w: int| 0 <= w < n implies column(f, source)[w] == 0 by {
        lemma_index_of_node_at(g, w);
        lemma_index_of_node_at(g, source);
        assert(0 <= f[w][source] <= c[w][source]);
    }
    lemma_partial_sum_zero(column(f, source), n);
    assert(is_cutting(g, pieces) && pieces.len() == value);
    assert forall|other: Seq<Piece>| #[trigger] is_cutting(g, other) implies other.len() <= value by {
        lemma_cutting_flow(g, other);
        assert(is_flow(c, cutting_flow(g, other), source, sink));
    }
}

} // verus!
