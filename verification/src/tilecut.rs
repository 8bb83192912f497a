//! Cutting three-tile pieces from a grid of tiles, as a maximum flow: the
//! grid, its reduction to a flow network, and the solver for one grid.

use vstd::prelude::*;
use vstd::arithmetic::div_mod::lemma_fundamental_div_mod_converse;
use crate::cutting::{is_most_pieces, lemma_max_flow_is_most_pieces};
use crate::flat::{lemma_flat_index_bound, lemma_flat_index_decode};
use crate::flow::is_max_flow;
use crate::matrix::{col_sum, row_sum};
use crate::network::FlowNetwork;
use crate::sums::lemma_partial_sum_bounded;

verus! {

/// What a cell of the grid holds.
#[derive(Clone, Copy, Debug, PartialEq, Eq)]
pub enum Tile {
    /// A tile that the source feeds, written `W`.
    Supply,
    /// A tile that joins a supply tile to a demand tile, written `I`.
    Transit,
    /// A tile that feeds the sink, written `N`.
    Demand,
}

/// Why a grid was turned down.
#[derive(Clone, Copy, Debug, PartialEq, Eq)]
pub enum GridError {
    /// The rows differ in length, or a cell holds a marker that names no tile.
    MalformedGrid,
}

/// A node of the network that a grid reduces to: the source, the sink, and
/// for the cell in column `x` of row `y` the node where flow enters it and
/// the node where flow leaves it.
pub enum Node {
    Source,
    Sink,
    Intake { x: int, y: int },
    Outtake { x: int, y: int },
}

/// The tile that a marker names.
pub open spec fn tile_of(marker: char) -> Option<Tile> {
    if marker == 'W' {
        Some(Tile::Supply)
    } else if marker == 'I' {
        Some(Tile::Transit)
    } else if marker == 'N' {
        Some(Tile::Demand)
    } else {
        None
    }
}

/// The rows of markers as a sequence of sequences.
pub open spec fn markers(rows: Vec<Vec<char>>) -> Seq<Seq<char>> {
    Seq::new(rows@.len(), |y: int| rows@[y]@)
}

/// The rows have one length, and every marker names a tile.
pub open spec fn well_formed(m: Seq<Seq<char>>) -> bool {
    &&& forall|y: int| 0 <= y < m.len() ==> (#[trigger] m[y]).len() == m[0].len()
    &&& forall|x: int, y: int|
        0 <= y < m.len() && 0 <= x < m[y].len() ==> tile_of(#[trigger] m[y][x]) is Some
}

/// The tiles that the markers name, row by row.
pub open spec fn tiles_of(m: Seq<Seq<char>>) -> Seq<Seq<Tile>> {
    Seq::new(m.len(), |y: int| Seq::new(m[y].len(), |x: int| tile_of(m[y][x]).unwrap()))
}

/// The nodes of the network of a grid with these rows can be numbered in a
/// `usize`.
pub open spec fn addressable(m: Seq<Seq<char>>) -> bool {
    m.len() == 0 || 2 * (m[0].len() * m.len()) + 2 <= usize::MAX
}

/// The number of rows of `g`.
pub open spec fn height(g: Seq<Seq<Tile>>) -> int {
    g.len() as int
}

/// The length of the first row of `g`, zero where `g` has no rows.
pub open spec fn width(g: Seq<Seq<Tile>>) -> int {
    if g.len() == 0 {
        0
    } else {
        g[0].len() as int
    }
}

/// Every row of `g` has the same length.
pub open spec fn rectangular(g: Seq<Seq<Tile>>) -> bool {
    forall|y: int| 0 <= y < g.len() ==> (#[trigger] g[y]).len() == width(g)
}

/// The number of cells of `g`.
pub open spec fn cells(g: Seq<Seq<Tile>>) -> int {
    width(g) * height(g)
}

/// The number of nodes of the network of `g`: two per cell, the source and
/// the sink.
pub open spec fn node_count(g: Seq<Seq<Tile>>) -> int {
    2 * cells(g) + 2
}

/// The index of the source in the network of `g`.
pub open spec fn source_of(g: Seq<Seq<Tile>>) -> int {
    2 * cells(g)
}

/// The index of the sink in the network of `g`.
pub open spec fn sink_of(g: Seq<Seq<Tile>>) -> int {
    2 * cells(g) + 1
}

/// `g` has a cell in column `x` of row `y`.
pub open spec fn holds(g: Seq<Seq<Tile>>, x: int, y: int) -> bool {
    0 <= x < width(g) && 0 <= y < height(g)
}

/// `node` is a node of the network of `g`.
pub open spec fn has_node(g: Seq<Seq<Tile>>, node: Node) -> bool {
    match node {
        Node::Source => true,
        Node::Sink => true,
        Node::Intake { x, y } => holds(g, x, y),
        Node::Outtake { x, y } => holds(g, x, y),
    }
}

/// The index of `node` in the network of `g`: intakes first, row by row,
/// then the outtakes in the same order, then the source, then the sink.
pub open spec fn index_of(g: Seq<Seq<Tile>>, node: Node) -> int {
    match node {
        Node::Intake { x, y } => y * width(g) + x,
        Node::Outtake { x, y } => cells(g) + y * width(g) + x,
        Node::Source => source_of(g),
        Node::Sink => sink_of(g),
    }
}

/// The node with index `u` in the network of `g`.
pub open spec fn node_at(g: Seq<Seq<Tile>>, u: int) -> Node {
    if u < cells(g) {
        Node::Intake { x: u % width(g), y: u / width(g) }
    } else if u < 2 * cells(g) {
        Node::Outtake { x: (u - cells(g)) % width(g), y: (u - cells(g)) / width(g) }
    } else if u == source_of(g) {
        Node::Source
    } else {
        Node::Sink
    }
}

/// The two cells share an edge.
pub open spec fn adjacent(x: int, y: int, other_x: int, other_y: int) -> bool {
    ||| y == other_y && (x == other_x + 1 || other_x == x + 1)
    ||| x == other_x && (y == other_y + 1 || other_y == y + 1)
}

/// The network of `g` has an edge from `a` to `b`: from the intake of a cell
/// to its outtake, from the source to the intake of a supply tile, from the
/// outtake of a demand tile to the sink, from the outtake of a supply tile
/// to the intake of a transit tile beside it, and from the outtake of a
/// transit tile to the intake of a demand tile beside it. It has no other.
pub open spec fn linked(g: Seq<Seq<Tile>>, a: Node, b: Node) -> bool {
    match (a, b) {
        (Node::Intake { x, y }, Node::Outtake { x: to_x, y: to_y }) => x == to_x && y == to_y,
        (Node::Source, Node::Intake { x, y }) => g[y][x] is Supply,
        (Node::Outtake { x, y }, Node::Sink) => g[y][x] is Demand,
        (Node::Outtake { x, y }, Node::Intake { x: to_x, y: to_y }) => adjacent(x, y, to_x, to_y) && {
            ||| g[y][x] is Supply && g[to_y][to_x] is Transit
            ||| g[y][x] is Transit && g[to_y][to_x] is Demand
        },
        _ => false,
    }
}

/// The capacity matrix of the network of `g`: one for each edge, zero
/// elsewhere.
pub open spec fn reduction(g: Seq<Seq<Tile>>) -> Seq<Seq<int>> {
    Seq::new(
        node_count(g) as nat,
        |u: int|
            Seq::new(
                node_count(g) as nat,
                |v: int|
                    if linked(g, node_at(g, u), node_at(g, v)) {
                        1int
                    } else {
                        0int
                    },
            ),
    )
}

/// Every node of the network has an index below the node count.
pub proof fn lemma_index_in_range(g: Seq<Seq<Tile>>, node: Node)
    requires
        has_node(g, node),
    ensures
        0 <= index_of(g, node) < node_count(g),
        0 <= cells(g),
{
    assert(0 <= cells(g)) by (nonlinear_arith)
        requires
            0 <= width(g),
            0 <= height(g),
            cells(g) == width(g) * height(g),
    ;
    match node {
        Node::Intake { x, y } => {
            lemma_flat_index_bound(width(g), height(g), x, y);
        },
        Node::Outtake { x, y } => {
            lemma_flat_index_bound(width(g), height(g), x, y);
        },
        _ => {},
    }
}

/// A node is the node at its index: no two nodes share an index.
pub proof fn lemma_node_at_index(g: Seq<Seq<Tile>>, node: Node)
    requires
        has_node(g, node),
    ensures
        node_at(g, index_of(g, node)) == node,
{
    lemma_index_in_range(g, node);
    match node {
        Node::Intake { x, y } => {
            lemma_flat_index_bound(width(g), height(g), x, y);
            lemma_fundamental_div_mod_converse(y * width(g) + x, width(g), y, x);
        },
        Node::Outtake { x, y } => {
            lemma_flat_index_bound(width(g), height(g), x, y);
            lemma_fundamental_div_mod_converse(y * width(g) + x, width(g), y, x);
        },
        _ => {},
    }
}

/// Every index below the node count is the index of a node of the network.
pub proof fn lemma_index_of_node_at(g: Seq<Seq<Tile>>, u: int)
    requires
        0 <= u < node_count(g),
    ensures
        has_node(g, node_at(g, u)),
        index_of(g, node_at(g, u)) == u,
{
    let w = width(g);
    let h = height(g);
    if u < 2 * cells(g) {
        let k = if u < cells(g) { u } else { u - cells(g) };
        lemma_flat_index_decode(w, h, k);
    }
}

/// The cell that lays the edge from `a` to `b`: the cell of the edge where it
/// joins a cell to itself, to the source or to the sink, and the transit
/// tile where it joins two cells.
spec fn owner(g: Seq<Seq<Tile>>, a: Node, b: Node) -> (int, int) {
    match (a, b) {
        (Node::Intake { x, y }, _) => (x, y),
        (Node::Source, Node::Intake { x, y }) => (x, y),
        (Node::Outtake { x, y }, Node::Intake { x: to_x, y: to_y }) => if g[y][x] is Transit {
            (x, y)
        } else {
            (to_x, to_y)
        },
        (Node::Outtake { x, y }, _) => (x, y),
        _ => (0, 0),
    }
}

/// The place of the edge from `a` to `b` among the edges that its cell lays:
/// the edge across the cell first, then the edge to the source or the sink,
/// then the edges to the cells beside it, to the right, above, to the left
/// and below.
spec fn rank(g: Seq<Seq<Tile>>, a: Node, b: Node) -> int {
    match (a, b) {
        (Node::Intake { x, y }, _) => -2,
        (Node::Outtake { x, y }, Node::Intake { x: to_x, y: to_y }) => {
            let (dx, dy) = if g[y][x] is Transit {
                (to_x - x, to_y - y)
            } else {
                (x - to_x, y - to_y)
            };
            if dx == 1 {
                0
            } else if dy == -1 {
                1
            } else if dx == -1 {
                2
            } else {
                3
            }
        },
        _ => -1,
    }
}

/// The edge from `a` to `b` is one of those that the cell in column `x` of
/// row `y` lays, and its place among them is before `stage`.
spec fn laid(g: Seq<Seq<Tile>>, x: int, y: int, stage: int, a: Node, b: Node) -> bool {
    linked(g, a, b) && owner(g, a, b) == (x, y) && rank(g, a, b) < stage
}

/// The cell in column `x` of row `y` comes before the cell in column
/// `at_x` of row `at_y`, row by row.
spec fn earlier(x: int, y: int, at_x: int, at_y: int) -> bool {
    y < at_y || (y == at_y && x < at_x)
}

/// The step from a cell to the cell beside it in the given direction: to the
/// right, above, to the left, below.
pub open spec fn step(direction: int) -> (int, int) {
    if direction == 0 {
        (1, 0)
    } else if direction == 1 {
        (0, -1)
    } else if direction == 2 {
        (-1, 0)
    } else {
        (0, 1)
    }
}

/// The cell beside the cell in column `x` of row `y` in the given direction,
/// where the grid has one.
pub open spec fn neighbor_of(g: Seq<Seq<Tile>>, x: int, y: int, direction: int) -> Option<(int, int)> {
    let (dx, dy) = step(direction);
    if holds(g, x + dx, y + dy) {
        Some((x + dx, y + dy))
    } else {
        None
    }
}

/// The matrix `now` is the matrix `start` with a one written for every
/// edge that the cell in column `x` of row `y` lays before `stage`.
spec fn wired_to(
    g: Seq<Seq<Tile>>,
    start: Seq<Seq<int>>,
    now: Seq<Seq<int>>,
    x: int,
    y: int,
    stage: int,
) -> bool {
    forall|u: int, v: int|
        0 <= u < node_count(g) && 0 <= v < node_count(g) ==> #[trigger] now[u][v] == if laid(
            g,
            x,
            y,
            stage,
            node_at(g, u),
            node_at(g, v),
        ) {
            1
        } else {
            start[u][v]
        }
}

/// Writing a one for the edge from `a` to `b` takes the wiring of a cell
/// from `stage` to `next`, where that edge is the only one that the cell
/// lays in between.
proof fn lemma_wire_one(
    g: Seq<Seq<Tile>>,
    start: Seq<Seq<int>>,
    now: Seq<Seq<int>>,
    then: Seq<Seq<int>>,
    x: int,
    y: int,
    stage: int,
    next: int,
    a: Node,
    b: Node,
)
    requires
        wired_to(g, start, now, x, y, stage),
        has_node(g, a),
        has_node(g, b),
        laid(g, x, y, next, a, b),
        stage <= next,
        forall|u: int, v: int|
            0 <= u < node_count(g) && 0 <= v < node_count(g) ==> #[trigger] then[u][v] == if u
                == index_of(g, a) && v == index_of(g, b) {
                1
            } else {
                now[u][v]
            },
        forall|c: Node, d: Node|
            has_node(g, c) && has_node(g, d) && #[trigger] laid(g, x, y, next, c, d) && !(c == a && d
                == b) ==> laid(g, x, y, stage, c, d),
    ensures
        wired_to(g, start, then, x, y, next),
{
    lemma_node_at_index(g, a);
    lemma_node_at_index(g, b);
    assert forall|u: int, v: int| 0 <= u < node_count(g) && 0 <= v < node_count(g) implies #[trigger] then[u][v]
        == if laid(g, x, y, next, node_at(g, u), node_at(g, v)) {
        1
    } else {
        start[u][v]
    } by {
        lemma_index_of_node_at(g, u);
        lemma_index_of_node_at(g, v);
        let c = node_at(g, u);
        let d = node_at(g, v);
        if u == index_of(g, a) && v == index_of(g, b) {
            assert(c == a && d == b);
        } else {
            assert(!(c == a && d == b));
            assert(now[u][v] == if laid(g, x, y, stage, c, d) { 1 } else { start[u][v] });
            if laid(g, x, y, next, c, d) {
                assert(laid(g, x, y, stage, c, d));
            }
        }
    }
}

/// Where the cell lays no edge between `stage` and `next`, its wiring to
/// `stage` is its wiring to `next`.
proof fn lemma_wire_none(
    g: Seq<Seq<Tile>>,
    start: Seq<Seq<int>>,
    now: Seq<Seq<int>>,
    x: int,
    y: int,
    stage: int,
    next: int,
)
    requires
        wired_to(g, start, now, x, y, stage),
        stage <= next,
        forall|c: Node, d: Node|
            has_node(g, c) && has_node(g, d) && #[trigger] laid(g, x, y, next, c, d) ==> laid(
                g,
                x,
                y,
                stage,
                c,
                d,
            ),
    ensures
        wired_to(g, start, now, x, y, next),
{
    assert forall|u: int, v: int| 0 <= u < node_count(g) && 0 <= v < node_count(g) implies #[trigger] now[u][v]
        == if laid(g, x, y, next, node_at(g, u), node_at(g, v)) {
        1
    } else {
        start[u][v]
    } by {
        lemma_index_of_node_at(g, u);
        lemma_index_of_node_at(g, v);
        let c = node_at(g, u);
        let d = node_at(g, v);
        assert(now[u][v] == if laid(g, x, y, stage, c, d) { 1 } else { start[u][v] });
        if laid(g, x, y, next, c, d) {
            assert(laid(g, x, y, stage, c, d));
        }
    }
}

/// The matrix `now` holds a one for every edge of the network of `g` that
/// is laid by a cell before the cell in column `x` of row `y`, and zero
/// elsewhere.
spec fn built_to(g: Seq<Seq<Tile>>, now: Seq<Seq<int>>, x: int, y: int) -> bool {
    forall|u: int, v: int|
        0 <= u < node_count(g) && 0 <= v < node_count(g) ==> #[trigger] now[u][v] == if linked(
            g,
            node_at(g, u),
            node_at(g, v),
        ) && earlier(
            owner(g, node_at(g, u), node_at(g, v)).0,
            owner(g, node_at(g, u), node_at(g, v)).1,
            x,
            y,
        ) {
            1int
        } else {
            0int
        }
}

/// A matrix of zeros is what is built before the first cell.
proof fn lemma_none_built(g: Seq<Seq<Tile>>, now: Seq<Seq<int>>)
    requires
        forall|u: int, v: int| 0 <= u < node_count(g) && 0 <= v < node_count(g) ==> #[trigger] now[u][v] == 0,
    ensures
        built_to(g, now, 0, 0),
{
    assert forall|u: int, v: int| 0 <= u < node_count(g) && 0 <= v < node_count(g) implies !(linked(
        g,
        node_at(g, u),
        node_at(g, v),
    ) && earlier(
        #[trigger] owner(g, node_at(g, u), node_at(g, v)).0,
        owner(g, node_at(g, u), node_at(g, v)).1,
        0,
        0,
    )) by {
        lemma_index_of_node_at(g, u);
        lemma_index_of_node_at(g, v);
    }
}

/// Wiring a cell takes what is built up to the cell to what is built up to
/// the next cell of its row.
proof fn lemma_cell_built(g: Seq<Seq<Tile>>, before: Seq<Seq<int>>, after: Seq<Seq<int>>, x: int, y: int)
    requires
        built_to(g, before, x, y),
        wired_to(g, before, after, x, y, 4),
    ensures
        built_to(g, after, x + 1, y),
{
    assert forall|u: int, v: int| 0 <= u < node_count(g) && 0 <= v < node_count(g) implies #[trigger] after[u][v]
        == if linked(g, node_at(g, u), node_at(g, v)) && earlier(
        owner(g, node_at(g, u), node_at(g, v)).0,
        owner(g, node_at(g, u), node_at(g, v)).1,
        x + 1,
        y,
    ) {
        1int
    } else {
        0int
    } by {
        let a = node_at(g, u);
        let b = node_at(g, v);
        assert(after[u][v] == if laid(g, x, y, 4, a, b) { 1 } else { before[u][v] });
        assert(before[u][v] == if linked(g, a, b) && earlier(owner(g, a, b).0, owner(g, a, b).1, x, y) {
            1int
        } else {
            0int
        });
    }
}

/// What is built up to the end of a row is what is built up to the start of
/// the next.
proof fn lemma_row_built(g: Seq<Seq<Tile>>, now: Seq<Seq<int>>, y: int)
    requires
        built_to(g, now, width(g), y),
    ensures
        built_to(g, now, 0, y + 1),
{
    assert forall|u: int, v: int| 0 <= u < node_count(g) && 0 <= v < node_count(g) implies #[trigger] now[u][v]
        == if linked(g, node_at(g, u), node_at(g, v)) && earlier(
        owner(g, node_at(g, u), node_at(g, v)).0,
        owner(g, node_at(g, u), node_at(g, v)).1,
        0,
        y + 1,
    ) {
        1int
    } else {
        0int
    } by {
        lemma_index_of_node_at(g, u);
        lemma_index_of_node_at(g, v);
        let a = node_at(g, u);
        let b = node_at(g, v);
        assert(now[u][v] == if linked(g, a, b) && earlier(owner(g, a, b).0, owner(g, a, b).1, width(g), y) {
            1int
        } else {
            0int
        });
    }
}

/// What is built when the last row is done is the network of the grid.
proof fn lemma_all_built(g: Seq<Seq<Tile>>, now: Seq<Seq<int>>)
    requires
        built_to(g, now, 0, height(g)),
        now.len() == node_count(g),
        forall|u: int| 0 <= u < node_count(g) ==> (#[trigger] now[u]).len() == node_count(g),
    ensures
        now == reduction(g),
{
    assert forall|u: int, v: int| 0 <= u < node_count(g) && 0 <= v < node_count(g) implies #[trigger] now[u][v]
        == reduction(g)[u][v] by {
        lemma_index_of_node_at(g, u);
        lemma_index_of_node_at(g, v);
        let a = node_at(g, u);
        let b = node_at(g, v);
        assert(now[u][v] == if linked(g, a, b) && earlier(owner(g, a, b).0, owner(g, a, b).1, 0, height(g)) {
            1int
        } else {
            0int
        });
    }
    assert(now =~~= reduction(g));
}

/// In the network of a grid every capacity is zero or one, and no edge has
/// an edge that runs back.
pub proof fn lemma_reduction_is_unit(g: Seq<Seq<Tile>>)
    requires
        0 <= cells(g),
    ensures
        reduction(g).len() == node_count(g),
        forall|u: int| 0 <= u < node_count(g) ==> (#[trigger] reduction(g)[u]).len() == node_count(g),
        forall|u: int, v: int|
            0 <= u < node_count(g) && 0 <= v < node_count(g) ==> 0 <= #[trigger] reduction(g)[u][v] <= 1,
        forall|u: int, v: int|
            0 <= u < node_count(g) && 0 <= v < node_count(g) ==> #[trigger] reduction(g)[u][v]
                + reduction(g)[v][u] <= 1,
{
    assert forall|u: int, v: int| 0 <= u < node_count(g) && 0 <= v < node_count(g) implies #[trigger] reduction(
        g,
    )[u][v] + reduction(g)[v][u] <= 1 by {
        lemma_index_of_node_at(g, u);
        lemma_index_of_node_at(g, v);
    }
}

/// A rectangular grid of tiles.
pub struct Grid {
    pub width: usize,
    pub height: usize,
    pub tiles: Vec<Vec<Tile>>,
}

impl View for Grid {
    type V = Seq<Seq<Tile>>;

    /// The rows of tiles.
    open spec fn view(&self) -> Seq<Seq<Tile>> {
        Seq::new(self.tiles@.len(), |y: int| self.tiles@[y]@)
    }
}

impl Tile {
    /// The tile that `marker` names, if it names one.
    pub fn from_marker(marker: char) -> (tile: Option<Tile>)
        ensures
            tile == tile_of(marker),
    {
        if marker == 'W' {
            Some(Tile::Supply)
        } else if marker == 'I' {
            Some(Tile::Transit)
        } else if marker == 'N' {
            Some(Tile::Demand)
        } else {
            None
        }
    }
}

impl Grid {
    /// There are `height` rows of `width` tiles each, and the nodes of the
    /// network can be numbered in a `usize`.
    pub open spec fn wf(&self) -> bool {
        &&& self.tiles@.len() == self.height
        &&& forall|y: int| 0 <= y < self.height ==> (#[trigger] self.tiles@[y])@.len() == self.width
        &&& self.height == 0 ==> self.width == 0
        &&& 2 * (self.width * self.height) + 2 <= usize::MAX
    }

    /// The grid that the rows of markers describe, or the error where they
    /// describe none.
    pub fn parse(rows: &Vec<Vec<char>>) -> (result: Result<Grid, GridError>)
        requires
            well_formed(markers(*rows)) ==> addressable(markers(*rows)),
        ensures
            match result {
                Ok(grid) => well_formed(markers(*rows)) && grid.wf() && grid@ == tiles_of(markers(*rows)),
                Err(e) => !well_formed(markers(*rows)) && e is MalformedGrid,
            },
    {
        let ghost m = markers(*rows);
        let height: usize = rows.len();
        let width: usize = if height == 0 {
            0
        } else {
            rows[0].len()
        };
        let mut tiles: Vec<Vec<Tile>> = Vec::new();
        let mut y: usize = 0;
        while y < height
            invariant
                0 <= y <= height,
                height == rows@.len(),
                m == markers(*rows),
                height > 0 ==> width == m[0].len(),
                tiles@.len() == y,
                forall|j: int| 0 <= j < y ==> (#[trigger] m[j]).len() == width,
                forall|j: int| 0 <= j < y ==> (#[trigger] tiles@[j])@.len() == width,
                forall|i: int, j: int|
                    0 <= j < y && 0 <= i < width ==> tile_of(#[trigger] m[j][i]) == Some(tiles@[j]@[i]),
            decreases height - y,
        {
            let row = &rows[y];
            assert(m[y as int] == row@);
            if row.len() != width {
                return Err(GridError::MalformedGrid);
            }
            let mut tile_row: Vec<Tile> = Vec::new();
            let mut x: usize = 0;
            while x < width
                invariant
                    0 <= x <= width,
                    row@.len() == width,
                    0 <= y < height,
                    height == rows@.len(),
                    m == markers(*rows),
                    m[y as int] == row@,
                    tile_row@.len() == x,
                    forall|i: int| 0 <= i < x ==> tile_of(#[trigger] row@[i]) == Some(tile_row@[i]),
                decreases width - x,
            {
                match Tile::from_marker(row[x]) {
                    Some(tile) => {
                        tile_row.push(tile);
                    },
                    None => {
                        assert(tile_of(m[y as int][x as int]) is None);
                        return Err(GridError::MalformedGrid);
                    },
                }
                x += 1;
            }
            tiles.push(tile_row);
            y += 1;
        }
        let grid = Grid { width, height, tiles };
        proof {
            assert(well_formed(m));
            assert(width * height == m[0].len() * m.len() || height == 0) by (nonlinear_arith)
                requires
                    height > 0 ==> width == m[0].len(),
                    height == m.len(),
            ;
            if height == 0 {
                assert(width * height == 0) by (nonlinear_arith)
                    requires
                        height == 0,
                ;
            }
            assert(grid@ =~~= tiles_of(m));
        }
        Ok(grid)
    }

    /// In a well-formed grid the fields agree with the rows.
    pub proof fn lemma_dimensions(&self)
        requires
            self.wf(),
        ensures
            width(self@) == self.width,
            height(self@) == self.height,
            rectangular(self@),
            cells(self@) == self.width * self.height,
            0 <= cells(self@),
            node_count(self@) <= usize::MAX,
    {
        if self.height > 0 {
            assert(self.tiles@[0]@.len() == self.width);
        }
        assert(0 <= self.width * self.height) by (nonlinear_arith);
    }

    /// The index of the node where flow enters the cell in column `x` of
    /// row `y`.
    pub fn intake(&self, x: usize, y: usize) -> (index: usize)
        requires
            self.wf(),
            x < self.width,
            y < self.height,
        ensures
            index == index_of(self@, Node::Intake { x: x as int, y: y as int }),
            index < cells(self@),
    {
        proof {
            self.lemma_dimensions();
            lemma_flat_index_bound(self.width as int, self.height as int, x as int, y as int);
        }
        y * self.width + x
    }

    /// The index of the node where flow leaves the cell in column `x` of
    /// row `y`.
    pub fn outtake(&self, x: usize, y: usize) -> (index: usize)
        requires
            self.wf(),
            x < self.width,
            y < self.height,
        ensures
            index == index_of(self@, Node::Outtake { x: x as int, y: y as int }),
            cells(self@) <= index < 2 * cells(self@),
    {
        proof {
            self.lemma_dimensions();
            lemma_flat_index_bound(self.width as int, self.height as int, x as int, y as int);
        }
        self.width * self.height + y * self.width + x
    }

    /// The index of the source.
    pub fn source(&self) -> (index: usize)
        requires
            self.wf(),
        ensures
            index == source_of(self@),
    {
        proof {
            self.lemma_dimensions();
        }
        2 * (self.width * self.height)
    }

    /// The index of the sink.
    pub fn sink(&self) -> (index: usize)
        requires
            self.wf(),
        ensures
            index == sink_of(self@),
    {
        proof {
            self.lemma_dimensions();
        }
        2 * (self.width * self.height) + 1
    }

    /// The cell beside the cell in column `x` of row `y` in the given
    /// direction, or `None` where that would leave the grid.
    pub fn neighbor(&self, x: usize, y: usize, direction: usize) -> (cell: Option<(usize, usize)>)
        requires
            self.wf(),
            x < self.width,
            y < self.height,
            direction < 4,
        ensures
            match cell {
                Some((nx, ny)) => neighbor_of(self@, x as int, y as int, direction as int) == Some(
                    (nx as int, ny as int),
                ),
                None => neighbor_of(self@, x as int, y as int, direction as int) is None,
            },
    {
        proof {
            self.lemma_dimensions();
        }
        if direction == 0 {
            if x + 1 < self.width {
                Some((x + 1, y))
            } else {
                None
            }
        } else if direction == 1 {
            if y > 0 {
                Some((x, y - 1))
            } else {
                None
            }
        } else if direction == 2 {
            if x > 0 {
                Some((x - 1, y))
            } else {
                None
            }
        } else {
            if y + 1 < self.height {
                Some((x, y + 1))
            } else {
                None
            }
        }
    }

    /// Writes a one for the edge from node `from` to node `to`.
    fn connect(network: &mut FlowNetwork, from: usize, to: usize)
        requires
            old(network).wf(),
            from < old(network).size,
            to < old(network).size,
        ensures
            final(network).wf(),
            final(network).size == old(network).size,
            forall|u: int, v: int|
                0 <= u < old(network).size && 0 <= v < old(network).size ==> #[trigger] final(network)@[u][v]
                    == if u == from && v == to {
                    1
                } else {
                    old(network)@[u][v]
                },
    {
        network.capacity[from][to] = 1;
    }

    /// Lays the edges of the cell in column `x` of row `y`: across the cell,
    /// to the source or the sink, and for a transit tile to the supply and
    /// demand tiles beside it.
    fn wire_cell(&self, network: &mut FlowNetwork, x: usize, y: usize)
        requires
            self.wf(),
            x < self.width,
            y < self.height,
            old(network).wf(),
            old(network).size == node_count(self@),
        ensures
            final(network).wf(),
            final(network).size == old(network).size,
            wired_to(self@, old(network)@, final(network)@, x as int, y as int, 4),
    {
        let ghost g = self@;
        let ghost start = network@;
        proof {
            self.lemma_dimensions();
        }
        let intake: usize = self.intake(x, y);
        let outtake: usize = self.outtake(x, y);
        let source: usize = self.source();
        let sink: usize = self.sink();
        let ghost here_in = Node::Intake { x: x as int, y: y as int };
        let ghost here_out = Node::Outtake { x: x as int, y: y as int };
        assert(g[y as int][x as int] == self.tiles@[y as int]@[x as int]);
        assert(wired_to(g, start, start, x as int, y as int, -2));
        Self::connect(network, intake, outtake);
        proof {
            lemma_wire_one(g, start, start, network@, x as int, y as int, -2, -1, here_in, here_out);
        }
        let ghost crossed = network@;
        match self.tiles[y][x] {
            Tile::Supply => {
                Self::connect(network, source, intake);
                proof {
                    lemma_wire_one(g, start, crossed, network@, x as int, y as int, -1, 0, Node::Source, here_in);
                    lemma_wire_none(g, start, network@, x as int, y as int, 0, 4);
                }
            },
            Tile::Demand => {
                Self::connect(network, outtake, sink);
                proof {
                    lemma_wire_one(g, start, crossed, network@, x as int, y as int, -1, 0, here_out, Node::Sink);
                    lemma_wire_none(g, start, network@, x as int, y as int, 0, 4);
                }
            },
            Tile::Transit => {
                proof {
                    lemma_wire_none(g, start, network@, x as int, y as int, -1, 0);
                }
                let mut direction: usize = 0;
                while direction < 4
                    invariant
                        0 <= direction <= 4,
                        self.wf(),
                        g == self@,
                        x < self.width,
                        y < self.height,
                        g[y as int][x as int] is Transit,
                        network.wf(),
                        network.size == old(network).size,
                        network.size == node_count(g),
                        intake == index_of(g, here_in),
                        outtake == index_of(g, here_out),
                        intake < network.size,
                        outtake < network.size,
                        here_in == (Node::Intake { x: x as int, y: y as int }),
                        here_out == (Node::Outtake { x: x as int, y: y as int }),
                        wired_to(g, start, network@, x as int, y as int, direction as int),
                    decreases 4 - direction,
                {
                    let ghost now = network@;
                    match self.neighbor(x, y, direction) {
                        Some((nx, ny)) => {
                            assert(g[ny as int][nx as int] == self.tiles@[ny as int]@[nx as int]);
                            let ghost there_in = Node::Intake { x: nx as int, y: ny as int };
                            let ghost there_out = Node::Outtake { x: nx as int, y: ny as int };
                            match self.tiles[ny][nx] {
                                Tile::Supply => {
                                    let from: usize = self.outtake(nx, ny);
                                    Self::connect(network, from, intake);
                                    proof {
                                        lemma_wire_one(
                                            g,
                                            start,
                                            now,
                                            network@,
                                            x as int,
                                            y as int,
                                            direction as int,
                                            direction + 1,
                                            there_out,
                                            here_in,
                                        );
                                    }
                                },
                                Tile::Demand => {
                                    let to: usize = self.intake(nx, ny);
                                    Self::connect(network, outtake, to);
                                    proof {
                                        lemma_wire_one(
                                            g,
                                            start,
                                            now,
                                            network@,
                                            x as int,
                                            y as int,
                                            direction as int,
                                            direction + 1,
                                            here_out,
                                            there_in,
                                        );
                                    }
                                },
                                Tile::Transit => {
                                    proof {
                                        lemma_wire_none(
                                            g,
                                            start,
                                            now,
                                            x as int,
                                            y as int,
                                            direction as int,
                                            direction + 1,
                                        );
                                    }
                                },
                            }
                        },
                        None => {
                            proof {
                                lemma_wire_none(
                                    g,
                                    start,
                                    now,
                                    x as int,
                                    y as int,
                                    direction as int,
                                    direction + 1,
                                );
                            }
                        },
                    }
                    direction += 1;
                }
            },
        }
    }

    /// The flow network of the grid: two nodes for each cell, the source and
    /// the sink, and the edges that the tiles call for, each of capacity one.
    pub fn reduce(&self) -> (network: FlowNetwork)
        requires
            self.wf(),
        ensures
            network.wf(),
            network.size == node_count(self@),
            network@ == reduction(self@),
    {
        let ghost g = self@;
        proof {
            self.lemma_dimensions();
        }
        let mut network = FlowNetwork::new(2 * (self.width * self.height) + 2);
        proof {
            lemma_none_built(g, network@);
        }
        let mut y: usize = 0;
        while y < self.height
            invariant
                0 <= y <= self.height,
                self.wf(),
                g == self@,
                width(g) == self.width,
                height(g) == self.height,
                network.wf(),
                network.size == node_count(g),
                built_to(g, network@, 0, y as int),
            decreases self.height - y,
        {
            let mut x: usize = 0;
            while x < self.width
                invariant
                    0 <= x <= self.width,
                    y < self.height,
                    self.wf(),
                    g == self@,
                    width(g) == self.width,
                    height(g) == self.height,
                    network.wf(),
                    network.size == node_count(g),
                    built_to(g, network@, x as int, y as int),
                decreases self.width - x,
            {
                let ghost before = network@;
                self.wire_cell(&mut network, x, y);
                proof {
                    lemma_cell_built(g, before, network@, x as int, y as int);
                }
                x += 1;
            }
            proof {
                lemma_row_built(g, network@, y as int);
            }
            y += 1;
        }
        proof {
            lemma_all_built(g, network@);
        }
        network
    }
}

/// Whether the nodes of the network of a grid with these rows can be
/// numbered in a `usize`.
pub fn is_addressable(rows: &Vec<Vec<char>>) -> (ok: bool)
    ensures
        ok == addressable(markers(*rows)),
{
    if rows.len() == 0 {
        return true;
    }
    let width: usize = rows[0].len();
    assert(markers(*rows)[0].len() == width);
    match width.checked_mul(rows.len()) {
        Some(cells) => match cells.checked_mul(2) {
            Some(twice) => twice.checked_add(2).is_some(),
            None => false,
        },
        None => {
            assert(width * rows.len() >= 0) by (nonlinear_arith);
            false
        },
    }
}

/// Reducing a grid gives the same network every time: two networks that
/// are reductions of one grid hold the same capacities, entry for entry.
pub proof fn lemma_reduce_repeats(grid: Grid, first: FlowNetwork, second: FlowNetwork)
    requires
        grid.wf(),
        first.wf(),
        first.size == node_count(grid@),
        first@ == reduction(grid@),
        second.wf(),
        second.size == node_count(grid@),
        second@ == reduction(grid@),
    ensures
        first.size == second.size,
        first@ == second@,
        first.capacity.deep_view() == second.capacity.deep_view(),
{
    assert forall|u: int| 0 <= u < first.size implies #[trigger] first.capacity@[u]@ == second.capacity@[u]@ by {
        assert forall|v: int| 0 <= v < first.size implies first.capacity@[u]@[v] == second.capacity@[u]@[v] by {
            assert(first@[u][v] == second@[u][v]);
        }
        assert(first.capacity@[u]@ =~= second.capacity@[u]@);
    }
    assert(first.capacity.deep_view() =~~= second.capacity.deep_view());
}

/// The greatest number of pieces that can be cut from the grid, each piece a
/// supply tile, a transit tile beside it and a demand tile beside that one,
/// no tile in two pieces: the maximum flow of the grid's network.
pub fn solve_case(tile_grid: Vec<Vec<char>>) -> (result: Result<usize, GridError>)
    requires
        well_formed(markers(tile_grid)) ==> addressable(markers(tile_grid)),
    ensures
        match result {
            Ok(pieces) => {
                let g = tiles_of(markers(tile_grid));
                &&& well_formed(markers(tile_grid))
                &&& is_most_pieces(g, pieces as int)
                &&& is_max_flow(reduction(g), source_of(g), sink_of(g), pieces as int)
                &&& pieces <= row_sum(reduction(g), source_of(g))
                &&& pieces <= col_sum(reduction(g), sink_of(g))
            },
            Err(e) => !well_formed(markers(tile_grid)) && e is MalformedGrid,
        },
{
    let grid = match Grid::parse(&tile_grid) {
        Ok(grid) => grid,
        Err(e) => {
            return Err(e);
        },
    };
    let mut network = grid.reduce();
    let source: usize = grid.source();
    let sink: usize = grid.sink();
    proof {
        let g = grid@;
        grid.lemma_dimensions();
        lemma_reduction_is_unit(g);
        lemma_partial_sum_bounded(reduction(g)[source as int], node_count(g), 1);
    }
    let pieces: usize = network.get_max_flow(source, sink);
    proof {
        lemma_max_flow_is_most_pieces(grid@, pieces as int);
    }
    Ok(pieces)
}

} // verus!
