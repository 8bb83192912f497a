use puzzles::network::FlowNetwork;
use puzzles::tilecut::{is_addressable, solve_case, Grid, GridError, Tile};

fn rows(lines: &[&str]) -> Vec<Vec<char>> {
    lines.iter().map(|line| line.chars().collect()).collect()
}

fn ones(network: &FlowNetwork) -> Vec<(usize, usize)> {
    let mut found = Vec::new();
    for u in 0..network.size {
        for v in 0..network.size {
            assert!(network.capacity[u][v] <= 1);
            if network.capacity[u][v] == 1 {
                found.push((u, v));
            }
        }
    }
    found
}

#[test]
fn single_supply_tile_yields_nothing() {
    assert_eq!(solve_case(rows(&["W"])), Ok(0));
}

#[test]
fn one_row_of_three_yields_one_piece() {
    assert_eq!(solve_case(rows(&["WIN"])), Ok(1));
}

#[test]
fn two_supplies_share_one_transit() {
    assert_eq!(solve_case(rows(&["WW", "IN"])), Ok(1));
}

#[test]
fn grid_without_transit_yields_nothing() {
    assert_eq!(solve_case(rows(&["WN", "NW"])), Ok(0));
}

#[test]
fn two_rows_yield_two_pieces() {
    assert_eq!(solve_case(rows(&["WIN", "WIN"])), Ok(2));
}

#[test]
fn pieces_may_bend() {
    assert_eq!(solve_case(rows(&["WI", "WN"])), Ok(1));
    assert_eq!(solve_case(rows(&["WI", "NN"])), Ok(1));
    assert_eq!(solve_case(rows(&["IW", "NI", "WN"])), Ok(1));
    assert_eq!(solve_case(rows(&["WIN", "NIW"])), Ok(2));
}

#[test]
fn pieces_in_a_line_do_not_share_tiles() {
    assert_eq!(solve_case(rows(&["WINWIN"])), Ok(2));
    assert_eq!(solve_case(rows(&["WINIW"])), Ok(1));
    assert_eq!(solve_case(rows(&["NIWIN"])), Ok(1));
}

#[test]
fn order_of_tiles_in_a_piece_matters() {
    assert_eq!(solve_case(rows(&["NIW"])), Ok(1));
    assert_eq!(solve_case(rows(&["WNI"])), Ok(0));
    assert_eq!(solve_case(rows(&["IWN"])), Ok(0));
}

#[test]
fn a_later_path_reroutes_an_earlier_one() {
    // The first search takes the transit tile that the second supply tile
    // needs; the second search must send the first one round.
    assert_eq!(solve_case(rows(&["WIN", "IWI", "NIN"])), Ok(2));
}

#[test]
fn grid_without_rows_yields_nothing() {
    assert_eq!(solve_case(Vec::new()), Ok(0));
}

#[test]
fn grid_without_columns_yields_nothing() {
    assert_eq!(solve_case(vec![Vec::new(), Vec::new()]), Ok(0));
}

#[test]
fn jagged_grid_is_malformed() {
    assert_eq!(solve_case(rows(&["WIN", "WI"])), Err(GridError::MalformedGrid));
    assert_eq!(solve_case(rows(&["WI", "WIN"])), Err(GridError::MalformedGrid));
    assert_eq!(solve_case(vec![Vec::new(), vec!['W']]), Err(GridError::MalformedGrid));
}

#[test]
fn unknown_marker_is_malformed() {
    assert_eq!(solve_case(rows(&["WXN"])), Err(GridError::MalformedGrid));
    assert_eq!(solve_case(rows(&["win"])), Err(GridError::MalformedGrid));
    assert_eq!(solve_case(rows(&["WIN", "WI "])), Err(GridError::MalformedGrid));
}

#[test]
fn markers_name_tiles() {
    assert_eq!(Tile::from_marker('W'), Some(Tile::Supply));
    assert_eq!(Tile::from_marker('I'), Some(Tile::Transit));
    assert_eq!(Tile::from_marker('N'), Some(Tile::Demand));
    assert_eq!(Tile::from_marker('w'), None);
    assert_eq!(Tile::from_marker(' '), None);
}

#[test]
fn parse_keeps_the_tiles() {
    let grid = Grid::parse(&rows(&["WI", "NN", "IW"])).unwrap();
    assert_eq!(grid.width, 2);
    assert_eq!(grid.height, 3);
    assert_eq!(
        grid.tiles,
        vec![
            vec![Tile::Supply, Tile::Transit],
            vec![Tile::Demand, Tile::Demand],
            vec![Tile::Transit, Tile::Supply],
        ]
    );
}

#[test]
fn parse_turns_down_what_is_malformed() {
    assert!(matches!(Grid::parse(&rows(&["WI", "N"])), Err(GridError::MalformedGrid)));
    assert!(matches!(Grid::parse(&rows(&["W?"])), Err(GridError::MalformedGrid)));
}

#[test]
fn nodes_are_numbered_intakes_first() {
    let grid = Grid::parse(&rows(&["WIN", "NIW"])).unwrap();
    assert_eq!(grid.intake(0, 0), 0);
    assert_eq!(grid.intake(2, 0), 2);
    assert_eq!(grid.intake(0, 1), 3);
    assert_eq!(grid.intake(2, 1), 5);
    assert_eq!(grid.outtake(0, 0), 6);
    assert_eq!(grid.outtake(1, 1), 10);
    assert_eq!(grid.outtake(2, 1), 11);
    assert_eq!(grid.source(), 12);
    assert_eq!(grid.sink(), 13);
}

#[test]
fn no_two_nodes_share_a_number() {
    let grid = Grid::parse(&rows(&["WIN", "NIW", "III", "WWN"])).unwrap();
    let mut taken = vec![false; 2 * 3 * 4 + 2];
    for y in 0..4 {
        for x in 0..3 {
            for index in [grid.intake(x, y), grid.outtake(x, y)] {
                assert!(!taken[index]);
                taken[index] = true;
            }
        }
    }
    assert!(!taken[grid.source()]);
    taken[grid.source()] = true;
    assert!(!taken[grid.sink()]);
    taken[grid.sink()] = true;
    assert!(taken.iter().all(|&t| t));
}

#[test]
fn neighbors_stay_inside_the_grid() {
    let grid = Grid::parse(&rows(&["WIN", "NIW"])).unwrap();
    assert_eq!(grid.neighbor(0, 0, 0), Some((1, 0)));
    assert_eq!(grid.neighbor(0, 0, 1), None);
    assert_eq!(grid.neighbor(0, 0, 2), None);
    assert_eq!(grid.neighbor(0, 0, 3), Some((0, 1)));
    assert_eq!(grid.neighbor(2, 1, 0), None);
    assert_eq!(grid.neighbor(2, 1, 1), Some((2, 0)));
    assert_eq!(grid.neighbor(2, 1, 2), Some((1, 1)));
    assert_eq!(grid.neighbor(2, 1, 3), None);
}

#[test]
fn reduction_of_one_row_has_exactly_its_edges() {
    let grid = Grid::parse(&rows(&["WIN"])).unwrap();
    let network = grid.reduce();
    assert_eq!(network.size, 8);
    assert_eq!(network.capacity.len(), 8);
    assert!(network.capacity.iter().all(|row| row.len() == 8));
    // Intakes 0 1 2, outtakes 3 4 5, source 6, sink 7.
    assert_eq!(ones(&network), vec![(0, 3), (1, 4), (2, 5), (3, 1), (4, 2), (5, 7), (6, 0)]);
}

#[test]
fn reduction_joins_transit_tiles_in_all_four_directions() {
    let grid = Grid::parse(&rows(&["WNW", "NIN", "WWW"])).unwrap();
    let network = grid.reduce();
    let centre_in = grid.intake(1, 1);
    let centre_out = grid.outtake(1, 1);
    let mut expected = Vec::new();
    for y in 0..3 {
        for x in 0..3 {
            expected.push((grid.intake(x, y), grid.outtake(x, y)));
        }
    }
    for (x, y) in [(0, 0), (2, 0), (0, 2), (1, 2), (2, 2)] {
        expected.push((grid.source(), grid.intake(x, y)));
    }
    for (x, y) in [(1, 0), (0, 1), (2, 1)] {
        expected.push((grid.outtake(x, y), grid.sink()));
        expected.push((centre_out, grid.intake(x, y)));
    }
    expected.push((grid.outtake(1, 2), centre_in));
    expected.sort();
    assert_eq!(ones(&network), expected);
}

#[test]
fn reduction_leaves_alone_what_no_rule_joins() {
    // Two transit tiles side by side, two supply tiles side by side: no
    // edge between them.
    let grid = Grid::parse(&rows(&["IIWW"])).unwrap();
    let network = grid.reduce();
    let mut expected = Vec::new();
    for x in 0..4 {
        expected.push((grid.intake(x, 0), grid.outtake(x, 0)));
    }
    expected.push((grid.outtake(2, 0), grid.intake(1, 0)));
    expected.push((grid.source(), grid.intake(2, 0)));
    expected.push((grid.source(), grid.intake(3, 0)));
    expected.sort();
    assert_eq!(ones(&network), expected);
}

#[test]
fn reducing_twice_gives_the_same_matrix() {
    let grid = Grid::parse(&rows(&["WINI", "IWNW", "NIWI"])).unwrap();
    let first = grid.reduce();
    let second = grid.reduce();
    assert_eq!(first.size, second.size);
    assert_eq!(first.capacity, second.capacity);
}

#[test]
fn rounds_on_a_grid_equal_its_flow() {
    let grid = Grid::parse(&rows(&["WINIW", "IWNWI", "NIWIN", "WINIW"])).unwrap();
    let mut network = grid.reduce();
    let (flow, rounds) = network.get_max_flow_counted(grid.source(), grid.sink());
    assert_eq!(rounds, flow);
    assert_eq!(Ok(flow), solve_case(rows(&["WINIW", "IWNWI", "NIWIN", "WINIW"])));
}

#[test]
fn flow_on_a_grid_is_at_most_supplies_and_demands() {
    let lines = ["WWWW", "IIII", "NNWW", "WINI"];
    let flow = solve_case(rows(&lines)).unwrap();
    let supplies = lines.iter().flat_map(|l| l.chars()).filter(|&c| c == 'W').count();
    let demands = lines.iter().flat_map(|l| l.chars()).filter(|&c| c == 'N').count();
    assert!(flow <= supplies && flow <= demands);
    assert_eq!(flow, 3);
}

#[test]
fn larger_grid_is_solved() {
    let mut lines = Vec::new();
    for y in 0..12 {
        let line: String = (0..12).map(|x| ['W', 'I', 'N'][(x + y) % 3]).collect();
        lines.push(line);
    }
    let grid: Vec<Vec<char>> = lines.iter().map(|l| l.chars().collect()).collect();
    // Tiles on one diagonal are alike, and a piece takes a supply tile and
    // one tile from each of the next two diagonals. The diagonals hold 1, 2,
    // 3 and so on up to 12 tiles and then 11 down to 1, so the eight groups
    // of three diagonals allow 1, 4, 7, 10, 9, 6, 3 and 0 pieces.
    let flow = solve_case(grid).unwrap();
    assert_eq!(flow, 40);
}

#[test]
fn grids_that_fit_in_memory_are_addressable() {
    assert!(is_addressable(&Vec::new()));
    assert!(is_addressable(&vec![Vec::new()]));
    assert!(is_addressable(&rows(&["WIN", "NIW"])));
}

#[test]
fn twenty_by_twenty_grid_takes_as_many_rounds_as_it_yields_pieces() {
    let mut lines: Vec<Vec<char>> = Vec::new();
    for y in 0..20 {
        lines.push((0..20).map(|x| ['W', 'I', 'N'][(x * x + 3 * y + x * y) % 3]).collect());
    }
    let grid = Grid::parse(&lines).unwrap();
    let mut network = grid.reduce();
    assert_eq!(network.size, 802);
    let (flow, rounds) = network.get_max_flow_counted(grid.source(), grid.sink());
    assert_eq!(rounds, flow);
    assert_eq!(solve_case(lines), Ok(flow));
    let supplies = grid.tiles.iter().flatten().filter(|&&t| t == Tile::Supply).count();
    let demands = grid.tiles.iter().flatten().filter(|&&t| t == Tile::Demand).count();
    assert!(flow <= supplies.min(demands));
    assert!(flow > 0);
}
