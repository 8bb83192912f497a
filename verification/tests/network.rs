use puzzles::network::FlowNetwork;

fn network(size: usize, edges: &[(usize, usize, usize)]) -> FlowNetwork {
    let mut network = FlowNetwork::new(size);
    for &(u, v, c) in edges {
        network.capacity[u][v] = c;
    }
    network
}

const TEXTBOOK: [(usize, usize, usize); 9] = [
    (0, 1, 16),
    (0, 2, 13),
    (1, 3, 12),
    (2, 1, 4),
    (2, 4, 14),
    (3, 2, 9),
    (3, 5, 20),
    (4, 3, 7),
    (4, 5, 4),
];

#[test]
fn new_network_has_no_edges() {
    let network = FlowNetwork::new(4);
    assert_eq!(network.size, 4);
    assert_eq!(network.capacity, vec![vec![0usize; 4]; 4]);
    let empty = FlowNetwork::new(0);
    assert_eq!(empty.size, 0);
    assert!(empty.capacity.is_empty());
}

#[test]
fn textbook_network_has_flow_23() {
    let mut network = network(6, &TEXTBOOK);
    assert_eq!(network.get_max_flow(0, 5), 23);
}

#[test]
fn disconnected_network_has_flow_zero() {
    let mut network = network(4, &[(0, 1, 5), (2, 3, 5)]);
    assert_eq!(network.get_max_flow(0, 3), 0);
    assert_eq!(network.capacity[0][1], 5);
    assert_eq!(network.capacity[2][3], 5);
}

#[test]
fn single_edge_carries_its_capacity() {
    let mut network = network(2, &[(0, 1, 7)]);
    assert_eq!(network.get_max_flow(0, 1), 7);
    assert_eq!(network.capacity[0][1], 0);
    assert_eq!(network.capacity[1][0], 7);
}

#[test]
fn edge_into_the_source_carries_nothing() {
    let mut network = network(2, &[(1, 0, 7)]);
    assert_eq!(network.get_max_flow(0, 1), 0);
}

#[test]
fn flow_is_the_least_capacity_along_a_chain() {
    let mut network = network(4, &[(0, 1, 9), (1, 2, 3), (2, 3, 5)]);
    assert_eq!(network.get_max_flow(0, 3), 3);
}

#[test]
fn search_undoes_a_bad_first_choice() {
    // Depth first, the first path is 0 1 2 3; the second must push back
    // along the edge from 1 to 2.
    let mut network = network(4, &[(0, 1, 1), (0, 2, 1), (1, 2, 1), (1, 3, 1), (2, 3, 1)]);
    let (flow, rounds) = network.get_max_flow_counted(0, 3);
    assert_eq!(flow, 2);
    assert_eq!(rounds, 2);
}

#[test]
fn large_capacities_do_not_overflow() {
    let big = usize::MAX / 2;
    let mut network = network(3, &[(0, 1, big), (1, 2, big)]);
    assert_eq!(network.get_max_flow(0, 2), big);
}

#[test]
fn flow_is_at_most_capacity_out_of_source_and_into_sink() {
    let mut network = network(6, &TEXTBOOK);
    let out_of_source: usize = network.capacity[0].iter().sum();
    let into_sink: usize = (0..6).map(|u| network.capacity[u][5]).sum();
    let flow = network.get_max_flow(0, 5);
    assert!(flow <= out_of_source.min(into_sink));
    let mut narrow = self::network(3, &[(0, 1, 1), (0, 2, 1), (1, 2, 1)]);
    assert_eq!(narrow.get_max_flow(0, 2), 2);
}

#[test]
fn flow_is_conserved_at_inner_nodes() {
    let given = network(6, &TEXTBOOK);
    let mut solved = network(6, &TEXTBOOK);
    let flow = solved.get_max_flow(0, 5);
    for u in 1..5 {
        let mut into: i64 = 0;
        let mut out_of: i64 = 0;
        for v in 0..6 {
            into += given.capacity[v][u] as i64 - solved.capacity[v][u] as i64;
            out_of += given.capacity[u][v] as i64 - solved.capacity[u][v] as i64;
        }
        assert_eq!(into, out_of);
    }
    let left_source: i64 = (0..6).map(|v| given.capacity[0][v] as i64 - solved.capacity[0][v] as i64).sum();
    assert_eq!(left_source, flow as i64);
    for u in 0..6 {
        for v in 0..6 {
            assert_eq!(
                solved.capacity[u][v] + solved.capacity[v][u],
                given.capacity[u][v] + given.capacity[v][u]
            );
        }
    }
}

#[test]
fn adding_a_unit_edge_never_lowers_the_flow() {
    let edges = [(0, 1, 1), (1, 2, 1), (0, 3, 1), (3, 4, 1), (2, 5, 1)];
    let base = network(6, &edges).get_max_flow(0, 5);
    assert_eq!(base, 1);
    for u in 0..6 {
        for v in 0..6 {
            let mut wider = network(6, &edges);
            if u != v && wider.capacity[u][v] == 0 {
                wider.capacity[u][v] = 1;
                let flow = wider.get_max_flow(0, 5);
                assert!(flow >= base);
                if (u, v) == (4, 5) {
                    assert_eq!(flow, 2);
                }
            }
        }
    }
}

#[test]
fn rounds_never_exceed_the_flow() {
    let mut network = network(6, &TEXTBOOK);
    let (flow, rounds) = network.get_max_flow_counted(0, 5);
    assert_eq!(flow, 23);
    assert!(1 <= rounds && rounds <= flow);
}

#[test]
fn augment_at_the_sink_returns_the_flow_offered() {
    let mut network = network(3, &[(0, 1, 2)]);
    let mut seen = vec![false; 3];
    assert_eq!(network.augment(&mut seen, 2, 2, 9), 9);
    assert_eq!(seen, vec![false; 3]);
    assert_eq!(network.capacity[0][1], 2);
}

#[test]
fn augment_pushes_along_the_first_path() {
    let mut network = network(4, &[(0, 1, 5), (1, 3, 3), (0, 2, 9), (2, 3, 9)]);
    let mut seen = vec![false; 4];
    assert_eq!(network.augment(&mut seen, 0, 3, usize::MAX), 3);
    assert_eq!(network.capacity[0][1], 2);
    assert_eq!(network.capacity[1][0], 3);
    assert_eq!(network.capacity[1][3], 0);
    assert_eq!(network.capacity[3][1], 3);
    assert_eq!(network.capacity[0][2], 9);
    assert_eq!(network.capacity[2][3], 9);
    assert_eq!(seen, vec![true, true, false, false]);
}

#[test]
fn augment_takes_the_path_through_the_lowest_nodes() {
    // Two paths of two edges each; the search tries node 1 before node 2.
    let mut network = network(4, &[(0, 2, 1), (2, 3, 1), (0, 1, 1), (1, 3, 1)]);
    let mut seen = vec![false; 4];
    assert_eq!(network.augment(&mut seen, 0, 3, usize::MAX), 1);
    assert_eq!(network.capacity[0][1], 0);
    assert_eq!(network.capacity[1][3], 0);
    assert_eq!(network.capacity[0][2], 1);
    assert_eq!(network.capacity[2][3], 1);
}

#[test]
fn augment_marks_the_dead_ends_that_it_tried() {
    // Node 1 leads nowhere; the path goes through node 2.
    let mut network = network(4, &[(0, 1, 1), (0, 2, 1), (2, 3, 1)]);
    let mut seen = vec![false; 4];
    assert_eq!(network.augment(&mut seen, 0, 3, usize::MAX), 1);
    assert_eq!(seen, vec![true, true, true, false]);
    assert_eq!(network.capacity[0][1], 1);
    assert_eq!(network.capacity[2][0], 1);
    assert_eq!(network.capacity[3][2], 1);
}

#[test]
fn augment_is_capped_by_the_flow_offered() {
    let mut network = network(2, &[(0, 1, 5)]);
    let mut seen = vec![false; 2];
    assert_eq!(network.augment(&mut seen, 0, 1, 2), 2);
    assert_eq!(network.capacity[0][1], 3);
    assert_eq!(network.capacity[1][0], 2);
}

#[test]
fn augment_without_a_path_marks_what_it_reached() {
    let mut network = network(5, &[(0, 1, 1), (1, 2, 1), (3, 4, 1)]);
    let mut seen = vec![false; 5];
    assert_eq!(network.augment(&mut seen, 0, 4, usize::MAX), 0);
    assert_eq!(seen, vec![true, true, true, false, false]);
    assert_eq!(network.capacity[0][1], 1);
    assert_eq!(network.capacity[1][2], 1);
    assert_eq!(network.capacity[3][4], 1);
}

#[test]
fn augment_avoids_marked_nodes() {
    let mut network = network(4, &[(0, 1, 1), (1, 3, 1), (0, 2, 1), (2, 3, 1)]);
    let mut seen = vec![false, true, false, false];
    assert_eq!(network.augment(&mut seen, 0, 3, usize::MAX), 1);
    assert_eq!(network.capacity[0][1], 1);
    assert_eq!(network.capacity[0][2], 0);
    assert_eq!(network.capacity[2][3], 0);
}

#[test]
fn augment_pushes_nothing_of_a_flow_of_zero() {
    let mut network = network(3, &[(0, 1, 4), (1, 2, 4)]);
    let mut seen = vec![false; 3];
    assert_eq!(network.augment(&mut seen, 0, 2, 0), 0);
    assert_eq!(network.capacity[0][1], 4);
    assert_eq!(network.capacity[1][2], 4);
    assert_eq!(network.capacity[1][0], 0);
    assert!(seen[0]);
    assert!(!seen[2]);
}
