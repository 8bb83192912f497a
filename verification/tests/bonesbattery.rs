use puzzles::bonesbattery::{build_table, floyd_warshall, largest, least_range, solve_case, MAX_D};

#[test]
fn shortest_distances_of_three_nodes() {
    // 0 to 1 is 4, 1 to 2 is 1, 0 to 2 is 9, both ways.
    let mut adj = vec![100, 4, 9, 4, 100, 1, 9, 1, 100];
    floyd_warshall(&mut adj, 3);
    assert_eq!(adj, vec![8, 4, 5, 4, 2, 1, 5, 1, 2]);
}

#[test]
fn shortest_distances_follow_directions() {
    // A ring 0 to 1 to 2 to 0 of length one each, nothing backwards.
    let far = 1000;
    let mut adj = vec![far, 1, far, far, far, 1, 1, far, far];
    floyd_warshall(&mut adj, 3);
    assert_eq!(adj, vec![3, 1, 2, 2, 3, 1, 1, 2, 3]);
}

#[test]
fn shortest_distances_of_nothing() {
    let mut adj: Vec<u64> = Vec::new();
    floyd_warshall(&mut adj, 0);
    assert!(adj.is_empty());
    let mut one = vec![7];
    floyd_warshall(&mut one, 1);
    assert_eq!(one, vec![7]);
}

#[test]
fn table_holds_roads_both_ways() {
    let adj = build_table(3, &vec![(0, 1, 4), (1, 2, 6)]);
    assert_eq!(adj, vec![MAX_D, 4, MAX_D, 4, MAX_D, 6, MAX_D, 6, MAX_D]);
}

#[test]
fn later_road_replaces_earlier() {
    let adj = build_table(2, &vec![(0, 1, 4), (1, 0, 3)]);
    assert_eq!(adj, vec![MAX_D, 3, 3, MAX_D]);
}

#[test]
fn largest_entry_is_found() {
    assert_eq!(largest(&vec![3, 9, 2, 9, 1]), 9);
    assert_eq!(largest(&vec![5]), 5);
}

#[test]
fn range_for_two_nodes() {
    // One road of length 5. From a node back to itself is 10.
    let roads = vec![(0, 1, 5)];
    assert_eq!(solve_case(2, 2, &roads), 5);
    assert_eq!(solve_case(2, 1, &roads), 10);
    assert_eq!(solve_case(2, 0, &roads), MAX_D);
}

#[test]
fn range_for_a_chain() {
    // 0 -3- 1 -4- 2 -5- 3
    let roads = vec![(0, 1, 3), (1, 2, 4), (2, 3, 5)];
    // With a stop at every node the longest road decides.
    assert_eq!(solve_case(4, 3, &roads), 5);
    // With two legs 0 to 3 needs a leg of 7 and one of 5, or 3 and 9; and
    // from 3 back to 3 takes two legs of 5.
    assert_eq!(solve_case(4, 2, &roads), 7);
    // In one leg from every node to every node, and back to itself.
    assert_eq!(solve_case(4, 1, &roads), 12);
}

#[test]
fn no_range_joins_what_no_road_joins() {
    let roads = vec![(0, 1, 3)];
    // Node 2 has no road: the distance to it is MAX_D, and only that range
    // reaches it.
    assert_eq!(solve_case(3, 1, &roads), MAX_D);
    assert_eq!(solve_case(3, 2, &roads), MAX_D);
}

#[test]
fn least_range_on_given_distances() {
    let dist = vec![2, 1, 1, 2];
    assert_eq!(least_range(&dist, 2, 1), 2);
    assert_eq!(least_range(&dist, 2, 2), 1);
    assert_eq!(least_range(&dist, 2, 0), MAX_D);
    assert_eq!(least_range(&vec![0], 1, 5), MAX_D);
}
