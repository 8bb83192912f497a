use puzzles::randomwalk::{mirrored, solve_case, Dir};

#[test]
fn add_and_take() {
    let mut dir = Dir { x: 3, y: -4 };
    dir.add_mut(2, 10);
    assert_eq!(dir, Dir { x: 5, y: 6 });
    dir.sub_mut(7, 6);
    assert_eq!(dir, Dir { x: -2, y: 0 });
}

#[test]
fn length_squared_of_vectors() {
    assert_eq!(Dir { x: 3, y: 4 }.length_squared(), 25);
    assert_eq!(Dir { x: -3, y: 4 }.length_squared(), 25);
    assert_eq!(Dir { x: -5, y: -12 }.length_squared(), 169);
    assert_eq!(Dir { x: 0, y: 0 }.length_squared(), 0);
    assert_eq!(Dir { x: -30000, y: 30000 }.length_squared(), 1_800_000_000);
}

#[test]
fn mirrored_vectors() {
    let dirs = mirrored(&vec![(1, 2), (-3, 0)]);
    assert_eq!(
        dirs,
        vec![Dir { x: 1, y: 2 }, Dir { x: -1, y: -2 }, Dir { x: -3, y: 0 }, Dir { x: 3, y: 0 }]
    );
    assert!(mirrored(&Vec::new()).is_empty());
}

#[test]
fn longest_run_of_two() {
    // In order of angle: the runs are (1,0)+(0,1), (0,1)+(-1,0), (-1,0)+(0,-1).
    let dirs = vec![Dir { x: 0, y: -1 }, Dir { x: 1, y: 0 }, Dir { x: 0, y: 1 }, Dir { x: -1, y: 0 }];
    assert_eq!(solve_case(&dirs, 2), 2);
}

#[test]
fn longest_run_is_found_wherever_it_stands() {
    let first = vec![Dir { x: 5, y: 0 }, Dir { x: 4, y: 3 }, Dir { x: -5, y: 0 }, Dir { x: -4, y: -3 }];
    assert_eq!(solve_case(&first, 2), 90);
    let middle = vec![Dir { x: -4, y: -3 }, Dir { x: 5, y: 0 }, Dir { x: 4, y: 3 }, Dir { x: -5, y: 0 }];
    assert_eq!(solve_case(&middle, 2), 90);
    let last = vec![Dir { x: -5, y: 0 }, Dir { x: -4, y: -3 }, Dir { x: 5, y: 0 }, Dir { x: 4, y: 3 }];
    assert_eq!(solve_case(&last, 2), 90);
}

#[test]
fn run_of_one_and_of_none() {
    assert_eq!(solve_case(&vec![Dir { x: 3, y: 4 }, Dir { x: -3, y: -4 }], 1), 25);
    assert_eq!(solve_case(&Vec::new(), 0), 0);
}
