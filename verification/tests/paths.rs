use grid_paths::find_all_shortest_paths;

fn three_by_three() -> Vec<Vec<i32>> {
    vec![vec![1, 2, 3], vec![4, 5, 6], vec![7, 8, 9]]
}

fn four_by_four() -> Vec<Vec<i32>> {
    vec![
        vec![1, 2, 3, 4],
        vec![5, 6, 7, 8],
        vec![9, 10, 11, 12],
        vec![13, 14, 15, 16],
    ]
}

fn sorted(mut paths: Vec<String>) -> Vec<String> {
    paths.sort();
    paths
}

fn strings(paths: &[&str]) -> Vec<String> {
    paths.iter().map(|p| p.to_string()).collect()
}

/// Walks `path` from `start` and returns the cell at which it ends.
fn walk(start: (i64, i64), path: &str) -> (i64, i64) {
    let mut pos = start;
    for c in path.chars() {
        pos = match c {
            '>' => (pos.0, pos.1 + 1),
            'v' => (pos.0 + 1, pos.1),
            '<' => (pos.0, pos.1 - 1),
            '^' => (pos.0 - 1, pos.1),
            other => panic!("no move: {:?}", other),
        };
    }
    pos
}

#[test]
fn test_find_shortest_paths() {
    let grid = vec![vec![1, 2, 3], vec![4, 5, 6], vec![7, 8, 9]];

    // From 1 to 9: two moves right and two moves down, in any order.
    let paths = find_all_shortest_paths(&grid, 1, 9);
    println!("Paths: {:?}", paths);
    assert_eq!(paths.len(), 6);

    // Every path has four moves.
    assert_eq!(paths[0].len(), 4);
    assert_eq!(paths[1].len(), 4);

    assert!(paths.contains(&String::from(">>vv")) || paths.contains(&String::from("vv>>")));

    // From 1 to 5.
    let paths = find_all_shortest_paths(&grid, 1, 5);
    println!("Paths: {:?}", paths);
    assert_eq!(paths.len(), 2);
    assert!(paths.contains(&String::from(">v")) || paths.contains(&String::from("v>")));

    // A label that the grid does not hold.
    let paths = find_all_shortest_paths(&grid, 1, 10);
    assert_eq!(paths.len(), 0);
}

#[test]
fn test_complex_paths() {
    let grid = vec![
        vec![1, 2, 3, 4],
        vec![5, 6, 7, 8],
        vec![9, 10, 11, 12],
        vec![13, 14, 15, 16],
    ];

    let paths = find_all_shortest_paths(&grid, 1, 16);

    // There are several paths, all of length 6.
    assert!(!paths.is_empty());
    for path in &paths {
        assert_eq!(path.len(), 6);

        for c in path.chars() {
            assert!(c == '>' || c == 'v' || c == '<' || c == '^');
        }
    }

    let simple_grid = vec![vec![1, 2], vec![3, 4]];

    let paths = find_all_shortest_paths(&simple_grid, 1, 4);
    assert_eq!(paths.len(), 2);
    assert!(paths.contains(&String::from(">v")) || paths.contains(&String::from("v>")));
}

#[test]
fn corner_to_corner_in_order_of_discovery() {
    let paths = find_all_shortest_paths(&three_by_three(), 1, 9);
    assert_eq!(
        paths,
        strings(&[">>vv", ">v>v", ">vv>", "v>>v", "v>v>", "vv>>"])
    );
}

#[test]
fn corner_to_corner_holds_both_border_paths() {
    let paths = find_all_shortest_paths(&three_by_three(), 1, 9);
    assert!(paths.contains(&String::from(">>vv")));
    assert!(paths.contains(&String::from("vv>>")));
    for path in &paths {
        assert_eq!(path.len(), 4);
    }
}

#[test]
fn corner_to_centre_has_two_paths() {
    let paths = find_all_shortest_paths(&three_by_three(), 1, 5);
    assert_eq!(paths.len(), 2);
    for path in &paths {
        assert_eq!(path.len(), 2);
    }
    assert_eq!(sorted(paths), sorted(strings(&[">v", "v>"])));
}

#[test]
fn absent_end_label_gives_nothing() {
    let paths = find_all_shortest_paths(&three_by_three(), 1, 10);
    assert!(paths.is_empty());
}

#[test]
fn absent_start_label_gives_nothing() {
    let paths = find_all_shortest_paths(&three_by_three(), 0, 9);
    assert!(paths.is_empty());
}

#[test]
fn both_labels_absent_gives_nothing() {
    let paths = find_all_shortest_paths(&three_by_three(), 11, 12);
    assert!(paths.is_empty());
}

#[test]
fn two_by_two_has_two_paths() {
    let grid = vec![vec![1, 2], vec![3, 4]];
    let paths = find_all_shortest_paths(&grid, 1, 4);
    assert_eq!(paths.len(), 2);
    assert_eq!(sorted(paths), sorted(strings(&[">v", "v>"])));
}

#[test]
fn four_by_four_corner_to_corner() {
    let paths = find_all_shortest_paths(&four_by_four(), 1, 16);
    // Three moves right among six moves: twenty paths.
    assert_eq!(paths.len(), 20);
    for path in &paths {
        assert_eq!(path.len(), 6);
        assert!(path.chars().all(|c| "<>^v".contains(c)));
        assert_eq!(path.chars().filter(|&c| c == '>').count(), 3);
        assert_eq!(path.chars().filter(|&c| c == 'v').count(), 3);
    }
    assert_eq!(paths[0], ">>>vvv");
    assert_eq!(paths[19], "vvv>>>");
}

#[test]
fn same_label_gives_the_empty_path() {
    let paths = find_all_shortest_paths(&three_by_three(), 5, 5);
    assert_eq!(paths, vec![String::new()]);
    let paths = find_all_shortest_paths(&vec![vec![7]], 7, 7);
    assert_eq!(paths, vec![String::new()]);
}

#[test]
fn same_absent_label_gives_nothing() {
    let paths = find_all_shortest_paths(&three_by_three(), 10, 10);
    assert!(paths.is_empty());
}

#[test]
fn no_path_stands_twice() {
    let grid = four_by_four();
    for (start, end) in [(1, 16), (16, 1), (4, 13), (6, 11), (2, 15), (5, 8)] {
        let paths = find_all_shortest_paths(&grid, start, end);
        let mut distinct = sorted(paths.clone());
        distinct.dedup();
        assert_eq!(distinct.len(), paths.len());
    }
}

#[test]
fn every_path_covers_the_manhattan_distance_and_arrives() {
    let grid = four_by_four();
    for start in 1..=16i64 {
        for end in 1..=16i64 {
            let from = ((start - 1) / 4, (start - 1) % 4);
            let to = ((end - 1) / 4, (end - 1) % 4);
            let distance = (from.0 - to.0).abs() + (from.1 - to.1).abs();
            let paths = find_all_shortest_paths(&grid, start as i32, end as i32);
            assert!(!paths.is_empty());
            for path in &paths {
                assert_eq!(path.len() as i64, distance);
                assert_eq!(walk(from, path), to);
            }
        }
    }
}

#[test]
fn paths_are_counted_by_the_binomial() {
    let grid = four_by_four();
    // From 2 to 12: two moves right and two moves down.
    assert_eq!(find_all_shortest_paths(&grid, 2, 12).len(), 6);
    // From 1 to 8: three moves right and one move down.
    assert_eq!(find_all_shortest_paths(&grid, 1, 8).len(), 4);
    // From 1 to 4: one straight line.
    assert_eq!(find_all_shortest_paths(&grid, 1, 4), strings(&[">>>"]));
    // From 13 to 1: one straight line upwards.
    assert_eq!(find_all_shortest_paths(&grid, 13, 1), strings(&["^^^"]));
}

#[test]
fn back_to_the_first_corner_goes_left_and_up() {
    let paths = find_all_shortest_paths(&three_by_three(), 9, 1);
    assert_eq!(
        paths,
        strings(&["<<^^", "<^<^", "<^^<", "^<<^", "^<^<", "^^<<"])
    );
}

#[test]
fn down_is_explored_before_left() {
    let paths = find_all_shortest_paths(&three_by_three(), 3, 7);
    assert_eq!(
        paths,
        strings(&["vv<<", "v<v<", "v<<v", "<vv<", "<v<v", "<<vv"])
    );
}

#[test]
fn right_is_explored_before_up() {
    let paths = find_all_shortest_paths(&three_by_three(), 7, 3);
    assert_eq!(
        paths,
        strings(&[">>^^", ">^>^", ">^^>", "^>>^", "^>^>", "^^>>"])
    );
}

#[test]
fn neighbours_are_one_move_apart() {
    let grid = three_by_three();
    assert_eq!(find_all_shortest_paths(&grid, 5, 6), strings(&[">"]));
    assert_eq!(find_all_shortest_paths(&grid, 5, 8), strings(&["v"]));
    assert_eq!(find_all_shortest_paths(&grid, 5, 4), strings(&["<"]));
    assert_eq!(find_all_shortest_paths(&grid, 5, 2), strings(&["^"]));
}

#[test]
fn single_row_and_single_column() {
    let row = vec![vec![10, 20, 30, 40]];
    assert_eq!(find_all_shortest_paths(&row, 10, 40), strings(&[">>>"]));
    assert_eq!(find_all_shortest_paths(&row, 30, 10), strings(&["<<"]));
    let column = vec![vec![10], vec![20], vec![30]];
    assert_eq!(find_all_shortest_paths(&column, 10, 30), strings(&["vv"]));
    assert_eq!(find_all_shortest_paths(&column, 30, 20), strings(&["^"]));
}

#[test]
fn empty_grid_gives_nothing() {
    let grid: Vec<Vec<i32>> = vec![];
    assert!(find_all_shortest_paths(&grid, 1, 2).is_empty());
    assert!(find_all_shortest_paths(&grid, 0, 0).is_empty());
}

#[test]
fn rows_without_cells_give_nothing() {
    let grid: Vec<Vec<i32>> = vec![vec![], vec![]];
    assert!(find_all_shortest_paths(&grid, 1, 2).is_empty());
    assert!(find_all_shortest_paths(&grid, 1, 1).is_empty());
}

#[test]
fn rows_of_unequal_length_are_not_searched() {
    let grid = vec![vec![1, 2, 3], vec![4, 5]];
    assert!(find_all_shortest_paths(&grid, 1, 5).is_empty());
    assert!(find_all_shortest_paths(&grid, 1, 1).is_empty());
    let grid = vec![vec![1, 2], vec![3, 4, 5]];
    assert!(find_all_shortest_paths(&grid, 1, 4).is_empty());
}

#[test]
fn a_repeated_label_means_its_first_cell() {
    // 2 stands at (0, 1) and at (1, 0): the first in row-major order counts.
    let grid = vec![vec![1, 2], vec![2, 3]];
    assert_eq!(find_all_shortest_paths(&grid, 1, 2), strings(&[">"]));
    assert_eq!(find_all_shortest_paths(&grid, 2, 3), strings(&["v"]));
    // 7 stands in the first and in the last cell.
    let grid = vec![vec![7, 1], vec![2, 7]];
    assert_eq!(find_all_shortest_paths(&grid, 7, 7), vec![String::new()]);
    assert_eq!(find_all_shortest_paths(&grid, 2, 7), strings(&["^"]));
}

#[test]
fn labels_may_be_any_integers() {
    let grid = vec![vec![-1, 0], vec![i32::MIN, i32::MAX]];
    assert_eq!(
        find_all_shortest_paths(&grid, -1, i32::MAX),
        strings(&[">v", "v>"])
    );
    assert_eq!(
        find_all_shortest_paths(&grid, i32::MAX, 0),
        strings(&["^"])
    );
    assert_eq!(
        find_all_shortest_paths(&grid, 0, i32::MIN),
        strings(&["v<", "<v"])
    );
}

#[test]
fn wide_grid_far_corners() {
    let cols = 9;
    let grid: Vec<Vec<i32>> = (0..3)
        .map(|r| (0..cols).map(|c| r * cols + c).collect())
        .collect();
    let paths = find_all_shortest_paths(&grid, 0, 3 * cols - 1);
    // Two moves down among ten moves.
    assert_eq!(paths.len(), 45);
    for path in &paths {
        assert_eq!(path.len(), 10);
    }
    assert_eq!(paths[0], ">>>>>>>>vv");
    assert_eq!(paths[44], "vv>>>>>>>>");
}
