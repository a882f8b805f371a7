use grid_paths::bfs_shortest_paths;
use grid_paths::grid::grid_width;
use grid_paths::grid::has_equal_rows;
use grid_paths::locate;

fn strings(paths: &[&str]) -> Vec<String> {
    paths.iter().map(|p| p.to_string()).collect()
}

#[test]
fn locate_finds_the_cell_of_a_label() {
    let grid = vec![vec![1, 2, 3], vec![4, 5, 6], vec![7, 8, 9]];
    assert_eq!(locate(&grid, 1), Some((0, 0)));
    assert_eq!(locate(&grid, 6), Some((1, 2)));
    assert_eq!(locate(&grid, 7), Some((2, 0)));
    assert_eq!(locate(&grid, 9), Some((2, 2)));
}

#[test]
fn locate_reports_an_absent_label() {
    let grid = vec![vec![1, 2, 3], vec![4, 5, 6], vec![7, 8, 9]];
    assert_eq!(locate(&grid, 10), None);
    assert_eq!(locate(&grid, 0), None);
    assert_eq!(locate(&grid, -1), None);
    let empty: Vec<Vec<i32>> = vec![];
    assert_eq!(locate(&empty, 1), None);
    let hollow: Vec<Vec<i32>> = vec![vec![], vec![]];
    assert_eq!(locate(&hollow, 1), None);
}

#[test]
fn locate_takes_the_first_cell_in_row_major_order() {
    let grid = vec![vec![5, 1, 1], vec![1, 5, 1], vec![2, 2, 5]];
    assert_eq!(locate(&grid, 1), Some((0, 1)));
    assert_eq!(locate(&grid, 5), Some((0, 0)));
    assert_eq!(locate(&grid, 2), Some((2, 0)));
    // A cell in an earlier row comes first, whatever its column.
    let grid = vec![vec![0, 0, 4], vec![4, 0, 0]];
    assert_eq!(locate(&grid, 4), Some((0, 2)));
}

#[test]
fn locate_reads_rows_of_any_length() {
    let grid = vec![vec![1], vec![2, 3, 4], vec![], vec![5, 6]];
    assert_eq!(locate(&grid, 4), Some((1, 2)));
    assert_eq!(locate(&grid, 6), Some((3, 1)));
    assert_eq!(locate(&grid, 7), None);
}

#[test]
fn search_between_positions() {
    let grid = vec![vec![1, 2, 3], vec![4, 5, 6], vec![7, 8, 9]];
    assert_eq!(
        bfs_shortest_paths(&grid, (0, 0), (1, 1)),
        strings(&[">v", "v>"])
    );
    assert_eq!(
        bfs_shortest_paths(&grid, (2, 2), (1, 0)),
        strings(&["<<^", "<^<", "^<<"])
    );
    assert_eq!(bfs_shortest_paths(&grid, (0, 2), (2, 2)), strings(&["vv"]));
    assert_eq!(bfs_shortest_paths(&grid, (1, 1), (1, 1)), vec![String::new()]);
}

#[test]
fn search_does_not_read_the_labels() {
    let grid = vec![vec![0, 0, 0], vec![0, 0, 0]];
    assert_eq!(
        bfs_shortest_paths(&grid, (0, 0), (1, 2)),
        strings(&[">>v", ">v>", "v>>"])
    );
}

#[test]
fn search_from_or_to_a_position_outside_gives_nothing() {
    let grid = vec![vec![1, 2, 3], vec![4, 5, 6]];
    assert!(bfs_shortest_paths(&grid, (0, 0), (2, 0)).is_empty());
    assert!(bfs_shortest_paths(&grid, (0, 0), (0, 3)).is_empty());
    assert!(bfs_shortest_paths(&grid, (2, 1), (0, 0)).is_empty());
    assert!(bfs_shortest_paths(&grid, (0, 3), (0, 0)).is_empty());
    assert!(bfs_shortest_paths(&grid, (5, 5), (5, 5)).is_empty());
    assert!(bfs_shortest_paths(&grid, (usize::MAX, 0), (0, 0)).is_empty());
    assert!(bfs_shortest_paths(&grid, (0, 0), (0, usize::MAX)).is_empty());
}

#[test]
fn search_on_a_grid_without_cells_gives_nothing() {
    let empty: Vec<Vec<i32>> = vec![];
    assert!(bfs_shortest_paths(&empty, (0, 0), (0, 0)).is_empty());
    let hollow: Vec<Vec<i32>> = vec![vec![], vec![]];
    assert!(bfs_shortest_paths(&hollow, (0, 0), (1, 0)).is_empty());
}

#[test]
fn search_takes_the_width_of_the_first_row() {
    let grid = vec![vec![1, 2, 3], vec![4], vec![5, 6, 7, 8]];
    assert_eq!(
        bfs_shortest_paths(&grid, (0, 0), (2, 2)).len(),
        6
    );
    assert!(bfs_shortest_paths(&grid, (0, 0), (2, 3)).is_empty());
}

#[test]
fn search_on_a_larger_grid() {
    let grid: Vec<Vec<i32>> = (0..6).map(|r| (0..6).map(|c| r * 6 + c).collect()).collect();
    let paths = bfs_shortest_paths(&grid, (0, 0), (5, 5));
    // Five moves right among ten moves.
    assert_eq!(paths.len(), 252);
    let mut distinct = paths.clone();
    distinct.sort();
    distinct.dedup();
    assert_eq!(distinct.len(), 252);
    for path in &paths {
        assert_eq!(path.len(), 10);
    }
}

#[test]
fn width_is_the_length_of_the_first_row() {
    assert_eq!(grid_width(&vec![vec![1, 2, 3], vec![4, 5, 6]]), 3);
    assert_eq!(grid_width(&vec![vec![1], vec![2, 3]]), 1);
    assert_eq!(grid_width(&vec![vec![], vec![2, 3]]), 0);
    let empty: Vec<Vec<i32>> = vec![];
    assert_eq!(grid_width(&empty), 0);
}

#[test]
fn rows_of_equal_length_are_recognised() {
    assert!(has_equal_rows(&vec![vec![1, 2, 3], vec![4, 5, 6]]));
    assert!(has_equal_rows(&vec![vec![1]]));
    assert!(has_equal_rows(&vec![vec![], vec![]]));
    let empty: Vec<Vec<i32>> = vec![];
    assert!(has_equal_rows(&empty));
    assert!(!has_equal_rows(&vec![vec![1, 2, 3], vec![4, 5]]));
    assert!(!has_equal_rows(&vec![vec![1], vec![2, 3]]));
    assert!(!has_equal_rows(&vec![vec![], vec![2]]));
    assert!(!has_equal_rows(&vec![vec![1, 2], vec![3, 4], vec![5]]));
}
