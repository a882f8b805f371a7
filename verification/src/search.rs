//! The breadth-first search for all shortest paths.

use crate::frontier::{
    cell_key, lemma_advance, lemma_exhausted, lemma_front, lemma_initial, lemma_open, lemma_pass,
    lemma_push, lemma_record, lemma_skip, lemma_try, Frontier, ROW_SPAN,
};
use crate::grid::{
    cell, first_with_label, grid_width, has_equal_rows, is_searchable, lemma_label_inside, locate,
    width,
};
use crate::listing::{
    lemma_listing_between_cells, lemma_listing_distinct, lemma_listing_lengths,
    lemma_listing_outside, lemma_listing_to_self, lists_shortest_paths,
};
use crate::walk::{connects, inside, is_move, manhattan, move_at, step, walk_end};
use std::collections::HashMap;
use std::collections::VecDeque;
use vstd::prelude::*;

verus! {

/// An entry of the search queue: a cell, the path that led to it from the
/// start, and the number of moves of that path. The number is kept in
/// `u128`: the distance of two cells is a sum of two differences of `usize`
/// and may not fit into `usize` itself.
struct Entry {
    pos: (usize, usize),
    path: String,
    level: u128,
}

/// Whether the queue holds the paths of the state `f`, each with the cell
/// at which it ends and with its length.
spec fn tracks(queue: Seq<Entry>, f: Frontier) -> bool {
    &&& queue.len() == f.queued.len()
    &&& forall|i: int|
        0 <= i < queue.len() ==> {
            &&& (#[trigger] queue[i]).path@ == f.queued[i]
            &&& cell(queue[i].pos) == walk_end(f.start, f.queued[i])
            &&& queue[i].level == f.queued[i].len()
        }
}

/// The key under which the distance of a cell is recorded.
fn key_of(pos: (usize, usize)) -> (key: u128)
    ensures
        key == cell_key(cell(pos)),
{
    (pos.0 as u128) * ROW_SPAN + (pos.1 as u128)
}

/// The symbol of the move at `rank` in the exploration order: right, down,
/// left, up.
fn move_symbol(rank: usize) -> (symbol: &'static str)
    requires
        rank < 4,
    ensures
        symbol@ == seq![move_at(rank as int)],
{
    proof {
        reveal_strlit(">");
        reveal_strlit("v");
        reveal_strlit("<");
        reveal_strlit("^");
    }
    if rank == 0 {
        ">"
    } else if rank == 1 {
        "v"
    } else if rank == 2 {
        "<"
    } else {
        "^"
    }
}

/// The cell to which the move at `rank` leads from `pos`, or `None` where
/// the move leaves the grid of `rows` rows and `cols` columns.
fn neighbor(
    rows: usize,
    cols: usize,
    pos: (usize, usize),
    rank: usize,
) -> (next: Option<(usize, usize)>)
    requires
        rank < 4,
        pos.0 < rows,
        pos.1 < cols,
    ensures
        match next {
            Some(to) => cell(to) == step(cell(pos), move_at(rank as int)) && inside(
                rows as int,
                cols as int,
                cell(to),
            ),
            None => !inside(rows as int, cols as int, step(cell(pos), move_at(rank as int))),
        },
{
    if rank == 0 {
        if pos.1 + 1 < cols {
            Some((pos.0, pos.1 + 1))
        } else {
            None
        }
    } else if rank == 1 {
        if pos.0 + 1 < rows {
            Some((pos.0 + 1, pos.1))
        } else {
            None
        }
    } else if rank == 2 {
        if pos.1 > 0 {
            Some((pos.0, pos.1 - 1))
        } else {
            None
        }
    } else {
        if pos.0 > 0 {
            Some((pos.0 - 1, pos.1))
        } else {
            None
        }
    }
}

/// Finds all shortest paths from `start` to `end`, two (row, column)
/// positions, on the grid of `grid.len()` rows and as many columns as the
/// first row has. The labels play no part.
///
/// The search goes level by level over a queue of entries. Each entry holds
/// a cell, the path that led to it and the path's length. A move is followed
/// where its cell was not reached before, or was reached at the very
/// distance of the longer path, so that every shortest path is kept, not
/// only the first one to each cell. Paths that reach `end` are collected;
/// entries beyond their length are dropped unexpanded.
///
/// The result holds each shortest path once, in the order of discovery. It
/// is empty where `start` or `end` is no cell of the grid.
pub fn bfs_shortest_paths(
    grid: &Vec<Vec<i32>>,
    start: (usize, usize),
    end: (usize, usize),
) -> (paths: Vec<String>)
    ensures
        lists_shortest_paths(
            grid.len() as int,
            width(grid.deep_view()) as int,
            cell(start),
            cell(end),
            paths.deep_view(),
        ),
        forall|i: int|
            0 <= i < paths.len() ==> (#[trigger] paths[i])@.len() == manhattan(
                cell(start),
                cell(end),
            ),
        forall|i: int, j: int| 0 <= i < j < paths.len() ==> paths[i]@ != paths[j]@,
        forall|i: int, k: int|
            0 <= i < paths.len() && 0 <= k < paths[i]@.len() ==> is_move(#[trigger] paths[i]@[k]),
        paths.len() > 0 <==> {
            &&& inside(grid.len() as int, width(grid.deep_view()) as int, cell(start))
            &&& inside(grid.len() as int, width(grid.deep_view()) as int, cell(end))
        },
{
    let rows = grid.len();
    let cols = grid_width(grid);
    if start.0 >= rows || start.1 >= cols || end.0 >= rows || end.1 >= cols {
        let paths: Vec<String> = Vec::new();
        proof {
            lemma_listing_outside(
                rows as int,
                cols as int,
                cell(start),
                cell(end),
                paths.deep_view(),
            );
        }
        return paths;
    }
    let mut queue: VecDeque<Entry> = VecDeque::new();
    queue.push_back(Entry { pos: start, path: String::new(), level: 0 });

    // The distance at which each cell was first reached, by the cell's key.
    let mut distance: HashMap<u128, u128> = HashMap::new();
    distance.insert(key_of(start), 0);

    let mut shortest_paths: Vec<String> = Vec::new();
    let mut shortest_distance: u128 = u128::MAX;

    let ghost mut f = Frontier::initial(rows as int, cols as int, cell(start), cell(end));
    proof {
        lemma_initial(rows as int, cols as int, cell(start), cell(end));
    }
    while queue.len() > 0
        invariant
            f.inv(),
            f.upto == 4,
            f.height == rows,
            f.width == cols,
            f.start == cell(start),
            f.end == cell(end),
            tracks(queue@, f),
            distance@ == f.seen,
            shortest_paths.deep_view() == f.found,
            shortest_distance == f.best(),
        decreases f.distance() + 1 - f.level, f.split,
    {
        let taken = queue.pop_front();
        proof {
            if f.split == 0 {
                lemma_advance(f);
                f = f.advanced();
            }
            lemma_front(f);
        }
        let Entry { pos, path, level } = taken.unwrap();
        if !shortest_paths.is_empty() && level > shortest_distance {
            // Paths were found, and this one is longer: drop it.
            proof {
                lemma_skip(f);
                f = f.skipped();
            }
        } else if pos.0 == end.0 && pos.1 == end.1 {
            proof {
                lemma_record(f);
            }
            if level < shortest_distance {
                shortest_paths = vec![path];
                shortest_distance = level;
            } else if level == shortest_distance {
                shortest_paths.push(path);
            }
            proof {
                f = f.recorded();
            }
        } else {
            proof {
                lemma_open(f);
                f = f.opened();
            }
            let ghost level_now = f.level;
            let ghost split_now = f.split;
            for rank in 0usize..4
                invariant
                    f.inv(),
                    f.upto == rank,
                    f.height == rows,
                    f.width == cols,
                    f.start == cell(start),
                    f.end == cell(end),
                    f.level == level_now,
                    f.split == split_now,
                    f.last == path@,
                    f.end_of(f.last) == cell(pos),
                    f.level == level,
                    tracks(queue@, f),
                    distance@ == f.seen,
                    shortest_paths.deep_view() == f.found,
                    shortest_distance == f.best(),
            {
                proof {
                    lemma_try(f);
                }
                match neighbor(rows, cols, pos, rank) {
                    Some(new_pos) => {
                        let new_level = level + 1;
                        let key = key_of(new_pos);
                        // Follow the move to a cell that is new, or that was
                        // reached at this very distance before.
                        let follow = match distance.get(&key) {
                            Some(known) => *known == new_level,
                            None => true,
                        };
                        if follow {
                            distance.insert(key, new_level);
                            let mut new_path = path.clone();
                            new_path.append(move_symbol(rank));
                            queue.push_back(
                                Entry { pos: new_pos, path: new_path, level: new_level },
                            );
                            proof {
                                lemma_push(f);
                                assert(path@ + seq![f.next_move()] =~= f.last.push(f.next_move()));
                                f = f.pushed();
                            }
                        } else {
                            proof {
                                lemma_pass(f);
                                f = f.passed();
                            }
                        }
                    },
                    None => {
                        proof {
                            lemma_pass(f);
                            f = f.passed();
                        }
                    },
                }
            }
        }
    }
    proof {
        lemma_exhausted(f);
        lemma_listing_lengths(rows as int, cols as int, cell(start), cell(end), f.found);
        lemma_listing_distinct(rows as int, cols as int, cell(start), cell(end), f.found);
        lemma_listing_between_cells(rows as int, cols as int, cell(start), cell(end), f.found);
        assert forall|i: int| 0 <= i < shortest_paths.len() implies f.found[i]
            == (#[trigger] shortest_paths[i])@ by {}
    }
    shortest_paths
}

/// Finds all shortest paths between the cell that holds `start_number` and
/// the cell that holds `end_number`. A path is a string of moves: `>` one
/// column to the right, `v` one row down, `<` one column to the left, `^`
/// one row up.
///
/// Where a label stands in several cells, its first cell in row-major order
/// is taken. The result is empty where one of the two labels is missing,
/// and also where the rows of the grid differ in length: such a grid is not
/// searched. Where both labels are the same and present, the result is the
/// empty path alone.
pub fn find_all_shortest_paths(
    grid: &Vec<Vec<i32>>,
    start_number: i32,
    end_number: i32,
) -> (paths: Vec<String>)
    ensures
        is_searchable(grid.deep_view(), start_number, end_number) ==> lists_shortest_paths(
            grid.len() as int,
            width(grid.deep_view()) as int,
            first_with_label(grid.deep_view(), start_number),
            first_with_label(grid.deep_view(), end_number),
            paths.deep_view(),
        ),
        !is_searchable(grid.deep_view(), start_number, end_number) <==> paths.len() == 0,
        forall|i: int|
            0 <= i < paths.len() ==> {
                &&& (#[trigger] paths[i])@.len() == manhattan(
                    first_with_label(grid.deep_view(), start_number),
                    first_with_label(grid.deep_view(), end_number),
                )
                &&& connects(
                    grid.len() as int,
                    width(grid.deep_view()) as int,
                    first_with_label(grid.deep_view(), start_number),
                    first_with_label(grid.deep_view(), end_number),
                    paths[i]@,
                )
            },
        forall|i: int, j: int| 0 <= i < j < paths.len() ==> paths[i]@ != paths[j]@,
        forall|i: int, k: int|
            0 <= i < paths.len() && 0 <= k < paths[i]@.len() ==> is_move(#[trigger] paths[i]@[k]),
        is_searchable(grid.deep_view(), start_number, end_number) && start_number == end_number
            ==> paths.len() == 1 && paths[0]@.len() == 0,
{
    if !has_equal_rows(grid) {
        return Vec::new();
    }
    let start_pos = locate(grid, start_number);
    let end_pos = locate(grid, end_number);

    // Without a cell for each label there is nothing to connect.
    if start_pos.is_none() || end_pos.is_none() {
        return Vec::new();
    }
    let start = start_pos.unwrap();
    let end = end_pos.unwrap();
    let paths = bfs_shortest_paths(grid, start, end);
    proof {
        let labels = grid.deep_view();
        let views = paths.deep_view();
        let rows = grid.len() as int;
        let cols = width(labels) as int;
        lemma_label_inside(labels, cell(start), start_number);
        lemma_listing_lengths(rows, cols, cell(start), cell(end), views);
        lemma_listing_distinct(rows, cols, cell(start), cell(end), views);
        assert forall|i: int| 0 <= i < paths.len() implies views[i] == (#[trigger] paths[i])@ by {}
        if start_number == end_number {
            lemma_listing_to_self(rows, cols, cell(start), views);
        }
    }
    paths
}

} // verus!
