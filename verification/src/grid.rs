//! The grid of labels and the lookup of a label's cell.

use vstd::prelude::*;

verus! {

/// The number of columns of a grid: the length of its first row, and zero
/// where it has no row.
pub open spec fn width(grid: Seq<Seq<i32>>) -> nat {
    if grid.len() > 0 {
        grid[0].len()
    } else {
        0
    }
}

/// Whether all rows of the grid have the same length.
pub open spec fn is_rectangular(grid: Seq<Seq<i32>>) -> bool {
    forall|r: int| 0 <= r < grid.len() ==> (#[trigger] grid[r]).len() == width(grid)
}

/// Whether the grid has a cell at `pos`, a (row, column) pair, with `label`
/// in it.
pub open spec fn holds_label(grid: Seq<Seq<i32>>, pos: (int, int), label: i32) -> bool {
    &&& 0 <= pos.0 < grid.len()
    &&& 0 <= pos.1 < grid[pos.0].len()
    &&& grid[pos.0][pos.1] == label
}

/// Whether some cell of the grid holds `label`.
pub open spec fn has_label(grid: Seq<Seq<i32>>, label: i32) -> bool {
    exists|pos: (int, int)| holds_label(grid, pos, label)
}

/// Row-major order: `a` lies in an earlier row than `b`, or earlier in the
/// same row.
pub open spec fn comes_before(a: (int, int), b: (int, int)) -> bool {
    a.0 < b.0 || (a.0 == b.0 && a.1 < b.1)
}

/// Whether `pos` is the first cell in row-major order that holds `label`.
pub open spec fn is_first_with_label(grid: Seq<Seq<i32>>, pos: (int, int), label: i32) -> bool {
    &&& holds_label(grid, pos, label)
    &&& forall|other: (int, int)| #[trigger]
        holds_label(grid, other, label) ==> !comes_before(other, pos)
}

/// The first cell in row-major order that holds `label`, where the grid has
/// the label.
pub open spec fn first_with_label(grid: Seq<Seq<i32>>, label: i32) -> (int, int) {
    choose|pos: (int, int)| is_first_with_label(grid, pos, label)
}

/// Whether a search can run: the grid is rectangular and holds both labels.
pub open spec fn is_searchable(grid: Seq<Seq<i32>>, start_label: i32, end_label: i32) -> bool {
    &&& is_rectangular(grid)
    &&& has_label(grid, start_label)
    &&& has_label(grid, end_label)
}

/// A position as a cell of the plane.
pub open spec fn cell(pos: (usize, usize)) -> (int, int) {
    (pos.0 as int, pos.1 as int)
}

/// The labels of a grid, row by row, are the contents of its vectors.
pub proof fn lemma_grid_view(grid: &Vec<Vec<i32>>)
    ensures
        grid.deep_view().len() == grid.len(),
        forall|r: int| 0 <= r < grid.len() ==> #[trigger] grid.deep_view()[r] == grid[r]@,
{
    assert forall|r: int| 0 <= r < grid.len() implies #[trigger] grid.deep_view()[r]
        == grid[r]@ by {
        assert(grid[r].deep_view() =~= grid[r]@);
    }
}

/// Among the cells that hold a label, one comes first: the result is the
/// first cell with `label`, and it does not come after `pos`.
pub proof fn lemma_first_before(
    grid: Seq<Seq<i32>>,
    pos: (int, int),
    label: i32,
) -> (first: (int, int))
    requires
        holds_label(grid, pos, label),
    ensures
        is_first_with_label(grid, first, label),
        !comes_before(pos, first),
    decreases pos.0, pos.1,
{
    if exists|other: (int, int)| holds_label(grid, other, label) && comes_before(other, pos) {
        let other = choose|other: (int, int)|
            holds_label(grid, other, label) && comes_before(other, pos);
        lemma_first_before(grid, other, label)
    } else {
        pos
    }
}

/// A grid that holds a label has a first cell with it.
pub proof fn lemma_first_exists(grid: Seq<Seq<i32>>, label: i32)
    requires
        has_label(grid, label),
    ensures
        is_first_with_label(grid, first_with_label(grid, label), label),
{
    let pos = choose|pos: (int, int)| holds_label(grid, pos, label);
    let first = lemma_first_before(grid, pos, label);
}

/// Only one cell is the first to hold a label.
pub proof fn lemma_first_is_unique(grid: Seq<Seq<i32>>, a: (int, int), b: (int, int), label: i32)
    requires
        is_first_with_label(grid, a, label),
        is_first_with_label(grid, b, label),
    ensures
        a == b,
        first_with_label(grid, label) == a,
{
    assert(holds_label(grid, a, label) && holds_label(grid, b, label));
}

/// The only cell that holds a label is the first to hold it.
pub proof fn lemma_only_is_first(grid: Seq<Seq<i32>>, pos: (int, int), label: i32)
    requires
        holds_label(grid, pos, label),
        forall|other: (int, int)| #[trigger] holds_label(grid, other, label) ==> other == pos,
    ensures
        first_with_label(grid, label) == pos,
{
    lemma_first_is_unique(grid, pos, pos, label);
}

/// In a rectangular grid every cell that holds a label lies inside the
/// rectangle of the grid's rows and columns.
pub proof fn lemma_label_inside(grid: Seq<Seq<i32>>, pos: (int, int), label: i32)
    requires
        is_rectangular(grid),
        holds_label(grid, pos, label),
    ensures
        0 <= pos.0 < grid.len(),
        0 <= pos.1 < width(grid),
{
}

/// The number of columns of the grid.
pub fn grid_width(grid: &Vec<Vec<i32>>) -> (cols: usize)
    ensures
        cols == width(grid.deep_view()),
{
    proof {
        lemma_grid_view(grid);
    }
    if grid.len() > 0 {
        grid[0].len()
    } else {
        0
    }
}

/// Tells whether all rows of the grid have the same length.
pub fn has_equal_rows(grid: &Vec<Vec<i32>>) -> (ok: bool)
    ensures
        ok == is_rectangular(grid.deep_view()),
{
    let cols = grid_width(grid);
    proof {
        lemma_grid_view(grid);
    }
    let mut row: usize = 0;
    while row < grid.len()
        invariant
            row <= grid.len(),
            cols == width(grid.deep_view()),
            grid.deep_view().len() == grid.len(),
            forall|r: int| 0 <= r < grid.len() ==> #[trigger] grid.deep_view()[r] == grid[r]@,
            forall|r: int| 0 <= r < row ==> (#[trigger] grid.deep_view()[r]).len() == cols,
        decreases grid.len() - row,
    {
        if grid[row].len() != cols {
            assert(grid.deep_view()[row as int].len() != cols);
            return false;
        }
        row += 1;
    }
    true
}

/// Finds the cell of a label: the first one in row-major order that holds
/// it, or `None` where no cell of the grid does. Rows may differ in length.
pub fn locate(grid: &Vec<Vec<i32>>, label: i32) -> (found: Option<(usize, usize)>)
    ensures
        match found {
            Some(pos) => is_first_with_label(grid.deep_view(), cell(pos), label),
            None => !has_label(grid.deep_view(), label),
        },
        found is Some <==> has_label(grid.deep_view(), label),
        found matches Some(pos) ==> cell(pos) == first_with_label(grid.deep_view(), label),
{
    proof {
        lemma_grid_view(grid);
    }
    let mut row: usize = 0;
    while row < grid.len()
        invariant
            row <= grid.len(),
            grid.deep_view().len() == grid.len(),
            forall|r: int| 0 <= r < grid.len() ==> #[trigger] grid.deep_view()[r] == grid[r]@,
            forall|other: (int, int)| #[trigger]
                holds_label(grid.deep_view(), other, label) ==> other.0 >= row,
        decreases grid.len() - row,
    {
        let cells = &grid[row];
        let mut col: usize = 0;
        while col < cells.len()
            invariant
                row < grid.len(),
                col <= cells.len(),
                cells@ == grid[row as int]@,
                grid.deep_view().len() == grid.len(),
                forall|r: int| 0 <= r < grid.len() ==> #[trigger] grid.deep_view()[r] == grid[r]@,
                forall|other: (int, int)| #[trigger]
                    holds_label(grid.deep_view(), other, label) ==> !comes_before(
                        other,
                        (row as int, col as int),
                    ),
            decreases cells.len() - col,
        {
            if cells[col] == label {
                proof {
                    let here = (row as int, col as int);
                    lemma_first_is_unique(grid.deep_view(), here, here, label);
                }
                return Some((row, col));
            }
            col += 1;
        }
        row += 1;
    }
    None
}

} // verus!
