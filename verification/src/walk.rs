//! Moves, walks on the grid plane, and what makes a walk a shortest path.

use vstd::prelude::*;

verus! {

/// Whether `c` is one of the four move symbols.
pub open spec fn is_move(c: char) -> bool {
    c == '>' || c == 'v' || c == '<' || c == '^'
}

/// The place of a move in the exploration order: right, down, left, up.
pub open spec fn move_rank(c: char) -> int {
    if c == '>' {
        0
    } else if c == 'v' {
        1
    } else if c == '<' {
        2
    } else {
        3
    }
}

/// The move that stands at `rank` in the exploration order.
pub open spec fn move_at(rank: int) -> char {
    if rank == 0 {
        '>'
    } else if rank == 1 {
        'v'
    } else if rank == 2 {
        '<'
    } else {
        '^'
    }
}

/// The cell reached from `pos`, a (row, column) pair, by the move `c`.
/// A symbol that is no move leaves the cell unchanged.
pub open spec fn step(pos: (int, int), c: char) -> (int, int) {
    if c == '>' {
        (pos.0, pos.1 + 1)
    } else if c == 'v' {
        (pos.0 + 1, pos.1)
    } else if c == '<' {
        (pos.0, pos.1 - 1)
    } else if c == '^' {
        (pos.0 - 1, pos.1)
    } else {
        pos
    }
}

/// Whether `pos` is a cell of the grid of `height` rows and `width` columns.
pub open spec fn inside(height: int, width: int, pos: (int, int)) -> bool {
    0 <= pos.0 < height && 0 <= pos.1 < width
}

/// The cell at which `path` ends when it is walked from `start`.
pub open spec fn walk_end(start: (int, int), path: Seq<char>) -> (int, int)
    decreases path.len(),
{
    if path.len() == 0 {
        start
    } else {
        step(walk_end(start, path.drop_last()), path.last())
    }
}

/// Whether `path` is a walk from `start` on the grid: it holds move symbols
/// only, and `start` and every cell reached after a move lie inside the grid.
pub open spec fn is_walk(height: int, width: int, start: (int, int), path: Seq<char>) -> bool
    decreases path.len(),
{
    if path.len() == 0 {
        inside(height, width, start)
    } else {
        &&& is_walk(height, width, start, path.drop_last())
        &&& is_move(path.last())
        &&& inside(height, width, walk_end(start, path))
    }
}

/// Whether `path` is a walk on the grid that leads from `start` to `end`.
pub open spec fn connects(
    height: int,
    width: int,
    start: (int, int),
    end: (int, int),
    path: Seq<char>,
) -> bool {
    is_walk(height, width, start, path) && walk_end(start, path) == end
}

/// Whether `path` leads from `start` to `end` and no walk between the two is
/// shorter.
pub open spec fn is_shortest_path(
    height: int,
    width: int,
    start: (int, int),
    end: (int, int),
    path: Seq<char>,
) -> bool {
    &&& connects(height, width, start, end, path)
    &&& forall|other: Seq<char>| #[trigger]
        connects(height, width, start, end, other) ==> path.len() <= other.len()
}

/// The distance between two numbers.
pub open spec fn gap(a: int, b: int) -> nat {
    if a <= b {
        (b - a) as nat
    } else {
        (a - b) as nat
    }
}

/// The Manhattan distance between two cells.
pub open spec fn manhattan(a: (int, int), b: (int, int)) -> nat {
    gap(a.0, b.0) + gap(a.1, b.1)
}

/// A walk that covers the Manhattan distance from `start` to its last cell
/// in as many moves.
pub open spec fn is_geodesic(height: int, width: int, start: (int, int), path: Seq<char>) -> bool {
    &&& is_walk(height, width, start, path)
    &&& manhattan(start, walk_end(start, path)) == path.len()
}

/// Walking one more move: where the longer walk ends, and when it is a walk.
pub proof fn lemma_walk_push(height: int, width: int, start: (int, int), path: Seq<char>, c: char)
    ensures
        walk_end(start, path.push(c)) == step(walk_end(start, path), c),
        is_walk(height, width, start, path.push(c)) <==> {
            &&& is_walk(height, width, start, path)
            &&& is_move(c)
            &&& inside(height, width, step(walk_end(start, path), c))
        },
{
    assert(path.push(c).drop_last() =~= path);
}

/// A walk starts and ends inside the grid.
pub proof fn lemma_walk_inside(height: int, width: int, start: (int, int), path: Seq<char>)
    requires
        is_walk(height, width, start, path),
    ensures
        inside(height, width, start),
        inside(height, width, walk_end(start, path)),
    decreases path.len(),
{
    if path.len() > 0 {
        lemma_walk_inside(height, width, start, path.drop_last());
    }
}

/// A walk holds move symbols only.
pub proof fn lemma_walk_symbols(height: int, width: int, start: (int, int), path: Seq<char>)
    requires
        is_walk(height, width, start, path),
    ensures
        forall|k: int| 0 <= k < path.len() ==> is_move(#[trigger] path[k]),
    decreases path.len(),
{
    if path.len() > 0 {
        lemma_walk_symbols(height, width, start, path.drop_last());
        assert forall|k: int| 0 <= k < path.len() implies is_move(#[trigger] path[k]) by {
            if k < path.len() - 1 {
                assert(path[k] == path.drop_last()[k]);
            }
        }
    }
}

/// One move changes the Manhattan distance to any cell by exactly one.
pub proof fn lemma_step_changes_distance(from: (int, int), pos: (int, int), c: char)
    requires
        is_move(c),
    ensures
        manhattan(from, step(pos, c)) == manhattan(from, pos) + 1 || manhattan(from, step(pos, c))
            + 1 == manhattan(from, pos),
{
}

/// No walk is shorter than the Manhattan distance that it covers.
pub proof fn lemma_walk_covers_distance(
    height: int,
    width: int,
    start: (int, int),
    path: Seq<char>,
)
    requires
        is_walk(height, width, start, path),
    ensures
        manhattan(start, walk_end(start, path)) <= path.len(),
    decreases path.len(),
{
    if path.len() > 0 {
        lemma_walk_covers_distance(height, width, start, path.drop_last());
        lemma_step_changes_distance(start, walk_end(start, path.drop_last()), path.last());
    }
}

/// A geodesic without its last move is a geodesic.
pub proof fn lemma_geodesic_parent(height: int, width: int, start: (int, int), path: Seq<char>)
    requires
        is_geodesic(height, width, start, path),
        path.len() > 0,
    ensures
        is_geodesic(height, width, start, path.drop_last()),
        is_move(path.last()),
        path == path.drop_last().push(path.last()),
{
    lemma_walk_covers_distance(height, width, start, path.drop_last());
    lemma_step_changes_distance(start, walk_end(start, path.drop_last()), path.last());
}

/// A geodesic has a geodesic of every smaller length: the result is the
/// part of `path` made of its first `len` moves.
pub proof fn lemma_geodesic_prefix(
    height: int,
    width: int,
    start: (int, int),
    path: Seq<char>,
    len: nat,
) -> (prefix: Seq<char>)
    requires
        is_geodesic(height, width, start, path),
        len <= path.len(),
    ensures
        is_geodesic(height, width, start, prefix),
        prefix.len() == len,
    decreases path.len(),
{
    if path.len() == len {
        path
    } else {
        lemma_geodesic_parent(height, width, start, path);
        lemma_geodesic_prefix(height, width, start, path.drop_last(), len)
    }
}

/// Between any two cells of the grid there is a geodesic: the result leads
/// from `start` to `target` in as many moves as their Manhattan distance.
pub proof fn lemma_geodesic_to(
    height: int,
    width: int,
    start: (int, int),
    target: (int, int),
) -> (path: Seq<char>)
    requires
        inside(height, width, start),
        inside(height, width, target),
    ensures
        is_geodesic(height, width, start, path),
        walk_end(start, path) == target,
    decreases manhattan(start, target),
{
    if target == start {
        Seq::empty()
    } else {
        let (before, c) = if target.1 > start.1 {
            ((target.0, target.1 - 1), '>')
        } else if target.1 < start.1 {
            ((target.0, target.1 + 1), '<')
        } else if target.0 > start.0 {
            ((target.0 - 1, target.1), 'v')
        } else {
            ((target.0 + 1, target.1), '^')
        };
        let shorter = lemma_geodesic_to(height, width, start, before);
        lemma_walk_push(height, width, start, shorter, c);
        shorter.push(c)
    }
}

/// The shortest paths between two cells are the walks between them whose
/// length is the Manhattan distance of the two.
pub proof fn lemma_shortest_paths_are_geodesics(
    height: int,
    width: int,
    start: (int, int),
    end: (int, int),
    path: Seq<char>,
)
    ensures
        is_shortest_path(height, width, start, end, path) <==> {
            &&& connects(height, width, start, end, path)
            &&& path.len() == manhattan(start, end)
        },
{
    if connects(height, width, start, end, path) {
        lemma_walk_inside(height, width, start, path);
        lemma_walk_covers_distance(height, width, start, path);
        if path.len() == manhattan(start, end) {
            assert forall|other: Seq<char>| #[trigger]
                connects(height, width, start, end, other) implies path.len() <= other.len() by {
                lemma_walk_covers_distance(height, width, start, other);
            }
        } else {
            let direct = lemma_geodesic_to(height, width, start, end);
            assert(connects(height, width, start, end, direct));
        }
    }
}

} // verus!
