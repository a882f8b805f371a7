//! The order in which paths are discovered, and the list of all shortest
//! paths between two cells in that order.

use crate::walk::{
    connects, inside, is_move, is_shortest_path, lemma_geodesic_to,
    lemma_shortest_paths_are_geodesics, lemma_walk_inside, lemma_walk_symbols, manhattan,
    move_rank,
};
use vstd::prelude::*;

verus! {

/// Whether `p` and `q` hold the same symbols at all places before `n`.
pub open spec fn same_up_to(p: Seq<char>, q: Seq<char>, n: int) -> bool {
    forall|j: int| 0 <= j < n ==> p[j] == q[j]
}

/// The order in which the search discovers paths of one length: at the first
/// place where the two differ, `p` holds the move that is explored earlier.
pub open spec fn explored_before(p: Seq<char>, q: Seq<char>) -> bool {
    exists|i: int|
        {
            &&& 0 <= i < p.len()
            &&& i < q.len()
            &&& #[trigger] same_up_to(p, q, i)
            &&& move_rank(p[i]) < move_rank(q[i])
        }
}

/// Whether `paths` lists the shortest paths from `start` to `end`: every one
/// of them, nothing else, and each once, in the order of their discovery.
pub open spec fn lists_shortest_paths(
    height: int,
    width: int,
    start: (int, int),
    end: (int, int),
    paths: Seq<Seq<char>>,
) -> bool {
    &&& forall|p: Seq<char>|
        #![trigger paths.contains(p)]
        #![trigger is_shortest_path(height, width, start, end, p)]
        paths.contains(p) <==> is_shortest_path(height, width, start, end, p)
    &&& forall|i: int, j: int|
        0 <= i < j < paths.len() ==> explored_before(#[trigger] paths[i], #[trigger] paths[j])
}

/// No path is explored before itself.
pub proof fn lemma_order_irreflexive(p: Seq<char>)
    ensures
        !explored_before(p, p),
{
}

/// The order of discovery is transitive.
pub proof fn lemma_order_transitive(p: Seq<char>, q: Seq<char>, r: Seq<char>)
    requires
        explored_before(p, q),
        explored_before(q, r),
    ensures
        explored_before(p, r),
{
    let i = choose|i: int|
        {
            &&& 0 <= i < p.len()
            &&& i < q.len()
            &&& #[trigger] same_up_to(p, q, i)
            &&& move_rank(p[i]) < move_rank(q[i])
        };
    let j = choose|j: int|
        {
            &&& 0 <= j < q.len()
            &&& j < r.len()
            &&& #[trigger] same_up_to(q, r, j)
            &&& move_rank(q[j]) < move_rank(r[j])
        };
    let k = if i <= j {
        i
    } else {
        j
    };
    assert(same_up_to(p, r, k));
}

/// Of two paths of one length, the order of their extensions by one move is
/// the order of the two.
pub proof fn lemma_order_of_children(p: Seq<char>, q: Seq<char>, a: char, b: char)
    requires
        explored_before(p, q),
    ensures
        explored_before(p.push(a), q.push(b)),
{
    let i = choose|i: int|
        {
            &&& 0 <= i < p.len()
            &&& i < q.len()
            &&& #[trigger] same_up_to(p, q, i)
            &&& move_rank(p[i]) < move_rank(q[i])
        };
    assert(same_up_to(p.push(a), q.push(b), i));
}

/// Two extensions of one path are explored in the order of their last moves.
pub proof fn lemma_order_of_siblings(p: Seq<char>, a: char, b: char)
    requires
        move_rank(a) < move_rank(b),
    ensures
        explored_before(p.push(a), p.push(b)),
{
    assert(same_up_to(p.push(a), p.push(b), p.len() as int));
}

/// Two lists in the order of discovery that hold the same paths are the
/// same list.
pub proof fn lemma_ordered_lists_agree(a: Seq<Seq<char>>, b: Seq<Seq<char>>)
    requires
        forall|i: int, j: int|
            0 <= i < j < a.len() ==> explored_before(#[trigger] a[i], #[trigger] a[j]),
        forall|i: int, j: int|
            0 <= i < j < b.len() ==> explored_before(#[trigger] b[i], #[trigger] b[j]),
        forall|p: Seq<char>| a.contains(p) <==> b.contains(p),
    ensures
        a == b,
    decreases a.len(),
{
    if a.len() == 0 {
        if b.len() > 0 {
            assert(b.contains(b[0]));
        }
        assert(a =~= b);
    } else {
        let x = a.last();
        assert(a.contains(x));
        lemma_order_irreflexive(x);
        let at = choose|j: int| 0 <= j < b.len() && b[j] == x;
        let y = b.last();
        assert(b.contains(y));
        let back = choose|i: int| 0 <= i < a.len() && a[i] == y;
        if at < b.len() - 1 {
            assert(explored_before(b[at], b[b.len() - 1]));
            if back < a.len() - 1 {
                assert(explored_before(a[back], a[a.len() - 1]));
                lemma_order_transitive(x, y, x);
            }
        }
        assert(y == x);
        let shorter_a = a.drop_last();
        let shorter_b = b.drop_last();
        assert forall|p: Seq<char>| shorter_a.contains(p) <==> shorter_b.contains(p) by {
            if shorter_a.contains(p) {
                let i = choose|i: int| 0 <= i < shorter_a.len() && shorter_a[i] == p;
                assert(explored_before(a[i], a[a.len() - 1]));
                assert(a.contains(p));
                let j = choose|j: int| 0 <= j < b.len() && b[j] == p;
                assert(shorter_b[j] == p);
            }
            if shorter_b.contains(p) {
                let j = choose|j: int| 0 <= j < shorter_b.len() && shorter_b[j] == p;
                assert(explored_before(b[j], b[b.len() - 1]));
                assert(b.contains(p));
                let i = choose|i: int| 0 <= i < a.len() && a[i] == p;
                assert(shorter_a[i] == p);
            }
        }
        assert forall|i: int, j: int| 0 <= i < j < shorter_a.len() implies explored_before(
            #[trigger] shorter_a[i],
            #[trigger] shorter_a[j],
        ) by {
            assert(explored_before(a[i], a[j]));
        }
        assert forall|i: int, j: int| 0 <= i < j < shorter_b.len() implies explored_before(
            #[trigger] shorter_b[i],
            #[trigger] shorter_b[j],
        ) by {
            assert(explored_before(b[i], b[j]));
        }
        lemma_ordered_lists_agree(shorter_a, shorter_b);
        assert(a =~= shorter_a.push(x));
        assert(b =~= shorter_b.push(x));
    }
}

/// There is one list of the shortest paths between two cells and no other.
pub proof fn lemma_listing_unique(
    height: int,
    width: int,
    start: (int, int),
    end: (int, int),
    a: Seq<Seq<char>>,
    b: Seq<Seq<char>>,
)
    requires
        lists_shortest_paths(height, width, start, end, a),
        lists_shortest_paths(height, width, start, end, b),
    ensures
        a == b,
{
    assert forall|p: Seq<char>| a.contains(p) <==> b.contains(p) by {
        assert(a.contains(p) <==> is_shortest_path(height, width, start, end, p));
        assert(b.contains(p) <==> is_shortest_path(height, width, start, end, p));
    }
    lemma_ordered_lists_agree(a, b);
}

/// Every path in a list of shortest paths leads from `start` to `end` in as
/// many moves as the Manhattan distance of the two, and holds move symbols
/// only.
pub proof fn lemma_listing_lengths(
    height: int,
    width: int,
    start: (int, int),
    end: (int, int),
    paths: Seq<Seq<char>>,
)
    requires
        lists_shortest_paths(height, width, start, end, paths),
    ensures
        forall|i: int|
            0 <= i < paths.len() ==> {
                &&& connects(height, width, start, end, #[trigger] paths[i])
                &&& paths[i].len() == manhattan(start, end)
            },
        forall|i: int, k: int|
            0 <= i < paths.len() && 0 <= k < paths[i].len() ==> is_move(#[trigger] paths[i][k]),
{
    assert forall|i: int| 0 <= i < paths.len() implies {
        &&& connects(height, width, start, end, #[trigger] paths[i])
        &&& paths[i].len() == manhattan(start, end)
    } by {
        assert(paths.contains(paths[i]));
        lemma_shortest_paths_are_geodesics(height, width, start, end, paths[i]);
    }
    assert forall|i: int, k: int|
        0 <= i < paths.len() && 0 <= k < paths[i].len() implies is_move(#[trigger] paths[i][k]) by {
        lemma_walk_symbols(height, width, start, paths[i]);
    }
}

/// No path stands twice in a list of shortest paths.
pub proof fn lemma_listing_distinct(
    height: int,
    width: int,
    start: (int, int),
    end: (int, int),
    paths: Seq<Seq<char>>,
)
    requires
        lists_shortest_paths(height, width, start, end, paths),
    ensures
        forall|i: int, j: int| 0 <= i < j < paths.len() ==> paths[i] != paths[j],
{
    assert forall|i: int, j: int| 0 <= i < j < paths.len() implies paths[i] != paths[j] by {
        assert(explored_before(paths[i], paths[j]));
        lemma_order_irreflexive(paths[i]);
    }
}

/// From a cell of the grid to itself the list of shortest paths holds the
/// empty path and nothing else.
pub proof fn lemma_listing_to_self(
    height: int,
    width: int,
    start: (int, int),
    paths: Seq<Seq<char>>,
)
    requires
        inside(height, width, start),
        lists_shortest_paths(height, width, start, start, paths),
    ensures
        paths == seq![Seq::<char>::empty()],
{
    let empty = Seq::<char>::empty();
    lemma_shortest_paths_are_geodesics(height, width, start, start, empty);
    assert(paths.contains(empty));
    lemma_listing_lengths(height, width, start, start, paths);
    assert forall|i: int| 0 <= i < paths.len() implies paths[i] == empty by {
        assert(paths[i] =~= empty);
    }
    if paths.len() > 1 {
        assert(explored_before(paths[0], paths[1]));
    }
    assert(paths =~= seq![empty]);
}

/// Between two cells of the grid there is a path: the list of shortest paths
/// is not empty.
pub proof fn lemma_listing_between_cells(
    height: int,
    width: int,
    start: (int, int),
    end: (int, int),
    paths: Seq<Seq<char>>,
)
    requires
        inside(height, width, start),
        inside(height, width, end),
        lists_shortest_paths(height, width, start, end, paths),
    ensures
        paths.len() > 0,
{
    let direct = lemma_geodesic_to(height, width, start, end);
    lemma_shortest_paths_are_geodesics(height, width, start, end, direct);
    assert(paths.contains(direct));
}

/// Where `start` or `end` is no cell of the grid, there is no path between
/// them: the empty list, and no other, lists the shortest paths.
pub proof fn lemma_listing_outside(
    height: int,
    width: int,
    start: (int, int),
    end: (int, int),
    paths: Seq<Seq<char>>,
)
    requires
        !inside(height, width, start) || !inside(height, width, end),
    ensures
        lists_shortest_paths(height, width, start, end, paths) <==> paths.len() == 0,
{
    assert forall|p: Seq<char>| !is_shortest_path(height, width, start, end, p) by {
        if connects(height, width, start, end, p) {
            lemma_walk_inside(height, width, start, p);
        }
    }
    if paths.len() > 0 {
        assert(paths.contains(paths[0]));
    }
}

} // verus!
