//! What the search knows between two of its steps, as a value of the proof,
//! and the lemmas that carry this knowledge from one step to the next.
//!
//! The search works through the paths from the start level by level. At any
//! moment its queue holds the paths of the current level that are still to be
//! taken, followed by the paths of the next level that were reached so far.

use crate::listing::{
    explored_before, lemma_order_irreflexive, lemma_order_of_children, lemma_order_of_siblings,
    lists_shortest_paths,
};
use crate::walk::{
    inside, is_geodesic, is_shortest_path, lemma_geodesic_parent, lemma_geodesic_prefix,
    lemma_geodesic_to, lemma_shortest_paths_are_geodesics, lemma_step_changes_distance,
    lemma_walk_push, manhattan, move_at, move_rank, step, walk_end,
};
use vstd::prelude::*;

verus! {

/// The number of keys set aside for one row of cells.
pub const ROW_SPAN: u128 = 0x1_0000_0000_0000_0000;

/// The key under which the search records a cell: no two cells of a grid
/// with at most `ROW_SPAN` rows and columns share one.
pub open spec fn cell_key(pos: (int, int)) -> u128 {
    (pos.0 * ROW_SPAN + pos.1) as u128
}

/// The state of a search from `start` to `end` on a grid of `height` rows
/// and `width` columns.
pub struct Frontier {
    pub height: int,
    pub width: int,
    pub start: (int, int),
    pub end: (int, int),
    /// The length of the paths that are being taken from the queue.
    pub level: nat,
    /// How many paths at the front of the queue have that length; those
    /// behind them are one move longer.
    pub split: nat,
    /// The paths in the queue, front first.
    pub queued: Seq<Seq<char>>,
    /// The paths of the current level that were taken from the queue.
    pub done: Set<Seq<char>>,
    /// The path that was taken last.
    pub last: Seq<char>,
    /// How many moves were tried on the path taken last.
    pub upto: int,
    /// The recorded distances, by cell key.
    pub seen: Map<u128, u128>,
    /// The paths to `end` collected so far.
    pub found: Seq<Seq<char>>,
}

impl Frontier {
    /// The distance that the search has to cover.
    pub open spec fn distance(self) -> nat {
        manhattan(self.start, self.end)
    }

    /// The recorded best distance: `u128::MAX` until a path was found.
    pub open spec fn best(self) -> u128 {
        if self.found.len() == 0 {
            u128::MAX
        } else {
            self.distance() as u128
        }
    }

    /// Whether `path` is a geodesic from `start` on the grid.
    pub open spec fn geodesic(self, path: Seq<char>) -> bool {
        is_geodesic(self.height, self.width, self.start, path)
    }

    /// The cell at which `path` ends when it is walked from `start`.
    pub open spec fn end_of(self, path: Seq<char>) -> (int, int) {
        walk_end(self.start, path)
    }

    /// Whether `path` stands in the queue at a place from `lo` up to `hi`.
    pub open spec fn queued_between(self, path: Seq<char>, lo: int, hi: int) -> bool {
        exists|i: int| lo <= i < hi && #[trigger] self.queued[i] == path
    }

    /// The search runs between two cells of a grid whose cells all have
    /// keys; it never goes more than one level beyond the distance of the
    /// two, and at that level nothing longer is queued.
    pub open spec fn shaped(self) -> bool {
        &&& inside(self.height, self.width, self.start)
        &&& inside(self.height, self.width, self.end)
        &&& self.height <= ROW_SPAN
        &&& self.width <= ROW_SPAN
        &&& self.level <= self.distance() + 1
        &&& self.split <= self.queued.len()
        &&& (self.level == self.distance() + 1 ==> self.split == self.queued.len())
        &&& 0 <= self.upto <= 4
    }

    /// Every queued path is a geodesic of its level whose cell is recorded.
    pub open spec fn queued_geodesics(self) -> bool {
        forall|i: int|
            0 <= i < self.queued.len() ==> {
                &&& self.geodesic(#[trigger] self.queued[i])
                &&& self.queued[i].len() == if i < self.split {
                    self.level
                } else {
                    self.level + 1
                }
                &&& self.seen.contains_key(cell_key(self.end_of(self.queued[i])))
            }
    }

    /// Queued paths of one length stand in the order of their discovery.
    pub open spec fn ordered(self) -> bool {
        forall|i: int, j: int|
            0 <= i < j < self.queued.len() && self.queued[i].len() == self.queued[j].len()
                ==> explored_before(#[trigger] self.queued[i], #[trigger] self.queued[j])
    }

    /// Every geodesic of the current level was taken or is still queued.
    pub open spec fn level_complete(self) -> bool {
        self.level <= self.distance() ==> forall|g: Seq<char>|
            #[trigger] self.geodesic(g) && g.len() == self.level ==> self.done.contains(g)
                || self.queued_between(g, 0, self.split as int)
    }

    /// The paths taken come before those still queued, the last one latest.
    pub open spec fn done_first(self) -> bool {
        &&& forall|g: Seq<char>, i: int|
            #[trigger] self.done.contains(g) && 0 <= i < self.split ==> explored_before(
                g,
                #[trigger] self.queued[i],
            )
        &&& forall|g: Seq<char>| #[trigger]
            self.done.contains(g) ==> g == self.last || explored_before(g, self.last)
    }

    /// Whether `path` continues a path that was taken, by a move that was
    /// tried already.
    pub open spec fn reached(self, path: Seq<char>) -> bool {
        &&& path.len() > 0
        &&& self.done.contains(path.drop_last())
        &&& path.drop_last() == self.last ==> move_rank(path.last()) < self.upto
    }

    /// The queued paths of the next level were all reached.
    pub open spec fn next_sound(self) -> bool {
        forall|i: int|
            self.split <= i < self.queued.len() ==> self.reached(#[trigger] self.queued[i])
    }

    /// Below the last level, every geodesic that was reached is queued.
    pub open spec fn next_complete(self) -> bool {
        self.level < self.distance() ==> forall|g: Seq<char>|
            #[trigger] self.geodesic(g) && g.len() == self.level + 1 && self.reached(g)
                ==> self.queued_between(g, self.split as int, self.queued.len() as int)
    }

    /// A recorded distance is the Manhattan distance from the start, and
    /// every cell within the current level has one.
    pub open spec fn seen_exact(self) -> bool {
        &&& forall|c: (int, int)|
            inside(self.height, self.width, c) && self.seen.contains_key(#[trigger] cell_key(c))
                ==> self.seen[cell_key(c)] == manhattan(self.start, c)
        &&& self.level <= self.distance() ==> forall|c: (int, int)|
            inside(self.height, self.width, c) && manhattan(self.start, c) <= self.level
                ==> self.seen.contains_key(#[trigger] cell_key(c))
    }

    /// Whether `path` is a geodesic from `start` to `end`.
    pub open spec fn arrives(self, path: Seq<char>) -> bool {
        &&& self.geodesic(path)
        &&& path.len() == self.distance()
        &&& self.end_of(path) == self.end
    }

    /// The paths found are geodesics to `end` in the order of discovery:
    /// those among the paths taken, and in the end all of them.
    pub open spec fn found_exact(self) -> bool {
        &&& forall|j: int| 0 <= j < self.found.len() ==> self.arrives(#[trigger] self.found[j])
        &&& forall|i: int, j: int|
            0 <= i < j < self.found.len() ==> explored_before(
                #[trigger] self.found[i],
                #[trigger] self.found[j],
            )
        &&& self.level < self.distance() ==> self.found.len() == 0
        &&& self.level == self.distance() ==> {
            &&& forall|j: int|
                0 <= j < self.found.len() ==> self.done.contains(#[trigger] self.found[j])
            &&& forall|g: Seq<char>|
                #[trigger] self.done.contains(g) && self.end_of(g) == self.end
                    ==> self.found.contains(g)
        }
        &&& self.level == self.distance() + 1 ==> {
            &&& self.found.len() > 0
            &&& forall|g: Seq<char>| #[trigger] self.arrives(g) ==> self.found.contains(g)
        }
    }

    /// While moves are tried on the path taken last, that path is a geodesic
    /// of the current level that does not end at `end`.
    pub open spec fn expanding(self) -> bool {
        self.upto < 4 ==> {
            &&& self.level <= self.distance()
            &&& self.done.contains(self.last)
            &&& self.geodesic(self.last)
            &&& self.last.len() == self.level
            &&& self.end_of(self.last) != self.end
        }
    }

    /// What holds of the state between any two steps of the search.
    pub closed spec fn inv(self) -> bool {
        &&& self.shaped()
        &&& self.queued_geodesics()
        &&& self.ordered()
        &&& self.level_complete()
        &&& self.done_first()
        &&& self.next_sound()
        &&& self.next_complete()
        &&& self.seen_exact()
        &&& self.found_exact()
        &&& self.expanding()
    }

    /// The state with which the search begins: the empty path is queued and
    /// the start is recorded at distance zero.
    pub open spec fn initial(height: int, width: int, start: (int, int), end: (int, int)) -> Self {
        Frontier {
            height,
            width,
            start,
            end,
            level: 0,
            split: 1,
            queued: seq![Seq::<char>::empty()],
            done: Set::empty(),
            last: Seq::empty(),
            upto: 4,
            seen: Map::empty().insert(cell_key(start), 0u128),
            found: Seq::empty(),
        }
    }

    /// The state after the last path of a level was taken: the next level
    /// becomes the current one.
    pub open spec fn advanced(self) -> Self {
        Frontier { level: self.level + 1, split: self.queued.len(), done: Set::empty(), ..self }
    }

    /// The state after the front path was taken from the queue and dropped.
    pub open spec fn skipped(self) -> Self {
        Frontier { queued: self.queued.drop_first(), split: (self.split - 1) as nat, ..self }
    }

    /// The state after the front path was taken from the queue and added to
    /// the paths found.
    pub open spec fn recorded(self) -> Self {
        Frontier {
            queued: self.queued.drop_first(),
            split: (self.split - 1) as nat,
            done: self.done.insert(self.queued[0]),
            last: self.queued[0],
            found: self.found.push(self.queued[0]),
            ..self
        }
    }

    /// The state after the front path was taken from the queue to have its
    /// four moves tried.
    pub open spec fn opened(self) -> Self {
        Frontier {
            queued: self.queued.drop_first(),
            split: (self.split - 1) as nat,
            done: self.done.insert(self.queued[0]),
            last: self.queued[0],
            upto: 0,
            ..self
        }
    }

    /// The move that is tried next on the path taken last.
    pub open spec fn next_move(self) -> char {
        move_at(self.upto)
    }

    /// The cell to which that move leads.
    pub open spec fn next_cell(self) -> (int, int) {
        step(self.end_of(self.last), self.next_move())
    }

    /// The state after the next move was tried and its path queued.
    pub open spec fn pushed(self) -> Self {
        Frontier {
            queued: self.queued.push(self.last.push(self.next_move())),
            seen: self.seen.insert(cell_key(self.next_cell()), (self.level + 1) as u128),
            upto: self.upto + 1,
            ..self
        }
    }

    /// The state after the next move was tried and led nowhere new.
    pub open spec fn passed(self) -> Self {
        Frontier { upto: self.upto + 1, ..self }
    }
}

/// Cells of one grid with the same key are the same cell.
pub proof fn lemma_key_injective(a: (int, int), b: (int, int))
    requires
        0 <= a.0 < ROW_SPAN,
        0 <= a.1 < ROW_SPAN,
        0 <= b.0 < ROW_SPAN,
        0 <= b.1 < ROW_SPAN,
        cell_key(a) == cell_key(b),
    ensures
        a == b,
{
}

/// The search begins in a state that meets the invariant.
pub proof fn lemma_initial(height: int, width: int, start: (int, int), end: (int, int))
    requires
        inside(height, width, start),
        inside(height, width, end),
        height <= ROW_SPAN,
        width <= ROW_SPAN,
    ensures
        Frontier::initial(height, width, start, end).inv(),
{
    let f = Frontier::initial(height, width, start, end);
    let empty = Seq::<char>::empty();
    assert(f.queued[0] == empty);
    assert(f.geodesic(empty));
    assert(f.level_complete()) by {
        assert forall|g: Seq<char>|
            #[trigger] f.geodesic(g) && g.len() == f.level implies f.done.contains(g)
            || f.queued_between(g, 0, f.split as int) by {
            assert(g =~= empty);
            assert(f.queued[0] == g);
        }
    }
    assert(f.seen_exact()) by {
        assert forall|c: (int, int)|
            inside(f.height, f.width, c) && f.seen.contains_key(
                #[trigger] cell_key(c),
            ) implies f.seen[cell_key(c)] == manhattan(f.start, c) by {
            lemma_key_injective(c, start);
        }
    }
}

/// When no path of the current level is left in the queue and the queue is
/// not empty, the search moves on to the next level.
pub proof fn lemma_advance(f: Frontier)
    requires
        f.inv(),
        f.upto == 4,
        f.split == 0,
        f.queued.len() > 0,
    ensures
        f.level <= f.distance(),
        f.advanced().inv(),
{
    let n = f.advanced();
    if n.level <= n.distance() {
        assert forall|g: Seq<char>|
            #[trigger] n.geodesic(g) && g.len() == n.level implies n.done.contains(g)
            || n.queued_between(g, 0, n.split as int) by {
            lemma_geodesic_parent(f.height, f.width, f.start, g);
            let parent = g.drop_last();
            assert(f.geodesic(parent));
            assert(!f.queued_between(parent, 0, 0));
            assert(f.done.contains(parent));
            assert(f.reached(g));
            assert(f.geodesic(g));
            let i = choose|i: int| 0 <= i < f.queued.len() && #[trigger] f.queued[i] == g;
            assert(n.queued[i] == g);
        }
        assert forall|c: (int, int)|
            inside(n.height, n.width, c) && manhattan(n.start, c)
                <= n.level implies n.seen.contains_key(#[trigger] cell_key(c)) by {
            if manhattan(n.start, c) == n.level {
                let g = lemma_geodesic_to(n.height, n.width, n.start, c);
                assert(n.geodesic(g));
                assert(n.queued_between(g, 0, n.split as int));
            }
        }
    }
    assert(n.found_exact()) by {
        if n.level == n.distance() + 1 {
            assert forall|g: Seq<char>| #[trigger] n.arrives(g) implies n.found.contains(g) by {
                assert(f.geodesic(g));
                assert(!f.queued_between(g, 0, 0));
                assert(f.done.contains(g));
            }
            let direct = lemma_geodesic_to(n.height, n.width, n.start, n.end);
            assert(n.arrives(direct));
            assert(n.found.contains(direct));
        }
    }
}

/// What the search may rely on when it takes the front path from the queue.
pub proof fn lemma_front(f: Frontier)
    requires
        f.inv(),
        f.split > 0,
    ensures
        f.queued.len() > 0,
        f.geodesic(f.queued[0]),
        f.queued[0].len() == f.level,
        f.level <= f.distance() + 1,
        f.distance() <= 2 * ROW_SPAN,
        inside(f.height, f.width, f.start),
        inside(f.height, f.width, f.end),
        f.found.len() > 0 ==> f.level >= f.distance(),
        f.level == f.distance() + 1 ==> f.found.len() > 0,
{
}

/// Beyond the last level the front path is dropped.
pub proof fn lemma_skip(f: Frontier)
    requires
        f.inv(),
        f.upto == 4,
        f.split > 0,
        f.level == f.distance() + 1,
    ensures
        f.skipped().inv(),
{
    let n = f.skipped();
    assert forall|i: int| 0 <= i < n.queued.len() implies n.queued[i] == f.queued[i + 1] by {}
    assert(n.found_exact()) by {
        assert forall|g: Seq<char>| #[trigger] n.arrives(g) implies n.found.contains(g) by {
            assert(f.arrives(g));
        }
    }
}

/// A front path that ends at `end` belongs to the last level and joins the
/// paths found.
pub proof fn lemma_record(f: Frontier)
    requires
        f.inv(),
        f.upto == 4,
        f.split > 0,
        f.level <= f.distance(),
        f.end_of(f.queued[0]) == f.end,
    ensures
        f.level == f.distance(),
        f.recorded().inv(),
{
    let n = f.recorded();
    let x = f.queued[0];
    assert forall|i: int| 0 <= i < n.queued.len() implies n.queued[i] == f.queued[i + 1] by {}
    lemma_taken(f, n);
    assert(n.next_sound()) by {
        assert forall|i: int| n.split <= i < n.queued.len() implies n.reached(
            #[trigger] n.queued[i],
        ) by {
            assert(f.reached(f.queued[i + 1]));
        }
    }
    assert(n.found_exact()) by {
        assert(n.arrives(x));
        assert forall|i: int, j: int| 0 <= i < j < n.found.len() implies explored_before(
            #[trigger] n.found[i],
            #[trigger] n.found[j],
        ) by {
            if j == f.found.len() {
                assert(f.done.contains(f.found[i]));
            }
        }
        assert forall|g: Seq<char>|
            #[trigger] n.done.contains(g) && n.end_of(g) == n.end implies n.found.contains(g) by {
            if g == x {
                assert(n.found[f.found.len() as int] == g);
            } else {
                assert(f.found.contains(g));
                let j = choose|j: int| 0 <= j < f.found.len() && f.found[j] == g;
                assert(n.found[j] == g);
            }
        }
    }
}

/// A front path that does not end at `end` has its moves tried next.
pub proof fn lemma_open(f: Frontier)
    requires
        f.inv(),
        f.upto == 4,
        f.split > 0,
        f.level <= f.distance(),
        f.end_of(f.queued[0]) != f.end,
    ensures
        f.opened().inv(),
{
    let n = f.opened();
    let x = f.queued[0];
    assert forall|i: int| 0 <= i < n.queued.len() implies n.queued[i] == f.queued[i + 1] by {}
    lemma_taken(f, n);
    assert(n.next_sound()) by {
        assert forall|i: int| n.split <= i < n.queued.len() implies n.reached(
            #[trigger] n.queued[i],
        ) by {
            let path = f.queued[i + 1];
            assert(f.reached(path));
            assert(explored_before(path.drop_last(), f.queued[0]));
            lemma_order_irreflexive(x);
        }
    }
    assert(n.next_complete()) by {
        if n.level < n.distance() {
            assert forall|g: Seq<char>|
                #[trigger] n.geodesic(g) && g.len() == n.level + 1 && n.reached(g) implies
                n.queued_between(g, n.split as int, n.queued.len() as int) by {
                assert(f.geodesic(g));
                assert(f.reached(g));
                let i = choose|i: int| f.split <= i < f.queued.len() && #[trigger] f.queued[i] == g;
                assert(n.queued[i - 1] == g);
            }
        }
    }
}

/// What taking the front path of the current level changes for the paths of
/// that level: `n` is the state after the front path of `f` was taken.
proof fn lemma_taken(f: Frontier, n: Frontier)
    requires
        f.inv(),
        f.split > 0,
        f.level <= f.distance(),
        n.queued == f.queued.drop_first(),
        n.split == f.split - 1,
        n.done == f.done.insert(f.queued[0]),
        n.last == f.queued[0],
        n.level == f.level,
        n.seen == f.seen,
        n.height == f.height,
        n.width == f.width,
        n.start == f.start,
        n.end == f.end,
        0 <= n.upto <= 4,
    ensures
        n.shaped(),
        n.queued_geodesics(),
        n.ordered(),
        n.level_complete(),
        n.done_first(),
        n.seen_exact(),
{
    assert forall|i: int| 0 <= i < n.queued.len() implies n.queued[i] == f.queued[i + 1] by {}
    assert(n.level_complete()) by {
        assert forall|g: Seq<char>|
            #[trigger] n.geodesic(g) && g.len() == n.level implies n.done.contains(g)
            || n.queued_between(g, 0, n.split as int) by {
            assert(f.geodesic(g));
            if !f.done.contains(g) {
                let i = choose|i: int| 0 <= i < f.split && #[trigger] f.queued[i] == g;
                if i > 0 {
                    assert(n.queued[i - 1] == g);
                }
            }
        }
    }
    assert(n.done_first()) by {
        assert forall|g: Seq<char>, i: int|
            #[trigger] n.done.contains(g) && 0 <= i < n.split implies explored_before(
            g,
            #[trigger] n.queued[i],
        ) by {
            assert(n.queued[i] == f.queued[i + 1]);
            if g != f.queued[0] {
                assert(f.done.contains(g));
            }
        }
        assert forall|g: Seq<char>| #[trigger] n.done.contains(g) implies g == n.last
            || explored_before(g, n.last) by {
            if g != f.queued[0] {
                assert(f.done.contains(g));
                assert(explored_before(g, f.queued[0]));
            }
        }
    }
}

/// What the search may rely on when it tries the next move on the path
/// taken last.
pub proof fn lemma_try(f: Frontier)
    requires
        f.inv(),
        f.upto < 4,
    ensures
        f.level <= f.distance(),
        f.distance() <= 2 * ROW_SPAN,
        f.last.len() == f.level,
        inside(f.height, f.width, f.end_of(f.last)),
        f.height <= ROW_SPAN,
        f.width <= ROW_SPAN,
{
}

/// A move to a cell of the grid that is new, or recorded at the distance of
/// the next level, gives a geodesic: its path is queued and the cell recorded.
pub proof fn lemma_push(f: Frontier)
    requires
        f.inv(),
        f.upto < 4,
        inside(f.height, f.width, f.next_cell()),
        !f.seen.contains_key(cell_key(f.next_cell())) || f.seen[cell_key(f.next_cell())]
            == f.level + 1,
    ensures
        f.pushed().inv(),
        f.end_of(f.last.push(f.next_move())) == f.next_cell(),
{
    let n = f.pushed();
    let m = f.next_move();
    let cell = f.next_cell();
    let child = f.last.push(m);
    lemma_step_changes_distance(f.start, f.end_of(f.last), m);
    lemma_walk_push(f.height, f.width, f.start, f.last, m);
    assert(manhattan(f.start, cell) == f.level + 1);
    assert(f.geodesic(child));
    assert(child.drop_last() =~= f.last);
    assert(child.last() == m);
    assert(move_rank(m) == f.upto);
    assert forall|i: int| 0 <= i < f.queued.len() implies n.queued[i] == f.queued[i] by {}
    assert(n.queued[f.queued.len() as int] == child);
    assert(n.next_sound()) by {
        assert forall|i: int| n.split <= i < n.queued.len() implies n.reached(
            #[trigger] n.queued[i],
        ) by {
            if i < f.queued.len() {
                assert(f.reached(f.queued[i]));
            }
        }
    }
    assert(n.ordered()) by {
        assert forall|i: int, j: int|
            0 <= i < j < n.queued.len() && n.queued[i].len() == n.queued[j].len() implies
            explored_before(#[trigger] n.queued[i], #[trigger] n.queued[j]) by {
            if j == f.queued.len() {
                let other = f.queued[i];
                assert(f.reached(other));
                let parent = other.drop_last();
                assert(other =~= parent.push(other.last()));
                if parent == f.last {
                    lemma_order_of_siblings(f.last, other.last(), m);
                } else {
                    lemma_order_of_children(parent, f.last, other.last(), m);
                }
            }
        }
    }
    assert(n.level_complete()) by {
        assert forall|g: Seq<char>|
            #[trigger] n.geodesic(g) && g.len() == n.level implies n.done.contains(g)
            || n.queued_between(g, 0, n.split as int) by {
            assert(f.geodesic(g));
            if !f.done.contains(g) {
                let i = choose|i: int| 0 <= i < f.split && #[trigger] f.queued[i] == g;
                assert(n.queued[i] == g);
            }
        }
    }
    assert(n.done_first()) by {
        assert forall|g: Seq<char>, i: int|
            #[trigger] n.done.contains(g) && 0 <= i < n.split implies explored_before(
            g,
            #[trigger] n.queued[i],
        ) by {
            assert(n.queued[i] == f.queued[i]);
        }
    }
    assert(n.next_complete()) by {
        if n.level < n.distance() {
            assert forall|g: Seq<char>|
                #[trigger] n.geodesic(g) && g.len() == n.level + 1 && n.reached(g) implies
                n.queued_between(g, n.split as int, n.queued.len() as int) by {
                assert(f.geodesic(g));
                if f.reached(g) {
                    let i = choose|i: int|
                        f.split <= i < f.queued.len() && #[trigger] f.queued[i] == g;
                    assert(n.queued[i] == g);
                } else {
                    assert(g =~= g.drop_last().push(g.last()));
                    assert(g == child);
                }
            }
        }
    }
    assert(n.seen_exact()) by {
        assert forall|c: (int, int)|
            inside(n.height, n.width, c) && n.seen.contains_key(
                #[trigger] cell_key(c),
            ) implies n.seen[cell_key(c)] == manhattan(n.start, c) by {
            if cell_key(c) == cell_key(cell) {
                lemma_key_injective(c, cell);
            }
        }
    }
}

/// A move that leaves the grid, or leads to a cell recorded at another
/// distance than that of the next level, gives no geodesic.
pub proof fn lemma_pass(f: Frontier)
    requires
        f.inv(),
        f.upto < 4,
        !inside(f.height, f.width, f.next_cell()) || (f.seen.contains_key(
            cell_key(f.next_cell()),
        ) && f.seen[cell_key(f.next_cell())] != f.level + 1),
    ensures
        f.passed().inv(),
{
    let n = f.passed();
    let m = f.next_move();
    assert(move_rank(m) == f.upto);
    assert(n.level_complete()) by {
        assert forall|g: Seq<char>|
            #[trigger] n.geodesic(g) && g.len() == n.level implies n.done.contains(g)
            || n.queued_between(g, 0, n.split as int) by {
            assert(f.geodesic(g));
            if !f.done.contains(g) {
                let i = choose|i: int| 0 <= i < f.split && #[trigger] f.queued[i] == g;
                assert(n.queued[i] == g);
            }
        }
    }
    assert(n.next_sound()) by {
        assert forall|i: int| n.split <= i < n.queued.len() implies n.reached(
            #[trigger] n.queued[i],
        ) by {
            assert(f.reached(f.queued[i]));
        }
    }
    assert(n.next_complete()) by {
        if n.level < n.distance() {
            assert forall|g: Seq<char>|
                #[trigger] n.geodesic(g) && g.len() == n.level + 1 && n.reached(g) implies
                n.queued_between(g, n.split as int, n.queued.len() as int) by {
                assert(f.geodesic(g));
                if !f.reached(g) {
                    assert(g =~= g.drop_last().push(g.last()));
                    assert(g.last() == m);
                    lemma_walk_push(f.height, f.width, f.start, f.last, m);
                    assert(false);
                }
            }
        }
    }
}

/// When the queue is empty, the paths found are the shortest paths.
pub proof fn lemma_exhausted(f: Frontier)
    requires
        f.inv(),
        f.upto == 4,
        f.queued.len() == 0,
    ensures
        lists_shortest_paths(f.height, f.width, f.start, f.end, f.found),
{
    if f.level < f.distance() {
        let direct = lemma_geodesic_to(f.height, f.width, f.start, f.end);
        let g = lemma_geodesic_prefix(f.height, f.width, f.start, direct, f.level + 1);
        lemma_geodesic_parent(f.height, f.width, f.start, g);
        assert(f.geodesic(g.drop_last()));
        assert(!f.queued_between(g.drop_last(), 0, 0));
        assert(f.geodesic(g));
        assert(f.reached(g));
        assert(!f.queued_between(g, 0, 0));
        assert(false);
    }
    assert forall|p: Seq<char>| #[trigger]
        f.found.contains(p) <==> is_shortest_path(f.height, f.width, f.start, f.end, p) by {
        lemma_shortest_paths_are_geodesics(f.height, f.width, f.start, f.end, p);
        if f.found.contains(p) {
            let j = choose|j: int| 0 <= j < f.found.len() && f.found[j] == p;
            assert(f.arrives(f.found[j]));
        }
        if f.arrives(p) {
            if f.level == f.distance() {
                assert(f.geodesic(p));
                assert(!f.queued_between(p, 0, 0));
                assert(f.done.contains(p));
            }
        }
    }
}

} // verus!
