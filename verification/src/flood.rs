//! What a flood opens: the model of the flood fill, and the facts about it
//! that the executable operations rest on.

use vstd::prelude::*;
use crate::board::{
    adjacent, count_flags, lemma_count_mines_same, lemma_index_of_position, lemma_near_members,
    lemma_position_of_index, uncovered, Board,
};
use crate::tile::Tile;

verus! {

impl Board {
    /// The tile at `p` lies on the board and is not visible yet.
    pub open spec fn covered(self, p: (int, int)) -> bool {
        self.valid(p.0, p.1) && !(self.tile(p.0, p.1).state is Visible)
    }

    /// A flood that has come to `from` goes on to `to`: no mine lies next to
    /// `from`, and `to` is one of its neighbours.
    pub open spec fn spreads(self, from: (int, int), to: (int, int)) -> bool {
        self.mines_near(from.0, from.1) == 0 && adjacent(from, to)
    }

    /// A way that a flood can take: it runs over covered tiles only, each
    /// tile but the last has no mine next to it, and each step goes to a
    /// neighbour.
    pub open spec fn flood_path(self, path: Seq<(int, int)>) -> bool {
        &&& path.len() > 0
        &&& forall|i: int| 0 <= i < path.len() ==> self.covered(#[trigger] path[i])
        &&& forall|i: int, j: int|
            0 <= i && j == i + 1 && j < path.len() ==> #[trigger] self.spreads(path[i], path[j])
    }

    /// A flood that starts at `from` reaches `to`.
    pub open spec fn floods(self, from: (int, int), to: (int, int)) -> bool {
        exists|path: Seq<(int, int)>|
            #[trigger] self.flood_path(path) && path[0] == from && path.last() == to
    }

    /// The board after a flood from `(row, column)`: every hidden tile that
    /// the flood reaches is visible, and nothing else has changed.
    pub open spec fn flooded(self, row: int, column: int) -> Board {
        Board {
            tiles: Seq::new(
                self.tiles.len(),
                |i: int|
                    if self.floods((row, column), self.position(i)) {
                        uncovered(self.tiles[i])
                    } else {
                        self.tiles[i]
                    },
            ),
            ..self
        }
    }

    /// The board after one flood from each of `cells`, first to last.
    pub open spec fn flooded_each(self, cells: Seq<(int, int)>) -> Board
        decreases cells.len(),
    {
        if cells.len() == 0 {
            self
        } else {
            self.flooded_each(cells.drop_last()).flooded(cells.last().0, cells.last().1)
        }
    }

    /// A flood that starts at one of `cells` reaches `to`.
    pub open spec fn floods_from_any(self, cells: Seq<(int, int)>, to: (int, int)) -> bool {
        exists|k: int| 0 <= k < cells.len() && #[trigger] self.floods(cells[k], to)
    }

    /// The board with every hidden tile visible that a flood from one of
    /// `cells` reaches.
    pub open spec fn flooded_from_any(self, cells: Seq<(int, int)>) -> Board {
        Board {
            tiles: Seq::new(
                self.tiles.len(),
                |i: int|
                    if self.floods_from_any(cells, self.position(i)) {
                        uncovered(self.tiles[i])
                    } else {
                        self.tiles[i]
                    },
            ),
            ..self
        }
    }

    /// The hidden neighbours of `(row, column)`, in row-major order.
    pub open spec fn hidden_near(self, row: int, column: int) -> Seq<(int, int)> {
        self.near(row, column).filter(|p: (int, int)| self.tile(p.0, p.1).state is Hidden)
    }

    /// The chord at `(row, column)` applies: the tile is visible and has as
    /// many flags next to it as mines.
    pub open spec fn chord_applies(self, row: int, column: int) -> bool {
        self.tile(row, column).state is Visible && self.flags_near(row, column) == self.mines_near(
            row,
            column,
        )
    }

    /// The board after a chord at `(row, column)`: where the chord applies,
    /// a flood from each hidden neighbour; else the board as it is.
    pub open spec fn chorded(self, row: int, column: int) -> Board {
        if self.chord_applies(row, column) {
            self.flooded_each(self.hidden_near(row, column))
        } else {
            self
        }
    }

    /// `other` has the dimensions and the mines of `self`, and differs from
    /// it at most in hidden tiles that are visible in `other`.
    pub open spec fn opened_into(self, other: Board) -> bool {
        &&& other.width == self.width
        &&& other.height == self.height
        &&& other.mines == self.mines
        &&& other.flags == self.flags
        &&& other.tiles.len() == self.tiles.len()
        &&& forall|i: int|
            0 <= i < self.tiles.len() ==> #[trigger] other.tiles[i] == self.tiles[i]
                || other.tiles[i] == uncovered(self.tiles[i])
    }
}

/// A flood reaches the covered tile that it starts at.
pub proof fn lemma_flood_start(b: Board, start: (int, int))
    requires
        b.covered(start),
    ensures
        b.floods(start, start),
{
    let path = seq![start];
    assert(b.flood_path(path));
    assert(path[0] == start && path.last() == start);
}

/// A flood that reaches a tile with no mine next to it goes on to each
/// covered neighbour of that tile.
pub proof fn lemma_flood_step(b: Board, start: (int, int), via: (int, int), to: (int, int))
    requires
        b.floods(start, via),
        b.mines_near(via.0, via.1) == 0,
        adjacent(via, to),
        b.covered(to),
    ensures
        b.floods(start, to),
{
    let path = choose|path: Seq<(int, int)>|
        #[trigger] b.flood_path(path) && path[0] == start && path.last() == via;
    let longer = path.push(to);
    assert forall|i: int| 0 <= i < longer.len() implies b.covered(#[trigger] longer[i]) by {
        if i < path.len() {
            assert(longer[i] == path[i]);
        }
    }
    assert forall|i: int, j: int| 0 <= i && j == i + 1 && j < longer.len() implies #[trigger] b.spreads(
        longer[i],
        longer[j],
    ) by {
        assert(longer[i] == path[i]);
        if j < path.len() {
            assert(longer[j] == path[j]);
            assert(b.spreads(path[i], path[j]));
        }
    }
    assert(b.flood_path(longer));
    assert(longer[0] == start && longer.last() == to);
}

/// A flood stays on covered tiles.
pub proof fn lemma_flood_covered(b: Board, start: (int, int), to: (int, int))
    requires
        b.floods(start, to),
    ensures
        b.covered(start),
        b.covered(to),
{
    let path = choose|path: Seq<(int, int)>|
        #[trigger] b.flood_path(path) && path[0] == start && path.last() == to;
    assert(b.covered(path[0]));
    assert(b.covered(path[path.len() - 1]));
}

/// The tiles along a flood path, up to the one at `upto`, lie in every set
/// that holds the start and is closed under the flood's steps.
proof fn lemma_path_inside(b: Board, path: Seq<(int, int)>, inside: Set<(int, int)>, upto: int)
    requires
        b.flood_path(path),
        0 <= upto < path.len(),
        inside.contains(path[0]),
        forall|p: (int, int), q: (int, int)|
            inside.contains(p) && b.mines_near(p.0, p.1) == 0 && #[trigger] adjacent(p, q)
                && b.covered(q) ==> inside.contains(q),
    ensures
        inside.contains(path[upto]),
    decreases upto,
{
    if upto > 0 {
        lemma_path_inside(b, path, inside, upto - 1);
        let p = path[upto - 1];
        let q = path[upto];
        assert(b.spreads(p, q));
        assert(adjacent(p, q));
        assert(b.covered(q));
    }
}

/// A flood reaches no tile outside a set that holds its start and is closed
/// under its steps.
pub proof fn lemma_flood_closed(
    b: Board,
    start: (int, int),
    inside: Set<(int, int)>,
    to: (int, int),
)
    requires
        b.covered(start) ==> inside.contains(start),
        forall|p: (int, int), q: (int, int)|
            inside.contains(p) && b.mines_near(p.0, p.1) == 0 && #[trigger] adjacent(p, q)
                && b.covered(q) ==> inside.contains(q),
        b.floods(start, to),
    ensures
        inside.contains(to),
{
    let path = choose|path: Seq<(int, int)>|
        #[trigger] b.flood_path(path) && path[0] == start && path.last() == to;
    assert(b.covered(path[0]));
    lemma_path_inside(b, path, inside, path.len() - 1);
}

/// Sequences that agree on who is flagged hold equally many flags.
pub proof fn lemma_count_flags_same(a: Seq<Tile>, b: Seq<Tile>)
    requires
        a.len() == b.len(),
        forall|i: int| 0 <= i < a.len() ==> (a[i].state is Flagged <==> b[i].state is Flagged),
    ensures
        count_flags(a) == count_flags(b),
    decreases a.len(),
{
    if a.len() > 0 {
        lemma_count_flags_same(a.drop_last(), b.drop_last());
    }
}

/// Opening hidden tiles keeps a board as well formed as it was.
pub proof fn lemma_opened_form(b: Board, other: Board)
    requires
        b.opened_into(other),
    ensures
        b.form_kept(other),
{
    assert forall|i: int| 0 <= i < b.tiles.len() implies b.tiles[i].has_mine
        == other.tiles[i].has_mine && (b.tiles[i].state is Flagged
        <==> other.tiles[i].state is Flagged) by {
        assert(other.tiles[i] == b.tiles[i] || other.tiles[i] == uncovered(b.tiles[i]));
    }
    lemma_count_mines_same(b.tiles, other.tiles);
    lemma_count_flags_same(b.tiles, other.tiles);
}

/// Boards with the same dimensions and the same mines count the same mines
/// next to each position.
pub proof fn lemma_mines_near_same(a: Board, b: Board, row: int, column: int)
    requires
        a.width == b.width,
        a.height == b.height,
        a.tiles.len() == b.tiles.len(),
        a.tiles.len() == a.width * a.height,
        forall|i: int| 0 <= i < a.tiles.len() ==> a.tiles[i].has_mine == b.tiles[i].has_mine,
    ensures
        a.mines_near(row, column) == b.mines_near(row, column),
{
    let near = a.near(row, column);
    assert(near == b.near(row, column));
    lemma_near_members(a, row, column);
    let at_a = a.tiles_at(near);
    let at_b = b.tiles_at(near);
    assert forall|i: int| 0 <= i < at_a.len() implies at_a[i].has_mine == at_b[i].has_mine by {
        let p = near[i];
        assert(near.contains(p));
        lemma_index_of_position(a, p.0, p.1);
    }
    lemma_count_mines_same(at_a, at_b);
}

/// Opening hidden tiles changes no count of mines next to a position.
pub proof fn lemma_opened_mines_near(b: Board, other: Board, row: int, column: int)
    requires
        b.shaped(),
        b.opened_into(other),
    ensures
        b.mines_near(row, column) == other.mines_near(row, column),
{
    assert forall|i: int| 0 <= i < b.tiles.len() implies b.tiles[i].has_mine
        == other.tiles[i].has_mine by {
        assert(other.tiles[i] == b.tiles[i] || other.tiles[i] == uncovered(b.tiles[i]));
    }
    lemma_mines_near_same(b, other, row, column);
}

/// A flood opens hidden tiles only, and keeps a board as well formed as it
/// was.
pub proof fn lemma_flooded_opened(b: Board, row: int, column: int)
    ensures
        b.opened_into(b.flooded(row, column)),
        b.form_kept(b.flooded(row, column)),
{
    lemma_opened_form(b, b.flooded(row, column));
}

/// How many entries of `seen` are not set yet.
pub(crate) open spec fn count_unseen(seen: Seq<bool>) -> nat
    decreases seen.len(),
{
    if seen.len() == 0 {
        0
    } else {
        count_unseen(seen.drop_last()) + if seen.last() { 0nat } else { 1nat }
    }
}

/// Setting an entry that was not set leaves one entry fewer to set.
pub(crate) proof fn lemma_unseen_update(seen: Seq<bool>, i: int)
    requires
        0 <= i < seen.len(),
        !seen[i],
    ensures
        count_unseen(seen.update(i, true)) + 1 == count_unseen(seen),
    decreases seen.len(),
{
    let after = seen.update(i, true);
    if i == seen.len() - 1 {
        assert(after.drop_last() =~= seen.drop_last());
    } else {
        assert(after.drop_last() =~= seen.drop_last().update(i, true));
        lemma_unseen_update(seen.drop_last(), i);
    }
}

/// The flood has dealt with `q`, or still holds it in its work list.
pub(crate) closed spec fn reached(
    orig: Board,
    seen: Seq<bool>,
    pending: Seq<(int, int)>,
    q: (int, int),
) -> bool {
    seen[orig.index(q.0, q.1)] || pending.contains(q)
}

/// What a running flood has done so far: the tiles it has dealt with are
/// marked in `seen`, they are uncovered in `cur`, and the flood of `orig`
/// from `start` reaches them; it reaches each covered tile of the work list
/// as well.
pub(crate) closed spec fn flood_progress(
    orig: Board,
    cur: Board,
    start: (int, int),
    seen: Seq<bool>,
    pending: Seq<(int, int)>,
) -> bool {
    &&& orig.shaped()
    &&& orig.valid(start.0, start.1)
    &&& seen.len() == orig.tiles.len()
    &&& cur.width == orig.width
    &&& cur.height == orig.height
    &&& cur.mines == orig.mines
    &&& cur.flags == orig.flags
    &&& cur.tiles.len() == orig.tiles.len()
    &&& forall|i: int|
        0 <= i < orig.tiles.len() ==> #[trigger] cur.tiles[i] == if seen[i] {
            uncovered(orig.tiles[i])
        } else {
            orig.tiles[i]
        }
    &&& forall|i: int|
        0 <= i < orig.tiles.len() && #[trigger] seen[i] ==> orig.floods(start, orig.position(i))
    &&& forall|k: int|
        0 <= k < pending.len() ==> orig.valid((#[trigger] pending[k]).0, pending[k].1) && (
        orig.covered(pending[k]) ==> orig.floods(start, pending[k]))
    &&& orig.covered(start) ==> reached(orig, seen, pending, start)
}

/// Every tile that the flood has dealt with, and that has no mine next to
/// it, has handed the flood on to its covered neighbours; `skip` is the one
/// tile that may still be at it.
pub(crate) closed spec fn flood_spread(
    orig: Board,
    seen: Seq<bool>,
    pending: Seq<(int, int)>,
    skip: Option<(int, int)>,
) -> bool {
    forall|p: (int, int), q: (int, int)|
        orig.valid(p.0, p.1) && seen[orig.index(p.0, p.1)] && Some(p) != skip && orig.mines_near(
            p.0,
            p.1,
        ) == 0 && #[trigger] adjacent(p, q) && orig.covered(q) ==> reached(orig, seen, pending, q)
}

/// A flood sets out with nothing dealt with and its start on the work list.
pub(crate) proof fn lemma_flood_begin(orig: Board, start: (int, int), seen: Seq<bool>)
    requires
        orig.shaped(),
        orig.valid(start.0, start.1),
        seen.len() == orig.tiles.len(),
        forall|i: int| 0 <= i < seen.len() ==> !seen[i],
    ensures
        flood_progress(orig, orig, start, seen, seq![start]),
        flood_spread(orig, seen, seq![start], None),
{
    let pending = seq![start];
    assert(pending[0] == start);
    if orig.covered(start) {
        lemma_flood_start(orig, start);
    }
    assert forall|p: (int, int), q: (int, int)|
        orig.valid(p.0, p.1) && seen[orig.index(p.0, p.1)] && orig.mines_near(p.0, p.1) == 0
            && #[trigger] adjacent(p, q) && orig.covered(q) implies reached(
        orig,
        seen,
        pending,
        q,
    ) by {
        lemma_index_of_position(orig, p.0, p.1);
    }
}

/// What the flood knows of the last tile of its work list.
pub(crate) proof fn lemma_flood_top(
    orig: Board,
    cur: Board,
    start: (int, int),
    seen: Seq<bool>,
    pending: Seq<(int, int)>,
)
    requires
        flood_progress(orig, cur, start, seen, pending),
        pending.len() > 0,
    ensures
        orig.shaped(),
        cur.width == orig.width,
        cur.height == orig.height,
        seen.len() == cur.tiles.len(),
        cur.valid(pending.last().0, pending.last().1),
        0 <= cur.index(pending.last().0, pending.last().1) < seen.len(),
        !seen[cur.index(pending.last().0, pending.last().1)] ==> cur.tile(
            pending.last().0,
            pending.last().1,
        ) == orig.tile(pending.last().0, pending.last().1),
{
    let p = pending.last();
    assert(pending[pending.len() - 1] == p);
    lemma_index_of_position(orig, p.0, p.1);
    let index = orig.index(p.0, p.1);
    assert(cur.tiles[index] == if seen[index] {
        uncovered(orig.tiles[index])
    } else {
        orig.tiles[index]
    });
}

/// The flood may drop a tile from its work list that it has dealt with
/// already, or that was visible from the start.
pub(crate) proof fn lemma_flood_skip(
    orig: Board,
    cur: Board,
    start: (int, int),
    seen: Seq<bool>,
    pending: Seq<(int, int)>,
)
    requires
        flood_progress(orig, cur, start, seen, pending),
        flood_spread(orig, seen, pending, None),
        pending.len() > 0,
        seen[orig.index(pending.last().0, pending.last().1)] || !orig.covered(pending.last()),
    ensures
        flood_progress(orig, cur, start, seen, pending.drop_last()),
        flood_spread(orig, seen, pending.drop_last(), None),
{
    let rest = pending.drop_last();
    let p = pending.last();
    assert forall|q: (int, int)|
        reached(orig, seen, pending, q) && orig.covered(q) implies reached(orig, seen, rest, q) by {
        if !seen[orig.index(q.0, q.1)] {
            let k = choose|k: int| 0 <= k < pending.len() && pending[k] == q;
            assert(k < rest.len());
            assert(rest[k] == q);
        }
    }
    assert forall|k: int| 0 <= k < rest.len() implies orig.valid((#[trigger] rest[k]).0, rest[k].1)
        && (orig.covered(rest[k]) ==> orig.floods(start, rest[k])) by {
        assert(rest[k] == pending[k]);
    }
}

/// The flood takes the last tile of its work list, which is covered and
/// which it has not dealt with yet, marks it and uncovers it.
pub(crate) proof fn lemma_flood_mark(
    orig: Board,
    cur: Board,
    start: (int, int),
    seen: Seq<bool>,
    pending: Seq<(int, int)>,
)
    requires
        flood_progress(orig, cur, start, seen, pending),
        flood_spread(orig, seen, pending, None),
        pending.len() > 0,
        !seen[orig.index(pending.last().0, pending.last().1)],
        orig.covered(pending.last()),
    ensures
        ({
            let p = pending.last();
            let index = orig.index(p.0, p.1);
            let marked = seen.update(index, true);
            &&& 0 <= index < seen.len()
            &&& cur.tiles[index] == orig.tiles[index]
            &&& orig.floods(start, p)
            &&& flood_progress(
                orig,
                cur.with_tile(p.0, p.1, uncovered(cur.tile(p.0, p.1))),
                start,
                marked,
                pending.drop_last(),
            )
            &&& flood_spread(orig, marked, pending.drop_last(), Some(p))
            &&& orig.opened_into(cur.with_tile(p.0, p.1, uncovered(cur.tile(p.0, p.1))))
        }),
{
    let rest = pending.drop_last();
    let p = pending.last();
    let index = orig.index(p.0, p.1);
    let marked = seen.update(index, true);
    let next = cur.with_tile(p.0, p.1, uncovered(cur.tile(p.0, p.1)));
    assert(orig.valid(p.0, p.1) && orig.floods(start, p)) by {
        assert(pending[pending.len() - 1] == p);
    }
    lemma_index_of_position(orig, p.0, p.1);
    assert(cur.tiles[index] == orig.tiles[index]);
    assert forall|q: (int, int)|
        reached(orig, seen, pending, q) && orig.covered(q) implies reached(
        orig,
        marked,
        rest,
        q,
    ) by {
        lemma_index_of_position(orig, q.0, q.1);
        if q != p && !seen[orig.index(q.0, q.1)] {
            let k = choose|k: int| 0 <= k < pending.len() && pending[k] == q;
            assert(k < rest.len());
            assert(rest[k] == q);
        }
    }
    assert forall|k: int| 0 <= k < rest.len() implies orig.valid((#[trigger] rest[k]).0, rest[k].1)
        && (orig.covered(rest[k]) ==> orig.floods(start, rest[k])) by {
        assert(rest[k] == pending[k]);
    }
    assert forall|i: int| 0 <= i < orig.tiles.len() implies #[trigger] next.tiles[i] == if marked[i] {
        uncovered(orig.tiles[i])
    } else {
        orig.tiles[i]
    } by {
        assert(cur.tiles[i] == if seen[i] {
            uncovered(orig.tiles[i])
        } else {
            orig.tiles[i]
        });
    }
    assert forall|i: int| 0 <= i < orig.tiles.len() && #[trigger] marked[i] implies orig.floods(
        start,
        orig.position(i),
    ) by {
        if i != index {
            assert(seen[i]);
        }
    }
    assert forall|a: (int, int), q: (int, int)|
        orig.valid(a.0, a.1) && marked[orig.index(a.0, a.1)] && Some(a) != Some(p)
            && orig.mines_near(a.0, a.1) == 0 && #[trigger] adjacent(a, q) && orig.covered(
            q,
        ) implies reached(orig, marked, rest, q) by {
        lemma_index_of_position(orig, a.0, a.1);
        assert(seen[orig.index(a.0, a.1)]);
        assert(reached(orig, seen, pending, q));
    }
}

/// The flood puts a neighbour of the tile that it is at on its work list.
pub(crate) proof fn lemma_flood_push(
    orig: Board,
    cur: Board,
    start: (int, int),
    seen: Seq<bool>,
    pending: Seq<(int, int)>,
    at: (int, int),
    q: (int, int),
)
    requires
        flood_progress(orig, cur, start, seen, pending),
        flood_spread(orig, seen, pending, Some(at)),
        orig.floods(start, at),
        orig.mines_near(at.0, at.1) == 0,
        adjacent(at, q),
        orig.valid(q.0, q.1),
    ensures
        flood_progress(orig, cur, start, seen, pending.push(q)),
        flood_spread(orig, seen, pending.push(q), Some(at)),
        forall|other: (int, int)|
            reached(orig, seen, pending, other) ==> reached(orig, seen, pending.push(q), other),
        reached(orig, seen, pending.push(q), q),
{
    let more = pending.push(q);
    assert(more[pending.len() as int] == q);
    assert forall|other: (int, int)| reached(orig, seen, pending, other) implies reached(
        orig,
        seen,
        more,
        other,
    ) by {
        if !seen[orig.index(other.0, other.1)] {
            let k = choose|k: int| 0 <= k < pending.len() && pending[k] == other;
            assert(more[k] == other);
        }
    }
    assert forall|k: int| 0 <= k < more.len() implies orig.valid((#[trigger] more[k]).0, more[k].1)
        && (orig.covered(more[k]) ==> orig.floods(start, more[k])) by {
        if k < pending.len() {
            assert(more[k] == pending[k]);
        } else if orig.covered(q) {
            lemma_flood_step(orig, start, at, q);
        }
    }
    assert forall|a: (int, int), b: (int, int)|
        orig.valid(a.0, a.1) && seen[orig.index(a.0, a.1)] && Some(a) != Some(at)
            && orig.mines_near(a.0, a.1) == 0 && #[trigger] adjacent(a, b) && orig.covered(
            b,
        ) implies reached(orig, seen, more, b) by {
        assert(reached(orig, seen, pending, b));
    }
}

/// Once every neighbour of the tile that the flood is at is on the work list
/// or dealt with, or once that tile is known to have a mine next to it, the
/// tile is done.
pub(crate) proof fn lemma_flood_spread_done(
    orig: Board,
    seen: Seq<bool>,
    pending: Seq<(int, int)>,
    at: (int, int),
)
    requires
        flood_spread(orig, seen, pending, Some(at)),
        orig.mines_near(at.0, at.1) == 0 ==> forall|k: int|
            0 <= k < orig.near(at.0, at.1).len() ==> reached(
                orig,
                seen,
                pending,
                #[trigger] orig.near(at.0, at.1)[k],
            ),
    ensures
        flood_spread(orig, seen, pending, None),
{
    assert forall|p: (int, int), q: (int, int)|
        orig.valid(p.0, p.1) && seen[orig.index(p.0, p.1)] && orig.mines_near(p.0, p.1) == 0
            && #[trigger] adjacent(p, q) && orig.covered(q) implies reached(
        orig,
        seen,
        pending,
        q,
    ) by {
        if p == at {
            lemma_near_members(orig, at.0, at.1);
            let near = orig.near(at.0, at.1);
            assert(near.contains(q));
            let k = choose|k: int| 0 <= k < near.len() && near[k] == q;
            assert(reached(orig, seen, pending, near[k]));
        } else {
            assert(Some(p) != Some(at));
        }
    }
}

/// When the work list is empty, the board is the flooded one.
pub(crate) proof fn lemma_flood_finish(orig: Board, cur: Board, start: (int, int), seen: Seq<bool>)
    requires
        flood_progress(orig, cur, start, seen, Seq::empty()),
        flood_spread(orig, seen, Seq::empty(), None),
    ensures
        cur == orig.flooded(start.0, start.1),
{
    let done = orig.flooded(start.0, start.1);
    let inside = Set::new(|q: (int, int)| orig.valid(q.0, q.1) && seen[orig.index(q.0, q.1)]);
    let nothing = Seq::<(int, int)>::empty();
    assert forall|p: (int, int), q: (int, int)|
        inside.contains(p) && orig.mines_near(p.0, p.1) == 0 && #[trigger] adjacent(p, q)
            && orig.covered(q) implies inside.contains(q) by {
        assert(reached(orig, seen, nothing, q));
    }
    assert(orig.covered(start) ==> inside.contains(start)) by {
        if orig.covered(start) {
            assert(reached(orig, seen, nothing, start));
        }
    }
    assert forall|i: int| 0 <= i < orig.tiles.len() implies cur.tiles[i] == done.tiles[i] by {
        let q = orig.position(i);
        lemma_position_of_index(orig, i);
        if orig.floods(start, q) {
            lemma_flood_closed(orig, start, inside, q);
            assert(seen[i]);
        }
        if seen[i] {
            assert(orig.floods(start, q));
        }
    }
    assert(cur.tiles =~= done.tiles);
}

} // verus!
