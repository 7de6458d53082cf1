//! What holds of the operations of a minefield, whatever the field: each
//! law is proved from the model that the operations' contracts are stated
//! over.

use vstd::prelude::*;
use crate::board::{
    adjacent, count_flags, lemma_count_flags_bound, lemma_count_flags_update,
    lemma_count_flags_zero, lemma_count_mines_bound, lemma_count_mines_same,
    lemma_count_mines_update, lemma_index_of_position, lemma_near_members,
    lemma_position_of_index, uncovered, Board,
};
use crate::flood::{
    lemma_flood_covered, lemma_flood_start, lemma_flood_step, lemma_flooded_opened,
    lemma_opened_mines_near, lemma_opened_form,
};

verus! {

/// Toggling the flag of a tile twice gives back the board, flag counter
/// included; toggling the flag of a visible tile changes nothing.
pub proof fn law_toggle_twice(b: Board, row: int, column: int)
    requires
        b.shaped(),
        b.flags_counted(),
        b.valid(row, column),
    ensures
        b.toggled(row, column).toggled(row, column) == b,
        b.tile(row, column).state is Visible ==> b.toggled(row, column) == b,
        b.form_kept(b.toggled(row, column)),
{
    lemma_index_of_position(b, row, column);
    let index = b.index(row, column);
    let once = b.toggled(row, column);
    let twice = once.toggled(row, column);
    if b.tiles[index].state is Flagged {
        lemma_count_flags_zero(b.tiles);
    }
    assert(twice.tiles =~= b.tiles);
    lemma_count_flags_update(b.tiles, index, once.tiles[index]);
    lemma_count_mines_update(b.tiles, index, once.tiles[index]);
    assert(once.tiles =~= b.tiles.update(index, once.tiles[index]));
}

/// A way that a flood can take on a board with some hidden tiles opened is
/// a way that it can take on the board as it was.
pub proof fn lemma_flood_path_before(b: Board, later: Board, path: Seq<(int, int)>)
    requires
        b.shaped(),
        b.opened_into(later),
        later.flood_path(path),
    ensures
        b.flood_path(path),
{
    assert forall|i: int| 0 <= i < path.len() implies b.covered(#[trigger] path[i]) by {
        let q = path[i];
        assert(later.covered(q));
        lemma_index_of_position(b, q.0, q.1);
        let at = b.index(q.0, q.1);
        assert(later.tiles[at] == b.tiles[at] || later.tiles[at] == uncovered(b.tiles[at]));
    }
    assert forall|i: int, j: int| 0 <= i && j == i + 1 && j < path.len() implies #[trigger] b.spreads(
        path[i],
        path[j],
    ) by {
        assert(later.spreads(path[i], path[j]));
        lemma_opened_mines_near(b, later, path[i].0, path[i].1);
    }
}

/// A flood opens every hidden tile that it can reach from its start over
/// covered tiles with no mine next to them, the hidden tiles next to those
/// included, and it leaves no tile of such a way hidden.
pub proof fn law_flood_opens_what_it_reaches(
    b: Board,
    row: int,
    column: int,
    path: Seq<(int, int)>,
    step: int,
)
    requires
        b.shaped(),
        b.flood_path(path),
        path[0] == (row, column),
        0 <= step < path.len(),
    ensures
        b.flooded(row, column).tile(path[step].0, path[step].1) == uncovered(
            b.tile(path[step].0, path[step].1),
        ),
        b.tile(path[step].0, path[step].1).state is Hidden ==> b.flooded(row, column).tile(
            path[step].0,
            path[step].1,
        ).state is Visible,
{
    let to = path[step];
    let front = path.take(step + 1);
    assert(b.flood_path(front)) by {
        assert forall|i: int| 0 <= i < front.len() implies b.covered(#[trigger] front[i]) by {
            assert(front[i] == path[i]);
        }
        assert forall|i: int, j: int|
            0 <= i && j == i + 1 && j < front.len() implies #[trigger] b.spreads(
            front[i],
            front[j],
        ) by {
            assert(b.spreads(path[i], path[j]));
        }
    }
    assert(front[0] == (row, column) && front.last() == to);
    assert(b.floods((row, column), to));
    assert(b.covered(to)) by {
        assert(b.covered(path[step]));
    }
    lemma_index_of_position(b, to.0, to.1);
}

/// A flood changes a tile only if it reaches it, and then the tile was
/// hidden and is visible: nothing is opened but along ways that pass, up to
/// their last tile, over tiles with no mine next to them.
pub proof fn law_flood_opens_nothing_else(b: Board, row: int, column: int, index: int)
    requires
        0 <= index < b.tiles.len(),
        b.flooded(row, column).tiles[index] != b.tiles[index],
    ensures
        b.floods((row, column), b.position(index)),
        b.tiles[index].state is Hidden,
        b.flooded(row, column).tiles[index].state is Visible,
        b.flooded(row, column).tiles[index].has_mine == b.tiles[index].has_mine,
{
}

/// A flood from a tile with a mine next to it goes no further than that
/// tile, and a flood from a visible tile does nothing.
pub proof fn law_flood_stops_at_the_border(b: Board, row: int, column: int)
    requires
        b.shaped(),
        b.valid(row, column),
    ensures
        b.mines_near(row, column) > 0 ==> b.flooded(row, column) == b.dug(row, column),
        b.tile(row, column).state is Visible ==> b.flooded(row, column) == b,
{
    let start = (row, column);
    let after = b.flooded(row, column);
    lemma_index_of_position(b, row, column);
    if b.tile(row, column).state is Visible {
        assert forall|i: int| 0 <= i < b.tiles.len() implies after.tiles[i] == b.tiles[i] by {
            if b.floods(start, b.position(i)) {
                lemma_flood_covered(b, start, b.position(i));
            }
        }
        assert(after.tiles =~= b.tiles);
        assert(b.dug(row, column).tiles =~= b.tiles);
    } else if b.mines_near(row, column) > 0 {
        lemma_flood_start(b, start);
        assert forall|i: int| 0 <= i < b.tiles.len() implies after.tiles[i] == b.dug(
            row,
            column,
        ).tiles[i] by {
            let to = b.position(i);
            lemma_position_of_index(b, i);
            if b.floods(start, to) {
                let path = choose|path: Seq<(int, int)>|
                    #[trigger] b.flood_path(path) && path[0] == start && path.last() == to;
                if path.len() > 1 {
                    assert(b.spreads(path[0], path[1]));
                }
            }
        }
        assert(after.tiles =~= b.dug(row, column).tiles);
    }
}

/// Flooding twice from one position gives what flooding once gives.
pub proof fn law_flood_idempotent(b: Board, row: int, column: int)
    requires
        b.shaped(),
    ensures
        b.flooded(row, column).flooded(row, column) == b.flooded(row, column),
{
    let start = (row, column);
    let once = b.flooded(row, column);
    let twice = once.flooded(row, column);
    lemma_flooded_opened(b, row, column);
    assert forall|i: int| 0 <= i < once.tiles.len() implies twice.tiles[i] == once.tiles[i] by {
        let to = once.position(i);
        if once.floods(start, to) {
            let path = choose|path: Seq<(int, int)>|
                #[trigger] once.flood_path(path) && path[0] == start && path.last() == to;
            lemma_flood_path_before(b, once, path);
            assert(b.floods(start, to));
        }
    }
    assert(twice.tiles =~= once.tiles);
}

/// Opening hidden tiles, and then more of them, is opening hidden tiles.
pub proof fn lemma_opened_twice(a: Board, b: Board, c: Board)
    requires
        a.opened_into(b),
        b.opened_into(c),
    ensures
        a.opened_into(c),
{
    assert forall|i: int| 0 <= i < a.tiles.len() implies #[trigger] c.tiles[i] == a.tiles[i]
        || c.tiles[i] == uncovered(a.tiles[i]) by {
        assert(b.tiles[i] == a.tiles[i] || b.tiles[i] == uncovered(a.tiles[i]));
        assert(c.tiles[i] == b.tiles[i] || c.tiles[i] == uncovered(b.tiles[i]));
    }
}

/// A flood from each of some positions opens hidden tiles only, keeps the
/// board as well formed as it was, and leaves none of those positions hidden.
pub proof fn lemma_flooded_each(b: Board, cells: Seq<(int, int)>)
    requires
        b.shaped(),
        forall|k: int| 0 <= k < cells.len() ==> b.valid((#[trigger] cells[k]).0, cells[k].1),
    ensures
        b.opened_into(b.flooded_each(cells)),
        b.form_kept(b.flooded_each(cells)),
        forall|k: int|
            0 <= k < cells.len() ==> !(b.flooded_each(cells).tile(
                (#[trigger] cells[k]).0,
                cells[k].1,
            ).state is Hidden),
    decreases cells.len(),
{
    if cells.len() > 0 {
        let front = cells.drop_last();
        let last = cells.last();
        let before = b.flooded_each(front);
        let after = b.flooded_each(cells);
        assert forall|k: int| 0 <= k < front.len() implies b.valid(
            (#[trigger] front[k]).0,
            front[k].1,
        ) by {
            assert(front[k] == cells[k]);
        }
        lemma_flooded_each(b, front);
        lemma_flooded_opened(before, last.0, last.1);
        lemma_opened_twice(b, before, after);
        assert(before.valid(last.0, last.1)) by {
            assert(cells[cells.len() - 1] == last);
        }
        assert forall|k: int| 0 <= k < cells.len() implies !(after.tile(
            (#[trigger] cells[k]).0,
            cells[k].1,
        ).state is Hidden) by {
            let q = cells[k];
            lemma_index_of_position(before, q.0, q.1);
            let at = before.index(q.0, q.1);
            assert(after.tiles[at] == before.tiles[at] || after.tiles[at] == uncovered(
                before.tiles[at],
            ));
            if k < front.len() {
                assert(front[k] == q);
            } else if before.covered(q) {
                lemma_flood_start(before, q);
            }
        }
    } else {
        assert(b.tiles =~= b.flooded_each(cells).tiles);
    }
}

/// A flood that reaches the first tile of a way that a flood can take
/// reaches every tile of that way.
pub proof fn lemma_flood_along(b: Board, start: (int, int), path: Seq<(int, int)>, upto: int)
    requires
        b.flood_path(path),
        b.floods(start, path[0]),
        0 <= upto < path.len(),
    ensures
        b.floods(start, path[upto]),
    decreases upto,
{
    if upto > 0 {
        lemma_flood_along(b, start, path, upto - 1);
        assert(b.spreads(path[upto - 1], path[upto]));
        assert(b.covered(path[upto]));
        lemma_flood_step(b, start, path[upto - 1], path[upto]);
    }
}

/// The end of a way that a flood can take is a way that a flood can take.
pub proof fn lemma_flood_path_end(b: Board, path: Seq<(int, int)>, from: int)
    requires
        b.flood_path(path),
        0 <= from < path.len(),
    ensures
        b.flood_path(path.skip(from)),
        path.skip(from)[0] == path[from],
        path.skip(from).last() == path.last(),
{
    let end = path.skip(from);
    assert forall|i: int| 0 <= i < end.len() implies b.covered(#[trigger] end[i]) by {
        assert(end[i] == path[from + i]);
    }
    assert forall|i: int, j: int| 0 <= i && j == i + 1 && j < end.len() implies #[trigger] b.spreads(
        end[i],
        end[j],
    ) by {
        assert(b.spreads(path[from + i], path[from + j]));
    }
}

/// One flood after another opens what the floods open together: after a
/// flood from each of some positions, first to last, exactly those hidden
/// tiles are visible that a flood from one of the positions reaches on the
/// board as it was.
pub proof fn law_floods_open_their_union(b: Board, cells: Seq<(int, int)>)
    requires
        b.shaped(),
    ensures
        b.flooded_each(cells) == b.flooded_from_any(cells),
    decreases cells.len(),
{
    let all = b.flooded_from_any(cells);
    if cells.len() == 0 {
        assert(b.tiles =~= all.tiles);
    } else {
        let front = cells.drop_last();
        let last = cells.last();
        let before = b.flooded_each(front);
        let after = b.flooded_each(cells);
        law_floods_open_their_union(b, front);
        assert(b.opened_into(before));
        lemma_opened_form(b, before);
        assert forall|i: int| 0 <= i < b.tiles.len() implies after.tiles[i] == all.tiles[i] by {
            let to = b.position(i);
            lemma_position_of_index(b, i);
            if b.floods_from_any(front, to) {
                let k = choose|k: int| 0 <= k < front.len() && #[trigger] b.floods(front[k], to);
                assert(b.floods(cells[k], to));
            } else if b.floods(last, to) {
                assert(b.floods(cells[cells.len() - 1], to));
                let path = choose|path: Seq<(int, int)>|
                    #[trigger] b.flood_path(path) && path[0] == last && path.last() == to;
                assert forall|m: int| 0 <= m < path.len() implies before.covered(
                    #[trigger] path[m],
                ) by {
                    let via = path[m];
                    assert(b.covered(via));
                    lemma_index_of_position(b, via.0, via.1);
                    if b.floods_from_any(front, via) {
                        let k = choose|k: int|
                            0 <= k < front.len() && #[trigger] b.floods(front[k], via);
                        lemma_flood_path_end(b, path, m);
                        lemma_flood_along(b, front[k], path.skip(m), path.len() - m - 1);
                        assert(b.floods(front[k], to));
                        assert(false);
                    }
                }
                assert forall|m: int, n: int|
                    0 <= m && n == m + 1 && n < path.len() implies #[trigger] before.spreads(
                    path[m],
                    path[n],
                ) by {
                    assert(b.spreads(path[m], path[n]));
                    lemma_opened_mines_near(b, before, path[m].0, path[m].1);
                }
                assert(before.flood_path(path));
                assert(before.floods(last, to));
            } else {
                if before.floods(last, to) {
                    let path = choose|path: Seq<(int, int)>|
                        #[trigger] before.flood_path(path) && path[0] == last && path.last() == to;
                    lemma_flood_path_before(b, before, path);
                    assert(b.floods(last, to));
                }
                assert forall|k: int| 0 <= k < cells.len() implies !b.floods(
                    #[trigger] cells[k],
                    to,
                ) by {
                    if k < front.len() {
                        assert(front[k] == cells[k]);
                    }
                }
            }
        }
        assert(after.tiles =~= all.tiles);
    }
}

/// A chord that applies opens exactly the hidden tiles that a flood from
/// one of the hidden neighbours reaches.
pub proof fn law_chord_opens_the_union(b: Board, row: int, column: int)
    requires
        b.shaped(),
        b.chord_applies(row, column),
    ensures
        b.chorded(row, column) == b.flooded_from_any(b.hidden_near(row, column)),
{
    law_floods_open_their_union(b, b.hidden_near(row, column));
}

/// A chord keeps the board as well formed as it was and opens hidden tiles
/// only.
pub proof fn law_chord_opens_only(b: Board, row: int, column: int)
    requires
        b.shaped(),
        b.valid(row, column),
    ensures
        b.opened_into(b.chorded(row, column)),
        b.form_kept(b.chorded(row, column)),
        !b.chord_applies(row, column) ==> b.chorded(row, column) == b,
{
    lemma_hidden_near_members(b, row, column);
    lemma_flooded_each(b, b.hidden_near(row, column));
}

/// The hidden neighbours of a position are its neighbours that are hidden.
pub proof fn lemma_hidden_near_members(b: Board, row: int, column: int)
    ensures
        forall|q: (int, int)|
            b.hidden_near(row, column).contains(q) <==> b.valid(q.0, q.1) && adjacent(
                (row, column),
                q,
            ) && b.tile(q.0, q.1).state is Hidden,
        forall|k: int|
            0 <= k < b.hidden_near(row, column).len() ==> b.valid(
                (#[trigger] b.hidden_near(row, column)[k]).0,
                b.hidden_near(row, column)[k].1,
            ),
{
    let near = b.near(row, column);
    let is_hidden = |p: (int, int)| b.tile(p.0, p.1).state is Hidden;
    let hidden = b.hidden_near(row, column);
    lemma_near_members(b, row, column);
    assert forall|q: (int, int)| hidden.contains(q) <==> b.valid(q.0, q.1) && adjacent(
        (row, column),
        q,
    ) && b.tile(q.0, q.1).state is Hidden by {
        if hidden.contains(q) {
            near.lemma_filter_contains_rev(is_hidden, q);
            let k = choose|k: int| 0 <= k < hidden.len() && hidden[k] == q;
            near.lemma_filter_pred(is_hidden, k);
        }
        if near.contains(q) && is_hidden(q) {
            let k = choose|k: int| 0 <= k < near.len() && near[k] == q;
            near.lemma_filter_contains(is_hidden, k);
        }
    }
    assert forall|k: int| 0 <= k < hidden.len() implies b.valid(
        (#[trigger] hidden[k]).0,
        hidden[k].1,
    ) by {
        assert(hidden.contains(hidden[k]));
    }
}

/// A chord on a visible tile that has as many flags next to it as mines
/// opens every hidden neighbour of that tile.
pub proof fn law_chord_opens_neighbours(b: Board, row: int, column: int, near: (int, int))
    requires
        b.shaped(),
        b.valid(row, column),
        b.chord_applies(row, column),
        b.valid(near.0, near.1),
        adjacent((row, column), near),
        b.tile(near.0, near.1).state is Hidden,
    ensures
        b.chorded(row, column).tile(near.0, near.1).state is Visible,
{
    let hidden = b.hidden_near(row, column);
    let after = b.chorded(row, column);
    lemma_hidden_near_members(b, row, column);
    lemma_flooded_each(b, hidden);
    assert(hidden.contains(near));
    let k = choose|k: int| 0 <= k < hidden.len() && hidden[k] == near;
    assert(!(after.tile(hidden[k].0, hidden[k].1).state is Hidden));
    lemma_index_of_position(b, near.0, near.1);
    let at = b.index(near.0, near.1);
    assert(after.tiles[at] == b.tiles[at] || after.tiles[at] == uncovered(b.tiles[at]));
}

/// The end of a game leaves no tile hidden, shows every flag that stands on
/// no mine, and keeps every flag that stands on one; the board stays well
/// formed.
pub proof fn law_game_over_reveals(b: Board, index: int)
    requires
        0 <= index < b.tiles.len(),
    ensures
        b.form_kept(b.revealed()),
        b.revealed().flags_counted(),
        b.revealed().tiles[index].has_mine == b.tiles[index].has_mine,
        b.tiles[index].state is Flagged && b.tiles[index].has_mine ==> b.revealed().tiles[index]
            == b.tiles[index],
        !(b.tiles[index].state is Flagged && b.tiles[index].has_mine)
            ==> b.revealed().tiles[index].state is Visible,
{
    lemma_count_mines_same(b.tiles, b.revealed().tiles);
}

/// On a well-formed board neither counter exceeds the number of tiles, and
/// the mines and the tiles without one make up the board.
pub proof fn law_counters_agree(b: Board)
    requires
        b.wf(),
    ensures
        b.flags == count_flags(b.tiles),
        b.flags <= b.tiles.len(),
        b.mines <= b.tiles.len(),
        b.mines + b.free() == b.tiles.len(),
{
    lemma_count_flags_bound(b.tiles);
    lemma_count_mines_bound(b.tiles);
}

} // verus!
