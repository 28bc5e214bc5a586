//! Rules pieces of a territory game: move generation, stone placement and
//! the capture of surrounded groups.
//!
//! The win and tie tests are placeholders: real territory scoring is out
//! of scope. The capture test is verified to terminate, and captures are
//! characterised exactly: a stone is removed precisely when its
//! orthogonally connected group has no adjacent empty cell.

use vstd::prelude::*;

use crate::game::GameState;
use crate::game_elements::{board_view, BoardCell, Player, MAX_PLAYERS};

verus! {

/// How many entries of a row of visit marks are set.
pub open spec fn row_true(s: Seq<bool>) -> int
    decreases s.len(),
{
    if s.len() == 0 {
        0
    } else {
        row_true(s.drop_last()) + if s.last() {
            1int
        } else {
            0int
        }
    }
}

/// How many visit marks are set on the whole grid.
pub open spec fn count_true(v: Seq<Seq<bool>>) -> int
    decreases v.len(),
{
    if v.len() == 0 {
        0
    } else {
        count_true(v.drop_last()) + row_true(v.last())
    }
}

/// How many cells the grid has in all.
pub open spec fn total_cells(v: Seq<Seq<bool>>) -> int
    decreases v.len(),
{
    if v.len() == 0 {
        0
    } else {
        total_cells(v.drop_last()) + v.last().len()
    }
}

pub proof fn lemma_row_true_bounds(s: Seq<bool>)
    ensures
        0 <= row_true(s) <= s.len(),
    decreases s.len(),
{
    if s.len() > 0 {
        lemma_row_true_bounds(s.drop_last());
    }
}

pub proof fn lemma_count_true_bounds(v: Seq<Seq<bool>>)
    ensures
        0 <= count_true(v) <= total_cells(v),
    decreases v.len(),
{
    if v.len() > 0 {
        lemma_count_true_bounds(v.drop_last());
        lemma_row_true_bounds(v.last());
    }
}

pub proof fn lemma_row_true_update(s: Seq<bool>, c: int)
    requires
        0 <= c < s.len(),
        !s[c],
    ensures
        row_true(s.update(c, true)) == row_true(s) + 1,
    decreases s.len(),
{
    let u = s.update(c, true);
    if c == s.len() - 1 {
        assert(u.drop_last() =~= s.drop_last());
    } else {
        assert(u.drop_last() =~= s.drop_last().update(c, true));
        lemma_row_true_update(s.drop_last(), c);
        assert(u.last() == s.last());
    }
}

pub proof fn lemma_count_true_update(v: Seq<Seq<bool>>, r: int, c: int)
    requires
        0 <= r < v.len(),
        0 <= c < v[r].len(),
        !v[r][c],
    ensures
        count_true(v.update(r, v[r].update(c, true))) == count_true(v) + 1,
        total_cells(v.update(r, v[r].update(c, true))) == total_cells(v),
    decreases v.len(),
{
    let u = v.update(r, v[r].update(c, true));
    if r == v.len() - 1 {
        assert(u.drop_last() =~= v.drop_last());
        lemma_row_true_update(v.last(), c);
    } else {
        assert(u.drop_last() =~= v.drop_last().update(r, v[r].update(c, true)));
        lemma_count_true_update(v.drop_last(), r, c);
        assert(u.last() == v.last());
    }
}

/// The visit marks cover the board cell for cell.
pub open spec fn marks_match(b: Seq<Seq<BoardCell>>, v: Seq<Seq<bool>>) -> bool {
    &&& v.len() == b.len()
    &&& forall|r: int| 0 <= r < v.len() ==> (#[trigger] v[r]).len() == b[r].len()
}

/// A fresh grid of visit marks, one unset mark per board cell.
fn fresh_marks(board: &Vec<Vec<BoardCell>>) -> (v: Vec<Vec<bool>>)
    ensures
        marks_match(board_view(board@), marks_view(v@)),
        count_true(marks_view(v@)) == 0,
        forall|rc: (int, int)| cell_in(board_view(board@), rc) ==> !marked(marks_view(v@), rc),
{
    let mut v: Vec<Vec<bool>> = Vec::new();
    let mut r: usize = 0;
    while r < board.len()
        invariant
            r <= board@.len(),
            v@.len() == r,
            forall|r2: int| 0 <= r2 < r ==> (#[trigger] marks_view(v@)[r2]).len() == board_view(
                board@,
            )[r2].len(),
            count_true(marks_view(v@)) == 0,
            forall|r2: int, c2: int|
                0 <= r2 < r && 0 <= c2 < marks_view(v@)[r2].len() ==> !marks_view(v@)[r2][c2],
        decreases board@.len() - r,
    {
        let row = &board[r];
        let mut marks: Vec<bool> = Vec::new();
        let mut c: usize = 0;
        while c < row.len()
            invariant
                c <= row@.len(),
                marks@.len() == c,
                forall|c2: int| 0 <= c2 < c ==> !marks@[c2],
            decreases row@.len() - c,
        {
            marks.push(false);
            c += 1;
        }
        proof {
            lemma_row_true_zero(marks@);
            lemma_count_true_push(marks_view(v@), marks@);
            assert(board_view(board@)[r as int] == board@[r as int]@);
        }
        let ghost prev = marks_view(v@);
        v.push(marks);
        proof {
            assert forall|r2: int| 0 <= r2 < r + 1 implies (#[trigger] marks_view(v@)[r2]) == (
            if r2 < r {
                prev[r2]
            } else {
                marks@
            }) by {
                assert(marks_view(v@)[r2] == v@[r2]@);
                if r2 < r {
                    assert(prev[r2] == v@[r2]@);
                }
            }
            assert(marks_view(v@) =~= prev.push(marks@));
        }
        r += 1;
    }
    v
}

/// A row of unset marks counts zero.
pub proof fn lemma_row_true_zero(s: Seq<bool>)
    requires
        forall|i: int| 0 <= i < s.len() ==> !s[i],
    ensures
        row_true(s) == 0,
    decreases s.len(),
{
    if s.len() > 0 {
        lemma_row_true_zero(s.drop_last());
    }
}

pub proof fn lemma_count_true_push(v: Seq<Seq<bool>>, row: Seq<bool>)
    ensures
        count_true(v.push(row)) == count_true(v) + row_true(row),
        total_cells(v.push(row)) == total_cells(v) + row.len(),
{
    assert(v.push(row).drop_last() =~= v);
}

/// The view of a grid of visit marks.
pub open spec fn marks_view(v: Seq<Vec<bool>>) -> Seq<Seq<bool>> {
    v.map_values(|row: Vec<bool>| row@)
}

/// Whether a cell lies on the board.
pub open spec fn cell_in(b: Seq<Seq<BoardCell>>, rc: (int, int)) -> bool {
    0 <= rc.0 < b.len() && 0 <= rc.1 < b[rc.0].len()
}

/// Whether the visit mark of a cell is set.
pub open spec fn marked(v: Seq<Seq<bool>>, rc: (int, int)) -> bool {
    v[rc.0][rc.1]
}

/// Orthogonal neighbourhood of two cells.
pub open spec fn adjacent(a: (int, int), b2: (int, int)) -> bool {
    ||| (a.0 == b2.0 && (a.1 == b2.1 + 1 || a.1 + 1 == b2.1))
    ||| (a.1 == b2.1 && (a.0 == b2.0 + 1 || a.0 + 1 == b2.0))
}

/// A chain of same-valued cells: every cell on the board holding `stone`,
/// consecutive cells orthogonally adjacent.
pub open spec fn stone_path(b: Seq<Seq<BoardCell>>, p: Seq<(int, int)>, stone: BoardCell) -> bool {
    &&& p.len() >= 1
    &&& forall|i: int|
        0 <= i < p.len() ==> cell_in(b, #[trigger] p[i]) && b[p[i].0][p[i].1] == stone
    &&& forall|i: int| 1 <= i < p.len() ==> adjacent(p[i - 1], #[trigger] p[i])
}

/// The group of `from` reaches `to`: a chain of cells holding the value of
/// `from` connects the two.
pub open spec fn reaches(b: Seq<Seq<BoardCell>>, from: (int, int), to: (int, int)) -> bool {
    exists|p: Seq<(int, int)>|
        stone_path(b, p, b[from.0][from.1]) && p[0] == from && p.last() == to
}

/// A liberty of the group of `rc`: an empty cell orthogonally adjacent to
/// some cell the group reaches.
pub open spec fn group_has_liberty(b: Seq<Seq<BoardCell>>, rc: (int, int)) -> bool {
    exists|to: (int, int), nb: (int, int)|
        reaches(b, rc, to) && adjacent(to, nb) && cell_in(b, nb) && b[nb.0][nb.1] is None
}

/// The local face of a libertyless group at one of its cells: no adjacent
/// cell on the board is empty, and every adjacent cell holding the same
/// value is marked.
pub open spec fn group_closed_at(b: Seq<Seq<BoardCell>>, v: Seq<Seq<bool>>, rc: (int, int)) -> bool {
    forall|nb: (int, int)|
        #[trigger] adjacent(rc, nb) && cell_in(b, nb) ==> !(b[nb.0][nb.1] is None) && (b[nb.0][
            nb.1
        ] == b[rc.0][rc.1] ==> marked(v, nb))
}

/// A group adjacent to a group with a liberty, holding the same value,
/// shares that liberty.
pub proof fn lemma_liberty_lift(b: Seq<Seq<BoardCell>>, from: (int, int), via: (int, int))
    requires
        cell_in(b, from),
        cell_in(b, via),
        adjacent(from, via),
        b[via.0][via.1] == b[from.0][from.1],
        group_has_liberty(b, via),
    ensures
        group_has_liberty(b, from),
{
    let (to, nb) = choose|to: (int, int), nb: (int, int)|
        reaches(b, via, to) && adjacent(to, nb) && cell_in(b, nb) && b[nb.0][nb.1] is None;
    let p = choose|p: Seq<(int, int)>|
        stone_path(b, p, b[via.0][via.1]) && p[0] == via && p.last() == to;
    let p2 = seq![from] + p;
    assert forall|i: int| 0 <= i < p2.len() implies cell_in(b, #[trigger] p2[i]) && b[p2[i].0][
        p2[i].1
    ] == b[from.0][from.1] by {
        if i > 0 {
            assert(p2[i] == p[i - 1]);
        }
    }
    assert forall|i: int| 1 <= i < p2.len() implies adjacent(p2[i - 1], #[trigger] p2[i]) by {
        if i == 1 {
            assert(p2[0] == from && p2[1] == p[0]);
        } else {
            assert(p2[i - 1] == p[i - 2] && p2[i] == p[i - 1]);
        }
    }
    assert(stone_path(b, p2, b[from.0][from.1]));
    assert(p2[0] == from && p2.last() == to);
    assert(reaches(b, from, to));
}

/// The closed-face property survives the growth of the visit marks.
pub proof fn lemma_closed_mono(
    b: Seq<Seq<BoardCell>>,
    v1: Seq<Seq<bool>>,
    v2: Seq<Seq<bool>>,
    rc: (int, int),
)
    requires
        group_closed_at(b, v1, rc),
        forall|rc2: (int, int)| cell_in(b, rc2) && marked(v1, rc2) ==> marked(v2, rc2),
    ensures
        group_closed_at(b, v2, rc),
{
    assert forall|nb: (int, int)| #[trigger] adjacent(rc, nb) && cell_in(b, nb) implies !(b[nb.0][
        nb.1
    ] is None) && (b[nb.0][nb.1] == b[rc.0][rc.1] ==> marked(v2, nb)) by {
        assert(!(b[nb.0][nb.1] is None));
    }
}

/// Every cell of a chain that starts at a marked cell is marked, provided
/// the marks are closed at every marked cell and all marked cells hold the
/// chain's value.
proof fn lemma_path_stays_marked(
    b: Seq<Seq<BoardCell>>,
    v: Seq<Seq<bool>>,
    p: Seq<(int, int)>,
    stone: BoardCell,
    i: int,
)
    requires
        stone_path(b, p, stone),
        marked(v, p[0]),
        forall|rc: (int, int)| cell_in(b, rc) && #[trigger] marked(v, rc) ==> group_closed_at(
            b,
            v,
            rc,
        ),
        0 <= i < p.len(),
    ensures
        marked(v, p[i]),
    decreases i,
{
    if i > 0 {
        lemma_path_stays_marked(b, v, p, stone, i - 1);
        assert(adjacent(p[i - 1], p[i]));
        assert(group_closed_at(b, v, p[i - 1]));
        assert(b[p[i].0][p[i].1] == stone && b[p[i - 1].0][p[i - 1].1] == stone);
    }
}

/// Visit marks that are closed at every marked cell and cover only cells of
/// the start's value witness that the start's group has no liberty.
pub proof fn lemma_marks_capture(b: Seq<Seq<BoardCell>>, v: Seq<Seq<bool>>, start: (int, int))
    requires
        cell_in(b, start),
        marked(v, start),
        forall|rc: (int, int)| cell_in(b, rc) && #[trigger] marked(v, rc) ==> group_closed_at(
            b,
            v,
            rc,
        ),
    ensures
        !group_has_liberty(b, start),
{
    if group_has_liberty(b, start) {
        let (to, nb) = choose|to: (int, int), nb: (int, int)|
            reaches(b, start, to) && adjacent(to, nb) && cell_in(b, nb) && b[nb.0][nb.1] is None;
        let p = choose|p: Seq<(int, int)>|
            stone_path(b, p, b[start.0][start.1]) && p[0] == start && p.last() == to;
        lemma_path_stays_marked(b, v, p, b[start.0][start.1], p.len() - 1);
        assert(marked(v, to));
        assert(group_closed_at(b, v, to));
        assert(false);
    }
}

/// Folding one child search into its caller's bookkeeping: the marks only
/// grew, every new mark holds the caller's value, and every mark set since
/// the caller marked its own cell has a closed face.
proof fn lemma_child_step(
    b: Seq<Seq<BoardCell>>,
    m0: Seq<Seq<bool>>,
    m1: Seq<Seq<bool>>,
    mp: Seq<Seq<bool>>,
    cur: Seq<Seq<bool>>,
    rc0: (int, int),
    child: (int, int),
)
    requires
        cell_in(b, rc0),
        cell_in(b, child),
        b[child.0][child.1] == b[rc0.0][rc0.1],
        forall|rc: (int, int)| cell_in(b, rc) && #[trigger] marked(m0, rc) ==> marked(mp, rc),
        forall|rc: (int, int)|
            cell_in(b, rc) && #[trigger] marked(mp, rc) && !marked(m0, rc) ==> b[rc.0][rc.1]
                == b[rc0.0][rc0.1],
        forall|rc: (int, int)|
            cell_in(b, rc) && #[trigger] marked(mp, rc) && !marked(m1, rc) ==> group_closed_at(
                b,
                mp,
                rc,
            ),
        forall|rc: (int, int)| cell_in(b, rc) && #[trigger] marked(mp, rc) ==> marked(cur, rc),
        forall|rc: (int, int)|
            cell_in(b, rc) && #[trigger] marked(cur, rc) && !marked(mp, rc) ==> b[rc.0][rc.1]
                == b[child.0][child.1],
        forall|rc: (int, int)|
            cell_in(b, rc) && #[trigger] marked(cur, rc) && !marked(mp, rc) ==> group_closed_at(
                b,
                cur,
                rc,
            ),
    ensures
        forall|rc: (int, int)| cell_in(b, rc) && #[trigger] marked(m0, rc) ==> marked(cur, rc),
        forall|rc: (int, int)|
            cell_in(b, rc) && #[trigger] marked(cur, rc) && !marked(m0, rc) ==> b[rc.0][rc.1]
                == b[rc0.0][rc0.1],
        forall|rc: (int, int)|
            cell_in(b, rc) && #[trigger] marked(cur, rc) && !marked(m1, rc) ==> group_closed_at(
                b,
                cur,
                rc,
            ),
{
    assert forall|rc: (int, int)|
        cell_in(b, rc) && #[trigger] marked(cur, rc) && !marked(m1, rc) implies group_closed_at(
        b,
        cur,
        rc,
    ) by {
        if marked(mp, rc) {
            lemma_closed_mono(b, mp, cur, rc);
        }
    }
}

/// The same folding on a path that only needs the growth and value facts.
proof fn lemma_child_chain(
    b: Seq<Seq<BoardCell>>,
    m0: Seq<Seq<bool>>,
    mp: Seq<Seq<bool>>,
    cur: Seq<Seq<bool>>,
    rc0: (int, int),
    child: (int, int),
)
    requires
        cell_in(b, rc0),
        cell_in(b, child),
        b[child.0][child.1] == b[rc0.0][rc0.1],
        forall|rc: (int, int)| cell_in(b, rc) && #[trigger] marked(m0, rc) ==> marked(mp, rc),
        forall|rc: (int, int)|
            cell_in(b, rc) && #[trigger] marked(mp, rc) && !marked(m0, rc) ==> b[rc.0][rc.1]
                == b[rc0.0][rc0.1],
        forall|rc: (int, int)| cell_in(b, rc) && #[trigger] marked(mp, rc) ==> marked(cur, rc),
        forall|rc: (int, int)|
            cell_in(b, rc) && #[trigger] marked(cur, rc) && !marked(mp, rc) ==> b[rc.0][rc.1]
                == b[child.0][child.1],
    ensures
        forall|rc: (int, int)| cell_in(b, rc) && #[trigger] marked(m0, rc) ==> marked(cur, rc),
        forall|rc: (int, int)|
            cell_in(b, rc) && #[trigger] marked(cur, rc) && !marked(m0, rc) ==> b[rc.0][rc.1]
                == b[rc0.0][rc0.1],
{
}

/// Flood-fill test of whether the group containing `(row, col)` has no
/// liberty: the search walks same-valued neighbours, marking each visited
/// cell, and reports a liberty as soon as an adjacent empty cell turns up.
/// A cell already visited counts as captured, as the surrounding search
/// frames settle its fate. A `false` answer always comes with a liberty of
/// the cell's group; a `true` answer leaves the marks closed around every
/// newly visited cell, which, starting from fresh marks, pins the group
/// down as libertyless.
pub fn is_captured(
    board: &Vec<Vec<BoardCell>>,
    row: usize,
    col: usize,
    visited: &mut Vec<Vec<bool>>,
) -> (r: bool)
    requires
        marks_match(board_view(board@), marks_view(old(visited)@)),
        (row as int) < board_view(board@).len(),
        (col as int) < board_view(board@)[row as int].len(),
    ensures
        marks_match(board_view(board@), marks_view(final(visited)@)),
        count_true(marks_view(final(visited)@)) >= count_true(marks_view(old(visited)@)),
        total_cells(marks_view(final(visited)@)) == total_cells(marks_view(old(visited)@)),
        forall|rc: (int, int)|
            cell_in(board_view(board@), rc) && #[trigger] marked(
                marks_view(old(visited)@),
                rc,
            ) ==> marked(marks_view(final(visited)@), rc),
        forall|rc: (int, int)|
            cell_in(board_view(board@), rc) && #[trigger] marked(marks_view(final(visited)@), rc)
                && !marked(marks_view(old(visited)@), rc) ==> board_view(board@)[rc.0][rc.1]
                == board_view(board@)[row as int][col as int],
        !r ==> group_has_liberty(board_view(board@), (row as int, col as int)),
        r ==> marked(marks_view(final(visited)@), (row as int, col as int)) && (forall|
            rc: (int, int),
        |
            cell_in(board_view(board@), rc) && #[trigger] marked(marks_view(final(visited)@), rc)
                && !marked(marks_view(old(visited)@), rc) ==> group_closed_at(
                board_view(board@),
                marks_view(final(visited)@),
                rc,
            )),
        r && (forall|rc: (int, int)|
            cell_in(board_view(board@), rc) ==> !marked(marks_view(old(visited)@), rc))
            ==> !group_has_liberty(board_view(board@), (row as int, col as int)),
    decreases total_cells(marks_view(visited@)) - count_true(marks_view(visited@)),
{
    let ghost b = board_view(board@);
    let ghost rc0 = (row as int, col as int);
    let ghost m0 = marks_view(visited@);
    proof {
        lemma_count_true_bounds(m0);
        assert(m0[row as int] == visited@[row as int]@);
        assert(b[row as int] == board@[row as int]@);
    }
    if visited[row][col] {
        proof {
            assert(marked(m0, rc0));
            assert(cell_in(b, rc0));
        }
        return true;
    }
    proof {
        lemma_count_true_update(m0, row as int, col as int);
    }
    visited[row][col] = true;
    proof {
        assert forall|r2: int| 0 <= r2 < marks_view(visited@).len() implies (
        #[trigger] marks_view(visited@)[r2]) =~= (if r2 == row {
            m0[r2].update(col as int, true)
        } else {
            m0[r2]
        }) by {}
        assert(marks_view(visited@) =~~= m0.update(
            row as int,
            m0[row as int].update(col as int, true),
        ));
        assert(count_true(marks_view(visited@)) == count_true(m0) + 1);
        assert(marks_match(b, marks_view(visited@)));
    }
    let ghost m1 = marks_view(visited@);
    proof {
        assert(marked(m1, rc0));
        assert forall|rc: (int, int)|
            cell_in(b, rc) && #[trigger] marked(m1, rc) && !marked(m0, rc) implies rc == rc0 by {}
    }
    let stone = board[row][col];

    // Up.
    if row > 0 {
        proof {
            assert(b[row - 1] == board@[row - 1]@);
        }
        if col < board[row - 1].len() {
            let cell = board[row - 1][col];
            if cell.is_none() {
                proof {
                    lemma_single_cell_liberty(b, rc0, ((row - 1) as int, col as int));
                }
                return false;
            }
            if cells_equal(cell, stone) {
                proof {
                    lemma_count_true_bounds(marks_view(visited@));
                }
                let ghost mp = marks_view(visited@);
                let up_captured = is_captured(board, row - 1, col, visited);
                if !up_captured {
                    proof {
                        lemma_child_chain(
                            b,
                            m0,
                            mp,
                            marks_view(visited@),
                            rc0,
                            ((row - 1) as int, col as int),
                        );
                        lemma_liberty_lift(b, rc0, ((row - 1) as int, col as int));
                    }
                    return false;
                }
                proof {
                    lemma_child_step(
                        b,
                        m0,
                        m1,
                        mp,
                        marks_view(visited@),
                        rc0,
                        ((row - 1) as int, col as int),
                    );
                }
            }
        }
    }
    proof {
        assert(cell_in(b, ((row - 1) as int, col as int)) ==> !(b[row - 1][col as int] is None)
            && (b[row - 1][col as int] == b[rc0.0][rc0.1] ==> marked(
            marks_view(visited@),
            ((row - 1) as int, col as int),
        )));
    }

    // Down.
    if row < board.len() - 1 {
        proof {
            assert(b[row + 1] == board@[row + 1]@);
        }
        if col < board[row + 1].len() {
            let cell = board[row + 1][col];
            if cell.is_none() {
                proof {
                    lemma_single_cell_liberty(b, rc0, ((row + 1) as int, col as int));
                }
                return false;
            }
            if cells_equal(cell, stone) {
                proof {
                    lemma_count_true_bounds(marks_view(visited@));
                }
                let ghost mp = marks_view(visited@);
                let down_captured = is_captured(board, row + 1, col, visited);
                if !down_captured {
                    proof {
                        lemma_child_chain(
                            b,
                            m0,
                            mp,
                            marks_view(visited@),
                            rc0,
                            ((row + 1) as int, col as int),
                        );
                        lemma_liberty_lift(b, rc0, ((row + 1) as int, col as int));
                    }
                    return false;
                }
                proof {
                    lemma_child_step(
                        b,
                        m0,
                        m1,
                        mp,
                        marks_view(visited@),
                        rc0,
                        ((row + 1) as int, col as int),
                    );
                }
            }
        }
    }
    proof {
        assert(cell_in(b, ((row + 1) as int, col as int)) ==> !(b[row + 1][col as int] is None)
            && (b[row + 1][col as int] == b[rc0.0][rc0.1] ==> marked(
            marks_view(visited@),
            ((row + 1) as int, col as int),
        )));
    }

    // Left.
    if col > 0 {
        let cell = board[row][col - 1];
        if cell.is_none() {
            proof {
                lemma_single_cell_liberty(b, rc0, (row as int, (col - 1) as int));
            }
            return false;
        }
        if cells_equal(cell, stone) {
            proof {
                lemma_count_true_bounds(marks_view(visited@));
            }
            let ghost mp = marks_view(visited@);
            let left_captured = is_captured(board, row, col - 1, visited);
            if !left_captured {
                proof {
                    lemma_child_chain(
                        b,
                        m0,
                        mp,
                        marks_view(visited@),
                        rc0,
                        (row as int, (col - 1) as int),
                    );
                    lemma_liberty_lift(b, rc0, (row as int, (col - 1) as int));
                }
                return false;
            }
            proof {
                lemma_child_step(
                    b,
                    m0,
                    m1,
                    mp,
                    marks_view(visited@),
                    rc0,
                    (row as int, (col - 1) as int),
                );
            }
        }
    }
    proof {
        assert(cell_in(b, (row as int, (col - 1) as int)) ==> !(b[row as int][col - 1] is None)
            && (b[row as int][col - 1] == b[rc0.0][rc0.1] ==> marked(
            marks_view(visited@),
            (row as int, (col - 1) as int),
        )));
    }

    // Right.
    if col < board[row].len() - 1 {
        let cell = board[row][col + 1];
        if cell.is_none() {
            proof {
                lemma_single_cell_liberty(b, rc0, (row as int, (col + 1) as int));
            }
            return false;
        }
        if cells_equal(cell, stone) {
            proof {
                lemma_count_true_bounds(marks_view(visited@));
            }
            let ghost mp = marks_view(visited@);
            let right_captured = is_captured(board, row, col + 1, visited);
            if !right_captured {
                proof {
                    lemma_child_chain(
                        b,
                        m0,
                        mp,
                        marks_view(visited@),
                        rc0,
                        (row as int, (col + 1) as int),
                    );
                    lemma_liberty_lift(b, rc0, (row as int, (col + 1) as int));
                }
                return false;
            }
            proof {
                lemma_child_step(
                    b,
                    m0,
                    m1,
                    mp,
                    marks_view(visited@),
                    rc0,
                    (row as int, (col + 1) as int),
                );
            }
        }
    }
    proof {
        assert(cell_in(b, (row as int, (col + 1) as int)) ==> !(b[row as int][col + 1] is None)
            && (b[row as int][col + 1] == b[rc0.0][rc0.1] ==> marked(
            marks_view(visited@),
            (row as int, (col + 1) as int),
        )));
    }

    proof {
        let mv = marks_view(visited@);
        assert(group_closed_at(b, mv, rc0)) by {
            assert forall|nb: (int, int)| #[trigger] adjacent(rc0, nb) && cell_in(b, nb) implies !(
            b[nb.0][nb.1] is None) && (b[nb.0][nb.1] == b[rc0.0][rc0.1] ==> marked(mv, nb)) by {
                assert(nb == ((row - 1) as int, col as int) || nb == ((row + 1) as int, col as int)
                    || nb == (row as int, (col - 1) as int) || nb == (
                    row as int,
                    (col + 1) as int,
                ));
            }
        }
        assert forall|rc: (int, int)|
            cell_in(b, rc) && #[trigger] marked(mv, rc) && !marked(m0, rc) implies group_closed_at(
            b,
            mv,
            rc,
        ) by {
            if rc != rc0 {
                assert(marked(mv, rc) && !marked(m1, rc));
            }
        }
        if forall|rc: (int, int)| cell_in(b, rc) ==> !marked(m0, rc) {
            assert forall|rc: (int, int)|
                cell_in(b, rc) && #[trigger] marked(mv, rc) implies group_closed_at(
                b,
                mv,
                rc,
            ) by {}
            lemma_marks_capture(b, mv, rc0);
        }
    }
    true
}

/// An empty cell next to a cell is a liberty of that cell's group.
proof fn lemma_single_cell_liberty(b: Seq<Seq<BoardCell>>, rc0: (int, int), nb: (int, int))
    requires
        cell_in(b, rc0),
        cell_in(b, nb),
        adjacent(rc0, nb),
        b[nb.0][nb.1] is None,
    ensures
        group_has_liberty(b, rc0),
{
    let p = seq![rc0];
    assert(stone_path(b, p, b[rc0.0][rc0.1]));
    assert(p[0] == rc0 && p.last() == rc0);
    assert(reaches(b, rc0, rc0));
}

/// Whether two cells hold the same content.
fn cells_equal(a: BoardCell, b: BoardCell) -> (r: bool)
    ensures
        r == (a == b),
{
    match (a, b) {
        (Option::None, Option::None) => true,
        (Option::Some(pa), Option::Some(pb)) => pa == pb,
        _ => false,
    }
}


/// Remove every captured stone of `player`: a cell is cleared exactly
/// when it holds a stone of `player` whose group has no liberty on the
/// entry board; every other cell is unchanged.
pub fn remove_captured_stones(board: &mut Vec<Vec<BoardCell>>, player: Player)
    ensures
        board_view(final(board)@).len() == board_view(old(board)@).len(),
        forall|r: int| 0 <= r < board_view(final(board)@).len() ==> (#[trigger] board_view(
            final(board)@,
        )[r]).len() == board_view(old(board)@)[r].len(),
        forall|r: int, c: int|
            0 <= r < board_view(old(board)@).len() && 0 <= c < board_view(old(board)@)[r].len()
                ==> board_view(final(board)@)[r][c] == (if board_view(old(board)@)[r][c] == Some(
                player,
            ) && !group_has_liberty(board_view(old(board)@), (r, c)) {
                Option::<Player>::None
            } else {
                board_view(old(board)@)[r][c]
            }),
{
    let ghost b0 = board_view(board@);
    let mut to_remove: Vec<(usize, usize)> = Vec::new();
    let mut r: usize = 0;
    while r < board.len()
        invariant
            r <= board@.len(),
            b0 == board_view(board@),
            forall|k: int|
                0 <= k < to_remove@.len() ==> 0 <= (#[trigger] to_remove@[k]).0 < b0.len()
                    && 0 <= to_remove@[k].1 < b0[to_remove@[k].0 as int].len() && b0[
                    to_remove@[k].0 as int
                ][to_remove@[k].1 as int] == Some(player) && !group_has_liberty(
                    b0,
                    (to_remove@[k].0 as int, to_remove@[k].1 as int),
                ),
            forall|r2: int, c2: int|
                0 <= r2 < r && 0 <= c2 < b0[r2].len() && b0[r2][c2] == Some(player)
                    && !group_has_liberty(b0, (r2, c2)) ==> listed(to_remove@, (r2, c2)),
        decreases board@.len() - r,
    {
        let width = board[r].len();
        let mut c: usize = 0;
        while c < width
            invariant
                c <= width,
                r < board@.len(),
                b0 == board_view(board@),
                width == b0[r as int].len(),
                forall|k: int|
                    0 <= k < to_remove@.len() ==> 0 <= (#[trigger] to_remove@[k]).0 < b0.len()
                        && 0 <= to_remove@[k].1 < b0[to_remove@[k].0 as int].len() && b0[
                        to_remove@[k].0 as int
                    ][to_remove@[k].1 as int] == Some(player) && !group_has_liberty(
                        b0,
                        (to_remove@[k].0 as int, to_remove@[k].1 as int),
                    ),
                forall|r2: int, c2: int|
                    0 <= r2 < r && 0 <= c2 < b0[r2].len() && b0[r2][c2] == Some(player)
                        && !group_has_liberty(b0, (r2, c2)) ==> listed(to_remove@, (r2, c2)),
                forall|c2: int|
                    0 <= c2 < c && b0[r as int][c2] == Some(player) && !group_has_liberty(
                        b0,
                        (r as int, c2),
                    ) ==> listed(to_remove@, (r as int, c2)),
            decreases width - c,
        {
            proof {
                assert(b0[r as int] == board@[r as int]@);
            }
            let ghost listed_before = to_remove@;
            let is_stone = cells_equal(board[r][c], Option::Some(player));
            if is_stone {
                let mut visited = fresh_marks(board);
                if is_captured(board, r, c, &mut visited) {
                    proof {
                        let mv = marks_view(visited@);
                        assert forall|rc: (int, int)|
                            cell_in(b0, rc) && #[trigger] marked(mv, rc) implies group_closed_at(
                            b0,
                            mv,
                            rc,
                        ) by {}
                        lemma_marks_capture(b0, mv, (r as int, c as int));
                    }
                    to_remove.push((r, c));
                    proof {
                        assert(to_remove@[to_remove@.len() - 1] == ((r, c)));
                        assert(listed(to_remove@, (r as int, c as int)));
                    }
                } else {
                    proof {
                        assert(group_has_liberty(b0, (r as int, c as int)));
                    }
                }
            }
            proof {
                assert forall|r2: int, c2: int|
                    0 <= r2 < r && 0 <= c2 < b0[r2].len() && b0[r2][c2] == Some(player)
                        && !group_has_liberty(b0, (r2, c2)) implies listed(
                    to_remove@,
                    (r2, c2),
                ) by {
                    lemma_listed_grows(listed_before, to_remove@, (r2, c2));
                }
                assert forall|c2: int|
                    0 <= c2 < c + 1 && b0[r as int][c2] == Some(player) && !group_has_liberty(
                        b0,
                        (r as int, c2),
                    ) implies listed(to_remove@, (r as int, c2)) by {
                    if c2 < c {
                        lemma_listed_grows(listed_before, to_remove@, (r as int, c2));
                    }
                }
            }
            c += 1;
        }
        r += 1;
    }

    let mut idx: usize = 0;
    while idx < to_remove.len()
        invariant
            idx <= to_remove@.len(),
            board_view(board@).len() == b0.len(),
            forall|r2: int| 0 <= r2 < b0.len() ==> (#[trigger] board_view(board@)[r2]).len()
                == b0[r2].len(),
            forall|k: int|
                0 <= k < to_remove@.len() ==> 0 <= (#[trigger] to_remove@[k]).0 < b0.len()
                    && 0 <= to_remove@[k].1 < b0[to_remove@[k].0 as int].len() && b0[
                    to_remove@[k].0 as int
                ][to_remove@[k].1 as int] == Some(player) && !group_has_liberty(
                    b0,
                    (to_remove@[k].0 as int, to_remove@[k].1 as int),
                ),
            forall|r2: int, c2: int|
                0 <= r2 < b0.len() && 0 <= c2 < b0[r2].len() && b0[r2][c2] == Some(player)
                    && !group_has_liberty(b0, (r2, c2)) ==> listed(to_remove@, (r2, c2)),
            forall|r2: int, c2: int|
                0 <= r2 < b0.len() && 0 <= c2 < b0[r2].len() ==> board_view(board@)[r2][c2] == (
                if exists|i: int|
                    0 <= i < idx && ((#[trigger] to_remove@[i]).0 as int, to_remove@[i].1 as int)
                        == (r2, c2) {
                    Option::<Player>::None
                } else {
                    b0[r2][c2]
                }),
        decreases to_remove@.len() - idx,
    {
        let (rr, cc) = to_remove[idx];
        proof {
            assert(to_remove@[idx as int] == ((rr, cc)));
            assert(board_view(board@)[rr as int] == board@[rr as int]@);
        }
        let ghost before = board_view(board@);
        board[rr][cc] = Option::None;
        proof {
            assert forall|r2: int| 0 <= r2 < b0.len() implies (#[trigger] board_view(board@)[r2])
                =~= (if r2 == rr {
                before[r2].update(cc as int, Option::<Player>::None)
            } else {
                before[r2]
            }) by {}
            assert forall|r2: int, c2: int|
                0 <= r2 < b0.len() && 0 <= c2 < b0[r2].len() implies board_view(board@)[r2][c2]
                == (if exists|i: int|
                0 <= i < idx + 1 && ((#[trigger] to_remove@[i]).0 as int, to_remove@[i].1 as int)
                    == (r2, c2) {
                Option::<Player>::None
            } else {
                b0[r2][c2]
            }) by {
                if r2 == rr && c2 == cc {
                    assert(((to_remove@[idx as int]).0 as int, to_remove@[idx as int].1 as int)
                        == (r2, c2));
                } else {
                    if exists|i: int|
                        0 <= i < idx + 1 && ((#[trigger] to_remove@[i]).0 as int,
                        to_remove@[i].1 as int) == (r2, c2) {
                        let i = choose|i: int|
                            0 <= i < idx + 1 && ((#[trigger] to_remove@[i]).0 as int,
                            to_remove@[i].1 as int) == (r2, c2);
                        assert(i < idx);
                    }
                }
            }
        }
        idx += 1;
    }
    proof {
        assert forall|r2: int, c2: int|
            0 <= r2 < b0.len() && 0 <= c2 < b0[r2].len() implies board_view(board@)[r2][c2] == (
        if b0[r2][c2] == Some(player) && !group_has_liberty(b0, (r2, c2)) {
            Option::<Player>::None
        } else {
            b0[r2][c2]
        }) by {
            if b0[r2][c2] == Some(player) && !group_has_liberty(b0, (r2, c2)) {
                assert(listed(to_remove@, (r2, c2)));
                let k = choose|k: int|
                    0 <= k < to_remove@.len() && ((#[trigger] to_remove@[k]).0 as int,
                    to_remove@[k].1 as int) == (r2, c2);
                assert(((to_remove@[k]).0 as int, to_remove@[k].1 as int) == (r2, c2));
            } else {
                if exists|i: int|
                    0 <= i < to_remove@.len() && ((#[trigger] to_remove@[i]).0 as int,
                    to_remove@[i].1 as int) == (r2, c2) {
                    let i = choose|i: int|
                        0 <= i < to_remove@.len() && ((#[trigger] to_remove@[i]).0 as int,
                        to_remove@[i].1 as int) == (r2, c2);
                    assert(b0[r2][c2] == Some(player) && !group_has_liberty(b0, (r2, c2)));
                }
            }
        }
    }
}

/// Whether the list of cells to clear holds the given cell.
pub open spec fn listed(l: Seq<(usize, usize)>, rc: (int, int)) -> bool {
    exists|k: int| 0 <= k < l.len() && ((#[trigger] l[k]).0 as int, l[k].1 as int) == rc
}

/// Membership in the removal list survives pushing further cells.
proof fn lemma_listed_grows(l1: Seq<(usize, usize)>, l2: Seq<(usize, usize)>, rc: (int, int))
    requires
        listed(l1, rc),
        l1.len() <= l2.len(),
        forall|k: int| 0 <= k < l1.len() ==> l1[k] == l2[k],
    ensures
        listed(l2, rc),
{
    let k = choose|k: int| 0 <= k < l1.len() && ((#[trigger] l1[k]).0 as int, l1[k].1 as int) == rc;
    assert(((l2[k]).0 as int, l2[k].1 as int) == rc);
}

/// Move generation for the territory game: every empty cell may receive a
/// stone.
pub open spec fn row_empties_upto(b: Seq<Seq<BoardCell>>, r: usize, c: nat) -> Seq<(usize, usize)>
    decreases c,
{
    if c == 0 {
        Seq::empty()
    } else {
        row_empties_upto(b, r, (c - 1) as nat) + if b[r as int][c - 1] is None {
            seq![(r, (c - 1) as usize)]
        } else {
            Seq::empty()
        }
    }
}

pub open spec fn empties_upto(b: Seq<Seq<BoardCell>>, r: nat) -> Seq<(usize, usize)>
    decreases r,
{
    if r == 0 {
        Seq::empty()
    } else {
        empties_upto(b, (r - 1) as nat) + row_empties_upto(
            b,
            (r - 1) as usize,
            b[r - 1].len() as nat,
        )
    }
}

/// Move generation of the territory game, as a capability of its own.
pub struct GoValidMoves;

impl GoValidMoves {
    /// The legal moves: one per empty cell, scanned row by row.
    pub fn get_valid_moves(&self, board: &Vec<Vec<BoardCell>>) -> (moves: Vec<(usize, usize)>)
        ensures
            moves@ == empties_upto(board_view(board@), board_view(board@).len() as nat),
    {
        let ghost b = board_view(board@);
        let mut moves: Vec<(usize, usize)> = Vec::new();
        let mut r: usize = 0;
        while r < board.len()
            invariant
                r <= board@.len(),
                b == board_view(board@),
                moves@ == empties_upto(b, r as nat),
            decreases board@.len() - r,
        {
            let row = &board[r];
            proof {
                assert(b[r as int] == board@[r as int]@);
            }
            let mut c: usize = 0;
            while c < row.len()
                invariant
                    c <= row@.len(),
                    r < board@.len(),
                    b == board_view(board@),
                    row == board@[r as int],
                    row@ == b[r as int],
                    moves@ == empties_upto(b, r as nat) + row_empties_upto(b, r, c as nat),
                decreases row@.len() - c,
            {
                if row[c].is_none() {
                    moves.push((r, c));
                }
                proof {
                    if b[r as int][c as int] is None {
                        assert(moves@ =~= empties_upto(b, r as nat) + row_empties_upto(
                            b,
                            r,
                            (c + 1) as nat,
                        ));
                    } else {
                        assert(moves@ =~= empties_upto(b, r as nat) + row_empties_upto(
                            b,
                            r,
                            (c + 1) as nat,
                        ));
                    }
                }
                c += 1;
            }
            proof {
                assert(moves@ =~= empties_upto(b, (r + 1) as nat));
            }
            r += 1;
        }
        moves
    }
}

/// The territory game's transition, as a capability of its own: place the
/// stone, then remove the opponent's captured groups. An opponent stone is
/// cleared exactly when its group on the placed board has no liberty.
pub struct GoTransitionFunction;

impl GoTransitionFunction {
    pub fn transition(
        &self,
        state: &GameState,
        num_players: usize,
        move_row: usize,
        move_col: usize,
    ) -> (next: GameState)
        requires
            (move_row as int) < state.pos().board.len(),
            (move_col as int) < state.pos().board[move_row as int].len(),
            0 <= state.to_move.spec_idx() < num_players,
            num_players <= MAX_PLAYERS,
            state.move_num < usize::MAX,
        ensures
            next.pos().to_move.spec_idx() == (state.pos().to_move.spec_idx() + 1) % (
            num_players as int),
            next.pos().move_num == state.pos().move_num + 1,
            next.prev_state is None,
            ({
                let placed = state.pos().board.update(
                    move_row as int,
                    state.pos().board[move_row as int].update(
                        move_col as int,
                        Some(state.pos().to_move),
                    ),
                );
                let opponent = if state.pos().to_move == Player::Player0 {
                    Player::Player1
                } else {
                    Player::Player0
                };
                &&& next.pos().board.len() == placed.len()
                &&& (forall|r: int| 0 <= r < placed.len() ==> (#[trigger] next.pos().board[
                    r
                ]).len() == placed[r].len())
                &&& (forall|r: int, c: int|
                    0 <= r < placed.len() && 0 <= c < placed[r].len() ==> next.pos().board[r][c]
                        == (if placed[r][c] == Some(opponent) && !group_has_liberty(
                        placed,
                        (r, c),
                    ) {
                        Option::<Player>::None
                    } else {
                        placed[r][c]
                    }))
            }),
    {
        let ghost b = state.pos().board;
        let current = state.get_to_move();
        let mut board_copy = crate::game::clone_board(state.get_board());
        proof {
            assert(b[move_row as int] == state.board@[move_row as int]@);
            assert(board_view(board_copy@)[move_row as int] == board_copy@[move_row as int]@);
        }
        let ghost before = board_view(board_copy@);
        board_copy[move_row][move_col] = Option::Some(current);
        proof {
            assert forall|r2: int| 0 <= r2 < b.len() implies (#[trigger] board_view(board_copy@)[
            r2]) =~= (if r2 == move_row {
                before[r2].update(move_col as int, Some(state.pos().to_move))
            } else {
                before[r2]
            }) by {}
            assert(board_view(board_copy@) =~~= b.update(
                move_row as int,
                b[move_row as int].update(move_col as int, Some(state.pos().to_move)),
            ));
        }

        // Remove captured stones of the opponent.
        let opponent = if current.to_usize() == 0 {
            Player::Player1
        } else {
            Player::Player0
        };
        remove_captured_stones(&mut board_copy, opponent);

        let next_idx = (current.to_usize() + 1) % num_players;
        GameState::new(
            Player::from_index(next_idx),
            state.get_move_num() + 1,
            board_copy,
        )
    }
}

/// The territory game's win test: real scoring (territory and captures) is
/// out of scope, so no position reports a win.
pub struct GoWinCondition;

impl GoWinCondition {
    pub fn is_win(&self, state: &GameState, player: Player) -> (r: bool)
        ensures
            !r,
    {
        false
    }
}

/// The territory game's tie test: a placeholder like the win test.
pub struct GoTieCondition;

impl GoTieCondition {
    pub fn is_tie(&self, state: &GameState) -> (r: bool)
        ensures
            !r,
    {
        false
    }
}

} // verus!
