//! Sequence-level model of the board: linear indexing, columns, and the
//! compaction/refill vocabulary (`solids`, `resolved`, `potential`) together
//! with the lemmas the board's proofs rest on.

use vstd::prelude::*;

verus! {

use crate::color::BoardColor;

/// The length of a side of the board.
pub const BOARD_SIZE: usize = 10;

/// The number of cells of the board.
pub const CELL_COUNT: usize = BOARD_SIZE * BOARD_SIZE;

/// The linear index of the cell at column `x`, row `y` (row 0 is the bottom).
pub open spec fn cell_index(x: int, y: int) -> int {
    y * (BOARD_SIZE as int) + x
}

/// Distinct in-range coordinates have distinct linear indices.
pub proof fn lemma_cell_index_injective(x1: int, y1: int, x2: int, y2: int)
    requires
        0 <= x1 < BOARD_SIZE as int,
        0 <= y1 < BOARD_SIZE as int,
        0 <= x2 < BOARD_SIZE as int,
        0 <= y2 < BOARD_SIZE as int,
        cell_index(x1, y1) == cell_index(x2, y2),
    ensures
        x1 == x2 && y1 == y2,
{
}

/// Writing the cell at `(x, y)` changes no other cell.
pub proof fn lemma_cell_update_frame(dots: Seq<BoardColor>, x: int, y: int, c: BoardColor)
    requires
        dots.len() == CELL_COUNT,
        0 <= x < BOARD_SIZE as int,
        0 <= y < BOARD_SIZE as int,
    ensures
        dots.update(cell_index(x, y), c)[cell_index(x, y)] == c,
        forall|xx: int, yy: int|
            0 <= xx < BOARD_SIZE as int && 0 <= yy < BOARD_SIZE as int && (xx != x || yy != y)
                ==> dots.update(cell_index(x, y), c)[#[trigger] cell_index(xx, yy)]
                == dots[cell_index(xx, yy)],
{
    assert forall|xx: int, yy: int|
        0 <= xx < BOARD_SIZE as int && 0 <= yy < BOARD_SIZE as int && (xx != x || yy
            != y) implies dots.update(cell_index(x, y), c)[cell_index(xx, yy)] == dots[cell_index(
        xx,
        yy,
    )] by {
        if cell_index(xx, yy) == cell_index(x, y) {
            lemma_cell_index_injective(xx, yy, x, y);
        }
    }
}

/// Column `x` of a linearly stored board, bottom row first.
pub open spec fn column_of(dots: Seq<BoardColor>, x: int) -> Seq<BoardColor> {
    Seq::new(BOARD_SIZE as nat, |y: int| dots[cell_index(x, y)])
}

/// Two boards that agree on every cell of column `x` have the same column `x`.
pub proof fn lemma_column_of_agree(a: Seq<BoardColor>, b: Seq<BoardColor>, x: int)
    requires
        forall|y: int| 0 <= y < BOARD_SIZE as int ==> a[#[trigger] cell_index(x, y)] == b[cell_index(x, y)],
    ensures
        column_of(a, x) == column_of(b, x),
{
    assert(column_of(a, x) =~= column_of(b, x));
}

/// The non-`Empty` cells of a column, in bottom-to-top order.
pub open spec fn solids(s: Seq<BoardColor>) -> Seq<BoardColor>
    decreases s.len(),
{
    if s.len() == 0 {
        Seq::empty()
    } else if s.first() == BoardColor::Empty {
        solids(s.drop_first())
    } else {
        seq![s.first()] + solids(s.drop_first())
    }
}

/// A column is resolved when every `Empty` cell has only `Empty` cells above
/// it: the solid block sits at the bottom, the empty run at the top.
pub open spec fn resolved(s: Seq<BoardColor>) -> bool {
    forall|y1: int, y2: int|
        0 <= y1 < y2 < s.len() && s[y1] == BoardColor::Empty ==> s[y2] == BoardColor::Empty
}

/// Sum over the `Empty` cells of their distance to the top of the column; a
/// compaction swap moves an `Empty` cell up one row and lowers this by one.
pub open spec fn potential(s: Seq<BoardColor>) -> nat
    decreases s.len(),
{
    if s.len() == 0 {
        0
    } else {
        (if s.first() == BoardColor::Empty {
            (s.len() - 1) as nat
        } else {
            0
        }) + potential(s.drop_first())
    }
}

/// How many cells of `s` hold color `c`.
pub open spec fn count_color(s: Seq<BoardColor>, c: BoardColor) -> int
    decreases s.len(),
{
    if s.len() == 0 {
        0
    } else {
        count_color(s.drop_last(), c) + (if s.last() == c {
            1int
        } else {
            0int
        })
    }
}

pub proof fn lemma_count_color_bound(s: Seq<BoardColor>, c: BoardColor)
    ensures
        0 <= count_color(s, c) <= s.len(),
    decreases s.len(),
{
    if s.len() > 0 {
        lemma_count_color_bound(s.drop_last(), c);
    }
}

/// Extending a prefix by one element raises the count by one exactly when the
/// element has the counted color.
pub proof fn lemma_count_color_step(s: Seq<BoardColor>, i: int, c: BoardColor)
    requires
        0 <= i < s.len(),
    ensures
        count_color(s.take(i + 1), c) == count_color(s.take(i), c) + (if s[i] == c {
            1int
        } else {
            0int
        }),
{
    assert(s.take(i + 1).drop_last() =~= s.take(i));
    assert(s.take(i + 1).last() == s[i]);
}

pub proof fn lemma_solids_len(s: Seq<BoardColor>)
    ensures
        solids(s).len() <= s.len(),
    decreases s.len(),
{
    if s.len() > 0 {
        lemma_solids_len(s.drop_first());
    }
}

/// A column whose rows below `b` are all solid and whose rows from `b` on are
/// all `Empty` has exactly its bottom `b` rows as its solids.
pub proof fn lemma_solids_boundary(s: Seq<BoardColor>, b: int)
    requires
        0 <= b <= s.len(),
        forall|r: int| 0 <= r < b ==> s[r] != BoardColor::Empty,
        forall|r: int| b <= r < s.len() ==> s[r] == BoardColor::Empty,
    ensures
        solids(s) == s.subrange(0, b),
    decreases s.len(),
{
    if s.len() == 0 {
        assert(solids(s) =~= s.subrange(0, b));
    } else if b == 0 {
        assert(s.first() == BoardColor::Empty);
        lemma_solids_boundary(s.drop_first(), 0);
        assert(solids(s) =~= s.subrange(0, 0));
    } else {
        assert(s.first() != BoardColor::Empty);
        lemma_solids_boundary(s.drop_first(), b - 1);
        assert(seq![s.first()] + s.drop_first().subrange(0, b - 1) =~= s.subrange(0, b));
    }
}

/// Swapping an `Empty` cell with the cell above it does not change the column's
/// solids.
pub proof fn lemma_solids_swap(s: Seq<BoardColor>, y: int)
    requires
        0 <= y,
        y + 1 < s.len(),
        s[y] == BoardColor::Empty,
    ensures
        solids(s.update(y, s[y + 1]).update(y + 1, BoardColor::Empty)) == solids(s),
    decreases y,
{
    let t = s.update(y, s[y + 1]).update(y + 1, BoardColor::Empty);
    if s[y + 1] == BoardColor::Empty {
        assert(t =~= s);
    } else if y == 0 {
        let v = s[1];
        assert(t.first() == v);
        assert(t.drop_first().first() == BoardColor::Empty);
        assert(t.drop_first().drop_first() =~= s.drop_first().drop_first());
        assert(s.drop_first().first() == v);
        assert(solids(t) == seq![v] + solids(t.drop_first()));
        assert(solids(t.drop_first()) == solids(t.drop_first().drop_first()));
        assert(solids(s) == solids(s.drop_first()));
        assert(solids(s.drop_first()) == seq![v] + solids(s.drop_first().drop_first()));
    } else {
        let sd = s.drop_first();
        assert(t.drop_first() =~= sd.update(y - 1, sd[y]).update(y, BoardColor::Empty));
        assert(sd[y - 1] == BoardColor::Empty);
        lemma_solids_swap(sd, y - 1);
        assert(t.first() == s.first());
        if s.first() == BoardColor::Empty {
            assert(solids(t) == solids(t.drop_first()));
            assert(solids(s) == solids(sd));
        } else {
            assert(solids(t) == seq![t.first()] + solids(t.drop_first()));
            assert(solids(s) == seq![s.first()] + solids(sd));
        }
    }
}

/// Overwriting one cell shifts the potential by the weight lost at the old
/// color and gained at the new one.
pub proof fn lemma_potential_update(s: Seq<BoardColor>, i: int, v: BoardColor)
    requires
        0 <= i < s.len(),
    ensures
        potential(s.update(i, v)) + (if s[i] == BoardColor::Empty {
            s.len() - 1 - i
        } else {
            0int
        }) == potential(s) + (if v == BoardColor::Empty {
            s.len() - 1 - i
        } else {
            0int
        }),
    decreases i,
{
    let t = s.update(i, v);
    if i == 0 {
        assert(t.drop_first() =~= s.drop_first());
        assert(t.first() == v);
    } else {
        assert(t.drop_first() =~= s.drop_first().update(i - 1, v));
        lemma_potential_update(s.drop_first(), i - 1, v);
        assert(t.first() == s.first());
    }
}

/// Swapping an `Empty` cell with a solid cell above it lowers the potential by
/// exactly one.
pub proof fn lemma_potential_swap(s: Seq<BoardColor>, y: int)
    requires
        0 <= y,
        y + 1 < s.len(),
        s[y] == BoardColor::Empty,
        s[y + 1] != BoardColor::Empty,
    ensures
        potential(s.update(y, s[y + 1]).update(y + 1, BoardColor::Empty)) + 1 == potential(s),
{
    let s1 = s.update(y, s[y + 1]);
    lemma_potential_update(s, y, s[y + 1]);
    assert(s1[y + 1] == s[y + 1]);
    lemma_potential_update(s1, y + 1, BoardColor::Empty);
}

/// Any `Empty` at row `r` is followed by an `Empty` at row `r + 1`.
pub open spec fn empty_rises_at(s: Seq<BoardColor>, r: int) -> bool {
    s[r] == BoardColor::Empty ==> s[r + 1] == BoardColor::Empty
}

proof fn lemma_chain_reaches(s: Seq<BoardColor>, y1: int, y2: int)
    requires
        forall|r: int| 0 <= r < s.len() - 1 ==> #[trigger] empty_rises_at(s, r),
        0 <= y1 < y2 < s.len(),
        s[y1] == BoardColor::Empty,
    ensures
        s[y2] == BoardColor::Empty,
    decreases y2 - y1,
{
    assert(empty_rises_at(s, y1));
    if y1 + 1 < y2 {
        lemma_chain_reaches(s, y1 + 1, y2);
    }
}

/// If no `Empty` cell sits directly below a solid cell, the column is
/// resolved.
pub proof fn lemma_chain_resolved(s: Seq<BoardColor>)
    requires
        forall|r: int| 0 <= r < s.len() - 1 ==> #[trigger] empty_rises_at(s, r),
    ensures
        resolved(s),
{
    assert forall|y1: int, y2: int|
        0 <= y1 < y2 < s.len() && s[y1] == BoardColor::Empty implies s[y2]
        == BoardColor::Empty by {
        lemma_chain_reaches(s, y1, y2);
    }
}

/// Column `x` of `after` starts with the solids of column `x` of `before`.
pub open spec fn column_refilled(before: Seq<BoardColor>, after: Seq<BoardColor>, x: int) -> bool {
    column_of(after, x).subrange(0, solids(column_of(before, x)).len() as int) == solids(
        column_of(before, x),
    )
}

/// `after` is `before` with every column compacted and refilled: each column
/// keeps its non-`Empty` cells at the bottom in their order, and no cell of
/// `after` is `Empty`.
pub open spec fn refilled_from(before: Seq<BoardColor>, after: Seq<BoardColor>) -> bool {
    &&& after.len() == CELL_COUNT
    &&& forall|i: int| 0 <= i < after.len() ==> #[trigger] after[i] != BoardColor::Empty
    &&& forall|x: int| 0 <= x < BOARD_SIZE as int ==> #[trigger] column_refilled(before, after, x)
}

} // verus!
