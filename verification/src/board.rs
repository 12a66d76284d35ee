//! The board/session state machine: grid storage, trail validation, loop
//! detection, match resolution, compaction and refill, scoring.

use vstd::prelude::*;

verus! {

use crate::color::BoardColor;
use crate::grid::{
    BOARD_SIZE, CELL_COUNT, cell_index, column_of, column_refilled, count_color, empty_rises_at,
    lemma_cell_index_injective, lemma_cell_update_frame, lemma_chain_resolved, lemma_column_of_agree,
    lemma_count_color_bound, lemma_count_color_step, lemma_potential_swap, lemma_solids_boundary,
    lemma_solids_len, lemma_solids_swap, potential, refilled_from, resolved, solids,
};
use vstd::set_lib::{lemma_int_range, lemma_len_subset, set_int_range};

/// The number of moves that are allowed to be played in a single game.
pub const MOVE_LIMIT: usize = 30;

/// The coordinates are orthogonally adjacent: Manhattan distance exactly one.
pub open spec fn adjacent(ax: int, ay: int, bx: int, by: int) -> bool {
    (ax == bx && (ay == by + 1 || ay + 1 == by)) || (ay == by && (ax == bx + 1 || ax + 1 == bx))
}

/// Whether some entry of `t` references the cell at linear index `i`.
pub open spec fn trail_covers(t: Seq<(usize, usize)>, i: int) -> bool {
    exists|j: int| 0 <= j < t.len() && cell_index(t[j].0 as int, t[j].1 as int) == i
}

/// The full mutable game state: grid, trail, score and moves remaining.
pub struct BoardState {
    /// The board, stored linearly; the cell at column `x`, row `y` sits at
    /// `cell_index(x, y)`.
    pub dots: Vec<BoardColor>,
    /// The trail of cells selected so far, in click order.
    pub trail: Vec<(usize, usize)>,
    /// Cells cleared so far in this game.
    pub score: usize,
    /// Completed moves still allowed; the game is over at zero.
    pub moves_left: usize,
}

impl BoardState {
    /// The color of the cell at column `x`, row `y`.
    pub open spec fn cell(self, x: int, y: int) -> BoardColor {
        self.dots@[cell_index(x, y)]
    }

    /// Column `x` of the board, bottom row first.
    pub open spec fn column(self, x: int) -> Seq<BoardColor> {
        column_of(self.dots@, x)
    }

    /// Well-formedness: the grid has exactly its fixed size, the trail only
    /// references cells of the board, the move counter never exceeds the
    /// budget, and the score is bounded by the moves played so far (one
    /// completed move clears at most the whole board).
    pub open spec fn wf(self) -> bool {
        &&& self.dots@.len() == CELL_COUNT
        &&& forall|j: int|
            0 <= j < self.trail@.len() ==> (#[trigger] self.trail@[j]).0 < BOARD_SIZE
                && self.trail@[j].1 < BOARD_SIZE
        &&& self.moves_left <= MOVE_LIMIT
        &&& self.score <= (MOVE_LIMIT - self.moves_left) * CELL_COUNT
    }

    /// No cell of the grid is `Empty`.
    pub open spec fn fully_colored(self) -> bool {
        forall|i: int| 0 <= i < self.dots@.len() ==> #[trigger] self.dots@[i] != BoardColor::Empty
    }

    /// A fresh board: full move budget, zero score, empty trail, and every
    /// cell drawn at random from the playable colors.
    pub fn new() -> (r: BoardState)
        ensures
            r.wf(),
            r.score == 0,
            r.moves_left == MOVE_LIMIT,
            r.trail@.len() == 0,
            r.fully_colored(),
    {
        let mut dots: Vec<BoardColor> = Vec::new();
        let mut i: usize = 0;
        while i < CELL_COUNT
            invariant
                i <= CELL_COUNT,
                dots@.len() == i,
                forall|k: int| 0 <= k < i ==> #[trigger] dots@[k] != BoardColor::Empty,
            decreases CELL_COUNT - i,
        {
            dots.push(BoardColor::random());
            i = i + 1;
        }
        BoardState { dots, trail: Vec::new(), score: 0, moves_left: MOVE_LIMIT }
    }

    /// The linear index of the position on the board.
    pub fn index(x: usize, y: usize) -> (r: usize)
        requires
            x < BOARD_SIZE,
            y < BOARD_SIZE,
        ensures
            r == cell_index(x as int, y as int),
            r < CELL_COUNT,
    {
        y * BOARD_SIZE + x
    }

    /// Reads one cell of the grid.
    pub fn color_at(&self, x: usize, y: usize) -> (c: BoardColor)
        requires
            self.wf(),
            x < BOARD_SIZE,
            y < BOARD_SIZE,
        ensures
            c == self.cell(x as int, y as int),
    {
        let i = Self::index(x, y);
        self.dots[i]
    }

    /// Writes one cell of the grid.
    pub fn set_color(&mut self, x: usize, y: usize, color: BoardColor)
        requires
            old(self).wf(),
            x < BOARD_SIZE,
            y < BOARD_SIZE,
        ensures
            final(self).wf(),
            final(self).dots@ == old(self).dots@.update(cell_index(x as int, y as int), color),
            final(self).trail == old(self).trail,
            final(self).score == old(self).score,
            final(self).moves_left == old(self).moves_left,
    {
        let i = Self::index(x, y);
        self.dots[i] = color;
    }

    /// Whether a click at `(x, y)` may extend the current trail: an empty
    /// trail accepts any cell; otherwise the cell must be orthogonally
    /// adjacent to the trail head, must not be the cell stepped on
    /// immediately before the head, and must match the head's color.
    pub open spec fn spec_can_connect(self, x: usize, y: usize) -> bool {
        if self.trail@.len() == 0 {
            true
        } else {
            let head = self.trail@.last();
            &&& adjacent(head.0 as int, head.1 as int, x as int, y as int)
            &&& !(self.trail@.len() >= 2 && self.trail@[self.trail@.len() - 2] == (x, y))
            &&& self.cell(head.0 as int, head.1 as int) == self.cell(x as int, y as int)
        }
    }

    /// Check if the next position can be connected to the trail.
    pub fn can_connect(&self, x: usize, y: usize) -> (r: bool)
        requires
            self.wf(),
            x < BOARD_SIZE,
            y < BOARD_SIZE,
        ensures
            r == self.spec_can_connect(x, y),
    {
        let n = self.trail.len();
        if n == 0 {
            return true;
        }
        let head = self.trail[n - 1];
        let (ox, oy) = head;
        let adj = (x == ox && (y == oy + 1 || y + 1 == oy)) || (y == oy && (x == ox + 1 || x + 1
            == ox));
        if !adj {
            return false;
        }
        if n >= 2 {
            let prev = self.trail[n - 2];
            if prev.0 == x && prev.1 == y {
                return false;
            }
        }
        let io = Self::index(ox, oy);
        let inew = Self::index(x, y);
        let color_old = self.dots[io];
        let color_new = self.dots[inew];
        color_new == color_old
    }

    /// The trail revisits some cell.
    pub open spec fn spec_has_loop(self) -> bool {
        !self.trail@.no_duplicates()
    }

    /// The color at the trail's first cell.
    pub open spec fn trail_color(self) -> BoardColor {
        self.cell(self.trail@[0].0 as int, self.trail@[0].1 as int)
    }

    /// The grid right after the clearing step of a completed trail, before
    /// compaction and refill: a looping trail clears every cell of the
    /// trail's color; a loop-free trail clears exactly the trail's cells.
    pub open spec fn cleared_dots(self) -> Seq<BoardColor> {
        if self.spec_has_loop() {
            Seq::new(
                self.dots@.len(),
                |i: int|
                    if self.dots@[i] == self.trail_color() {
                        BoardColor::Empty
                    } else {
                        self.dots@[i]
                    },
            )
        } else {
            Seq::new(
                self.dots@.len(),
                |i: int|
                    if trail_covers(self.trail@, i) {
                        BoardColor::Empty
                    } else {
                        self.dots@[i]
                    },
            )
        }
    }

    /// How many cells a completed trail clears: on a loop, one per cell of
    /// the trail's color on the whole board; otherwise one per trail entry.
    pub open spec fn clear_count(self) -> int {
        if self.spec_has_loop() {
            count_color(self.dots@, self.trail_color())
        } else {
            self.trail@.len() as int
        }
    }

    /// Detect whether the trail revisits a cell (which rewards the player
    /// with a whole-board clear of the trail's color).
    pub fn has_loop(&self) -> (r: bool)
        ensures
            r == self.spec_has_loop(),
    {
        let n = self.trail.len();
        let mut i: usize = 0;
        while i < n
            invariant
                n == self.trail@.len(),
                i <= n,
                forall|a: int, b: int|
                    0 <= a < b < n && a < i ==> #[trigger] self.trail@[a] != #[trigger] self.trail@[b],
            decreases n - i,
        {
            let here = self.trail[i];
            let mut j: usize = i + 1;
            while j < n
                invariant
                    n == self.trail@.len(),
                    i < n,
                    here == self.trail@[i as int],
                    i + 1 <= j <= n,
                    forall|b: int| i < b < j ==> self.trail@[i as int] != #[trigger] self.trail@[b],
                decreases n - j,
            {
                let there = self.trail[j];
                if here.0 == there.0 && here.1 == there.1 {
                    assert(self.trail@[i as int] == self.trail@[j as int]);
                    assert(!self.trail@.no_duplicates());
                    return true;
                }
                j = j + 1;
            }
            i = i + 1;
        }
        assert forall|a: int, b: int|
            0 <= a < self.trail@.len() && 0 <= b < self.trail@.len() && a != b implies self.trail@[a]
            != self.trail@[b] by {
            if a < b {
                assert(self.trail@[a] != self.trail@[b]);
            } else {
                assert(self.trail@[b] != self.trail@[a]);
            }
        }
        false
    }

    /// Fill a column whose `Empty` cells have all risen to the top.
    ///
    /// Returns true, after filling the empty run with fresh random colors, if
    /// the column was resolved; returns false, changing nothing, if more
    /// compaction is needed. A freshly placed color that already completes a
    /// same-color square with one of the two lower neighbor triples is
    /// redrawn, up to a fixed cap of three attempts per cell.
    fn fill_column(&mut self, x: usize) -> (filled: bool)
        requires
            old(self).wf(),
            x < BOARD_SIZE,
        ensures
            final(self).wf(),
            final(self).trail == old(self).trail,
            final(self).score == old(self).score,
            final(self).moves_left == old(self).moves_left,
            !filled ==> *final(self) == *old(self),
            filled == resolved(old(self).column(x as int)),
            filled ==> forall|xx: int|
                0 <= xx < BOARD_SIZE as int && xx != x as int ==> #[trigger] column_of(
                    final(self).dots@,
                    xx,
                ) == column_of(old(self).dots@, xx),
            filled ==> forall|xx: int, yy: int|
                0 <= xx < BOARD_SIZE as int && 0 <= yy < BOARD_SIZE as int && xx != x as int
                    ==> final(self).dots@[#[trigger] cell_index(xx, yy)] == old(
                    self,
                ).dots@[cell_index(xx, yy)],
            filled ==> forall|yy: int|
                0 <= yy < BOARD_SIZE as int ==> #[trigger] final(self).cell(x as int, yy)
                    != BoardColor::Empty,
            filled ==> column_refilled(old(self).dots@, final(self).dots@, x as int),
    {
        let mut first_empty: usize = BOARD_SIZE;
        let mut seen_non_empty = false;
        let mut yi: usize = BOARD_SIZE;
        while yi > 0
            invariant
                self.wf(),
                *self == *old(self),
                x < BOARD_SIZE,
                yi <= first_empty <= BOARD_SIZE,
                forall|r: int|
                    first_empty <= r < BOARD_SIZE as int ==> #[trigger] self.cell(x as int, r)
                        == BoardColor::Empty,
                forall|r: int|
                    yi <= r < first_empty ==> #[trigger] self.cell(x as int, r)
                        != BoardColor::Empty,
                seen_non_empty == (yi < first_empty),
            decreases yi,
        {
            let y = yi - 1;
            let i = Self::index(x, y);
            let c = self.dots[i];
            if c == BoardColor::Empty {
                if seen_non_empty {
                    proof {
                        let col = self.column(x as int);
                        assert(self.cell(x as int, y as int) == BoardColor::Empty);
                        assert(self.cell(x as int, yi as int) != BoardColor::Empty);
                        assert(col[y as int] == BoardColor::Empty);
                        assert(col[yi as int] != BoardColor::Empty);
                        assert(!resolved(col));
                    }
                    return false;
                }
                first_empty = y;
            } else {
                seen_non_empty = true;
            }
            yi = y;
        }
        let ghost b = first_empty as int;
        proof {
            assert forall|r: int|
                0 <= r < b implies old(self).dots@[#[trigger] cell_index(x as int, r)]
                != BoardColor::Empty by {
                assert(self.cell(x as int, r) != BoardColor::Empty);
            }
            assert forall|r: int|
                b <= r < BOARD_SIZE as int implies old(self).dots@[#[trigger] cell_index(
                x as int,
                r,
            )] == BoardColor::Empty by {
                assert(self.cell(x as int, r) == BoardColor::Empty);
            }
            let col = old(self).column(x as int);
            assert forall|r: int| 0 <= r < b implies col[r] != BoardColor::Empty by {
                assert(col[r] == old(self).dots@[cell_index(x as int, r)]);
            }
            assert forall|r: int| b <= r < col.len() implies col[r] == BoardColor::Empty by {
                assert(col[r] == old(self).dots@[cell_index(x as int, r)]);
            }
            lemma_solids_boundary(col, b);
            assert(resolved(col));
        }
        let mut y = first_empty;
        while y < BOARD_SIZE
            invariant
                x < BOARD_SIZE,
                first_empty <= y <= BOARD_SIZE,
                b == first_empty as int,
                self.dots@.len() == CELL_COUNT,
                self.trail == old(self).trail,
                self.score == old(self).score,
                self.moves_left == old(self).moves_left,
                old(self).wf(),
                forall|xx: int, yy: int|
                    0 <= xx < BOARD_SIZE as int && 0 <= yy < BOARD_SIZE as int && (xx != x as int
                        || yy < b || yy >= y as int) ==> self.dots@[#[trigger] cell_index(xx, yy)]
                        == old(self).dots@[cell_index(xx, yy)],
                forall|r: int|
                    b <= r < y as int ==> self.dots@[#[trigger] cell_index(x as int, r)]
                        != BoardColor::Empty,
            decreases BOARD_SIZE - y,
        {
            let i = Self::index(x, y);
            let ghost pre = self.dots@;
            self.dots[i] = BoardColor::random();
            proof {
                lemma_cell_update_frame(pre, x as int, y as int, self.dots@[i as int]);
            }
            if y > 0 {
                let mut roll: usize = 0;
                while roll < 3
                    invariant
                        x < BOARD_SIZE,
                        0 < y < BOARD_SIZE,
                        b <= y,
                        roll <= 3,
                        b == first_empty as int,
                        self.dots@.len() == CELL_COUNT,
                        self.trail == old(self).trail,
                        self.score == old(self).score,
                        self.moves_left == old(self).moves_left,
                        old(self).wf(),
                        forall|xx: int, yy: int|
                            0 <= xx < BOARD_SIZE as int && 0 <= yy < BOARD_SIZE as int && (xx
                                != x as int || yy < b || yy > y as int) ==> self.dots@[#[trigger] cell_index(
                                xx,
                                yy,
                            )] == old(self).dots@[cell_index(xx, yy)],
                        forall|r: int|
                            b <= r <= y as int ==> self.dots@[#[trigger] cell_index(x as int, r)]
                                != BoardColor::Empty,
                    decreases 3 - roll,
                {
                    let iy = Self::index(x, y);
                    let cur = self.dots[iy];
                    let i3 = Self::index(x, y - 1);
                    let c3 = self.dots[i3];
                    let mut roll_again = false;
                    if x > 1 {
                        let i1 = Self::index(x - 1, y);
                        let i2 = Self::index(x - 1, y - 1);
                        let c1 = self.dots[i1];
                        let c2 = self.dots[i2];
                        if c1 == cur && c1 == c2 && c1 == c3 {
                            roll_again = true;
                        }
                    }
                    if x < BOARD_SIZE - 1 {
                        let i4 = Self::index(x + 1, y - 1);
                        let i5 = Self::index(x + 1, y);
                        let c4 = self.dots[i4];
                        let c5 = self.dots[i5];
                        if c3 == cur && c3 == c4 && c3 == c5 {
                            roll_again = true;
                        }
                    }
                    if roll_again {
                        let ghost pre2 = self.dots@;
                        self.dots[iy] = BoardColor::random();
                        proof {
                            lemma_cell_update_frame(pre2, x as int, y as int, self.dots@[iy as int]);
                        }
                    }
                    roll = roll + 1;
                }
            }
            y = y + 1;
        }
        proof {
            let oldcol = old(self).column(x as int);
            let newcol = self.column(x as int);
            lemma_solids_len(oldcol);
            assert(solids(oldcol).len() == b);
            assert forall|r: int| 0 <= r < b implies newcol[r] == oldcol[r] by {
                assert(self.dots@[cell_index(x as int, r)] == old(self).dots@[cell_index(
                    x as int,
                    r,
                )]);
            }
            assert(newcol.subrange(0, solids(oldcol).len() as int) =~= solids(oldcol));
            assert(column_refilled(old(self).dots@, self.dots@, x as int));
            assert forall|xx: int|
                0 <= xx < BOARD_SIZE as int && xx != x as int implies #[trigger] column_of(
                self.dots@,
                xx,
            ) == column_of(old(self).dots@, xx) by {
                lemma_column_of_agree(self.dots@, old(self).dots@, xx);
            }
            assert forall|yy: int|
                0 <= yy < BOARD_SIZE as int implies #[trigger] self.cell(x as int, yy)
                != BoardColor::Empty by {
                assert(self.cell(x as int, yy) == self.dots@[cell_index(x as int, yy)]);
            }
        }
        true
    }

    /// Clear the dots the completed trail matched, reset the trail, and
    /// compact and refill the board. Returns the number of dots cleared; a
    /// trail of fewer than two cells clears nothing and changes nothing.
    pub fn finish_trail(&mut self) -> (count: usize)
        requires
            old(self).wf(),
        ensures
            final(self).wf(),
            count <= CELL_COUNT,
            old(self).trail@.len() < 2 ==> count == 0 && *final(self) == *old(self),
            old(self).trail@.len() >= 2 ==> final(self).trail@.len() == 0,
            old(self).trail@.len() >= 2 ==> final(self).score == old(self).score,
            old(self).trail@.len() >= 2 ==> final(self).moves_left == old(self).moves_left,
            old(self).trail@.len() >= 2 ==> count == old(self).clear_count(),
            old(self).trail@.len() >= 2 ==> refilled_from(
                old(self).cleared_dots(),
                final(self).dots@,
            ),
            old(self).trail@.len() >= 2 ==> final(self).fully_colored(),
    {
        if self.trail.len() < 2 {
            return 0;
        }
        let mut count: usize = 0;
        let head = self.trail[0];
        let ci = Self::index(head.0, head.1);
        let trail_color = self.dots[ci];
        if self.has_loop() {
            let mut i: usize = 0;
            while i < CELL_COUNT
                invariant
                    i <= CELL_COUNT,
                    self.dots@.len() == CELL_COUNT,
                    self.trail == old(self).trail,
                    self.score == old(self).score,
                    self.moves_left == old(self).moves_left,
                    old(self).wf(),
                    trail_color == old(self).trail_color(),
                    count == count_color(old(self).dots@.take(i as int), trail_color),
                    count <= i,
                    forall|k: int|
                        0 <= k < i ==> #[trigger] self.dots@[k] == (if old(self).dots@[k]
                            == trail_color {
                            BoardColor::Empty
                        } else {
                            old(self).dots@[k]
                        }),
                    forall|k: int|
                        i <= k < CELL_COUNT as int ==> #[trigger] self.dots@[k] == old(
                            self,
                        ).dots@[k],
                decreases CELL_COUNT - i,
            {
                proof {
                    lemma_count_color_step(old(self).dots@, i as int, trail_color);
                }
                if self.dots[i] == trail_color {
                    self.dots[i] = BoardColor::Empty;
                    count = count + 1;
                }
                i = i + 1;
            }
            proof {
                assert(old(self).dots@.take(CELL_COUNT as int) =~= old(self).dots@);
                lemma_count_color_bound(old(self).dots@, trail_color);
                assert(self.dots@ =~= old(self).cleared_dots());
            }
        } else {
            proof {
                lemma_no_loop_trail_len(*old(self));
            }
            let n = self.trail.len();
            let mut k: usize = 0;
            while k < n
                invariant
                    k <= n,
                    n == self.trail@.len(),
                    self.trail == old(self).trail,
                    self.dots@.len() == CELL_COUNT,
                    self.score == old(self).score,
                    self.moves_left == old(self).moves_left,
                    old(self).wf(),
                    count == k,
                    forall|ii: int|
                        0 <= ii < CELL_COUNT as int ==> #[trigger] self.dots@[ii] == (if trail_covers(
                            self.trail@.take(k as int),
                            ii,
                        ) {
                            BoardColor::Empty
                        } else {
                            old(self).dots@[ii]
                        }),
                decreases n - k,
            {
                let p = self.trail[k];
                let pi = Self::index(p.0, p.1);
                let ghost pre = self.dots@;
                self.dots[pi] = BoardColor::Empty;
                count = count + 1;
                proof {
                    let tprev = self.trail@.take(k as int);
                    let tnext = self.trail@.take(k as int + 1);
                    assert(tnext[k as int] == self.trail@[k as int]);
                    assert(cell_index(tnext[k as int].0 as int, tnext[k as int].1 as int)
                        == pi as int);
                    assert forall|ii: int|
                        0 <= ii < CELL_COUNT as int implies #[trigger] self.dots@[ii] == (if trail_covers(
                        tnext,
                        ii,
                    ) {
                        BoardColor::Empty
                    } else {
                        old(self).dots@[ii]
                    }) by {
                        if ii == pi as int {
                            assert(trail_covers(tnext, ii));
                            assert(self.dots@[ii] == BoardColor::Empty);
                        } else {
                            assert(self.dots@[ii] == pre[ii]);
                            if trail_covers(tnext, ii) {
                                let j = choose|j: int|
                                    0 <= j < tnext.len() && cell_index(
                                        tnext[j].0 as int,
                                        tnext[j].1 as int,
                                    ) == ii;
                                assert(j != k as int);
                                assert(tprev[j] == tnext[j]);
                                assert(trail_covers(tprev, ii));
                            } else {
                                assert(!trail_covers(tprev, ii)) by {
                                    if trail_covers(tprev, ii) {
                                        let j = choose|j: int|
                                            0 <= j < tprev.len() && cell_index(
                                                tprev[j].0 as int,
                                                tprev[j].1 as int,
                                            ) == ii;
                                        assert(tnext[j] == tprev[j]);
                                        assert(trail_covers(tnext, ii));
                                    }
                                }
                            }
                        }
                    }
                }
                k = k + 1;
            }
            proof {
                assert(self.trail@.take(n as int) =~= self.trail@);
                assert(self.dots@ =~= old(self).cleared_dots());
            }
        }
        self.trail.clear();
        self.drop_remaining();
        count
    }

    /// Remove empty cells by bubbling them to the top of each column with
    /// repeated adjacent swaps, then refill the column's empty run; each
    /// column is driven to a fixed point before the next one is touched.
    pub fn drop_remaining(&mut self)
        requires
            old(self).wf(),
        ensures
            final(self).wf(),
            final(self).trail == old(self).trail,
            final(self).score == old(self).score,
            final(self).moves_left == old(self).moves_left,
            refilled_from(old(self).dots@, final(self).dots@),
    {
        let mut x: usize = 0;
        while x < BOARD_SIZE
            invariant
                self.wf(),
                x <= BOARD_SIZE,
                self.trail == old(self).trail,
                self.score == old(self).score,
                self.moves_left == old(self).moves_left,
                forall|xx: int|
                    0 <= xx < x as int ==> #[trigger] column_refilled(
                        old(self).dots@,
                        self.dots@,
                        xx,
                    ),
                forall|xx: int, yy: int|
                    0 <= xx < x as int && 0 <= yy < BOARD_SIZE as int ==> self.dots@[#[trigger] cell_index(
                        xx,
                        yy,
                    )] != BoardColor::Empty,
                forall|xx: int, yy: int|
                    x as int <= xx < BOARD_SIZE as int && 0 <= yy < BOARD_SIZE as int
                        ==> self.dots@[#[trigger] cell_index(xx, yy)] == old(self).dots@[cell_index(
                        xx,
                        yy,
                    )],
            decreases BOARD_SIZE - x,
        {
            proof {
                lemma_column_of_agree(self.dots@, old(self).dots@, x as int);
            }
            loop
                invariant_except_break
                    solids(column_of(self.dots@, x as int)) == solids(
                        column_of(old(self).dots@, x as int),
                    ),
                invariant
                    self.wf(),
                    x < BOARD_SIZE,
                    self.trail == old(self).trail,
                    self.score == old(self).score,
                    self.moves_left == old(self).moves_left,
                    forall|xx: int|
                        0 <= xx < x as int ==> #[trigger] column_refilled(
                            old(self).dots@,
                            self.dots@,
                            xx,
                        ),
                    forall|xx: int, yy: int|
                        0 <= xx < x as int && 0 <= yy < BOARD_SIZE as int ==> self.dots@[#[trigger] cell_index(
                            xx,
                            yy,
                        )] != BoardColor::Empty,
                    forall|xx: int, yy: int|
                        (x as int) < xx < BOARD_SIZE as int && 0 <= yy < BOARD_SIZE as int
                            ==> self.dots@[#[trigger] cell_index(xx, yy)] == old(
                            self,
                        ).dots@[cell_index(xx, yy)],
                ensures
                    self.wf(),
                    x < BOARD_SIZE,
                    self.trail == old(self).trail,
                    self.score == old(self).score,
                    self.moves_left == old(self).moves_left,
                    forall|xx: int|
                        0 <= xx <= x as int ==> #[trigger] column_refilled(
                            old(self).dots@,
                            self.dots@,
                            xx,
                        ),
                    forall|xx: int, yy: int|
                        0 <= xx <= x as int && 0 <= yy < BOARD_SIZE as int ==> self.dots@[#[trigger] cell_index(
                            xx,
                            yy,
                        )] != BoardColor::Empty,
                    forall|xx: int, yy: int|
                        (x as int) < xx < BOARD_SIZE as int && 0 <= yy < BOARD_SIZE as int
                            ==> self.dots@[#[trigger] cell_index(xx, yy)] == old(
                            self,
                        ).dots@[cell_index(xx, yy)],
                decreases potential(column_of(self.dots@, x as int)),
            {
                let ghost pass_start = self.dots@;
                let mut y: usize = 0;
                while y < BOARD_SIZE - 1
                    invariant
                        self.wf(),
                        x < BOARD_SIZE,
                        y <= BOARD_SIZE - 1,
                        self.trail == old(self).trail,
                        self.score == old(self).score,
                        self.moves_left == old(self).moves_left,
                        forall|xx: int|
                            0 <= xx < x as int ==> #[trigger] column_refilled(
                                old(self).dots@,
                                self.dots@,
                                xx,
                            ),
                        forall|xx: int, yy: int|
                            0 <= xx < x as int && 0 <= yy < BOARD_SIZE as int
                                ==> self.dots@[#[trigger] cell_index(xx, yy)]
                                != BoardColor::Empty,
                        forall|xx: int, yy: int|
                            (x as int) < xx < BOARD_SIZE as int && 0 <= yy < BOARD_SIZE as int
                                ==> self.dots@[#[trigger] cell_index(xx, yy)] == old(
                                self,
                            ).dots@[cell_index(xx, yy)],
                        solids(column_of(self.dots@, x as int)) == solids(
                            column_of(old(self).dots@, x as int),
                        ),
                        potential(column_of(self.dots@, x as int)) < potential(
                            column_of(pass_start, x as int),
                        ) || (self.dots@ == pass_start && forall|r: int|
                            0 <= r < y as int ==> #[trigger] empty_rises_at(
                                column_of(self.dots@, x as int),
                                r,
                            )),
                    decreases BOARD_SIZE - 1 - y,
                {
                    let ilow = Self::index(x, y);
                    let c = self.dots[ilow];
                    if c == BoardColor::Empty {
                        let ihigh = Self::index(x, y + 1);
                        let above = self.dots[ihigh];
                        let ghost pre = self.dots@;
                        self.dots[ilow] = above;
                        self.dots[ihigh] = BoardColor::Empty;
                        proof {
                            let xi = x as int;
                            let yi = y as int;
                            lemma_cell_update_frame(pre, xi, yi, above);
                            let mid = pre.update(cell_index(xi, yi), above);
                            lemma_cell_update_frame(mid, xi, yi + 1, BoardColor::Empty);
                            let colpre = column_of(pre, xi);
                            let colnow = column_of(self.dots@, xi);
                            assert(colpre[yi] == BoardColor::Empty);
                            assert(colpre[yi + 1] == above);
                            assert forall|r: int|
                                0 <= r < BOARD_SIZE as int implies colnow[r] == colpre.update(
                                yi,
                                above,
                            ).update(yi + 1, BoardColor::Empty)[r] by {
                                assert(colnow[r] == self.dots@[cell_index(xi, r)]);
                            }
                            assert(colnow =~= colpre.update(yi, above).update(
                                yi + 1,
                                BoardColor::Empty,
                            ));
                            lemma_solids_swap(colpre, yi);
                            if above != BoardColor::Empty {
                                lemma_potential_swap(colpre, yi);
                            } else {
                                assert(self.dots@ =~= pre);
                                assert(empty_rises_at(colnow, yi));
                            }
                            assert forall|xx: int|
                                0 <= xx < x as int implies #[trigger] column_refilled(
                                old(self).dots@,
                                self.dots@,
                                xx,
                            ) by {
                                assert(column_refilled(old(self).dots@, pre, xx));
                                lemma_column_of_agree(self.dots@, pre, xx);
                            }
                        }
                    } else {
                        proof {
                            assert(column_of(self.dots@, x as int)[y as int] == c);
                            assert(empty_rises_at(column_of(self.dots@, x as int), y as int));
                        }
                    }
                    y = y + 1;
                }
                let ghost pf = self.dots@;
                let filled = self.fill_column(x);
                if filled {
                    proof {
                        assert forall|xx: int|
                            0 <= xx <= x as int implies #[trigger] column_refilled(
                            old(self).dots@,
                            self.dots@,
                            xx,
                        ) by {
                            if xx < x as int {
                                assert(column_refilled(old(self).dots@, pf, xx));
                                assert(column_of(self.dots@, xx) == column_of(pf, xx));
                            } else {
                                assert(column_refilled(pf, self.dots@, xx));
                                assert(solids(column_of(pf, xx)) == solids(
                                    column_of(old(self).dots@, xx),
                                ));
                            }
                        }
                        assert forall|xx: int, yy: int|
                            0 <= xx <= x as int && 0 <= yy < BOARD_SIZE as int implies self.dots@[#[trigger] cell_index(
                            xx,
                            yy,
                        )] != BoardColor::Empty by {
                            if xx < x as int {
                                assert(column_of(self.dots@, xx) == column_of(pf, xx));
                                assert(column_of(self.dots@, xx)[yy] == self.dots@[cell_index(
                                    xx,
                                    yy,
                                )]);
                                assert(column_of(pf, xx)[yy] == pf[cell_index(xx, yy)]);
                            } else {
                                assert(self.cell(xx, yy) != BoardColor::Empty);
                            }
                        }
                    }
                    break;
                }
                proof {
                    let colx = column_of(self.dots@, x as int);
                    if self.dots@ == pass_start {
                        assert forall|r: int|
                            0 <= r < colx.len() - 1 implies #[trigger] empty_rises_at(
                            colx,
                            r,
                        ) by {}
                        lemma_chain_resolved(colx);
                        assert(false);
                    }
                }
            }
            x = x + 1;
        }
        proof {
            assert forall|i: int|
                0 <= i < self.dots@.len() implies #[trigger] self.dots@[i]
                != BoardColor::Empty by {
                let yy = i / (BOARD_SIZE as int);
                let xx = i % (BOARD_SIZE as int);
                assert(0 <= xx < BOARD_SIZE as int);
                assert(i == yy * (BOARD_SIZE as int) + xx);
                assert(0 <= yy < BOARD_SIZE as int);
                assert(cell_index(xx, yy) == i);
                assert(self.dots@[cell_index(xx, yy)] != BoardColor::Empty);
            }
            assert(refilled_from(old(self).dots@, self.dots@));
        }
    }

    /// The click lands on the trail's head while the trail already has at
    /// least two cells: it completes the trail.
    pub open spec fn completion_click(self, x: usize, y: usize) -> bool {
        self.trail@.len() >= 2 && self.trail@.last() == (x, y)
    }

    /// Handle one click while the game is running: a click on the head of a
    /// trail of at least two cells completes it (scoring its cleared cells
    /// and spending a move); a click that can connect extends the trail; any
    /// other click cancels the trail. Once no moves remain, clicks change
    /// nothing.
    pub fn handle_click(&mut self, x: usize, y: usize)
        requires
            old(self).wf(),
            x < BOARD_SIZE,
            y < BOARD_SIZE,
        ensures
            final(self).wf(),
            old(self).moves_left == 0 ==> *final(self) == *old(self),
            old(self).moves_left > 0 && old(self).completion_click(x, y) ==> {
                &&& final(self).moves_left == old(self).moves_left - 1
                &&& final(self).trail@.len() == 0
                &&& final(self).score == old(self).score + old(self).clear_count()
                &&& refilled_from(old(self).cleared_dots(), final(self).dots@)
                &&& final(self).fully_colored()
            },
            old(self).moves_left > 0 && !old(self).completion_click(x, y) && old(
                self,
            ).spec_can_connect(x, y) ==> {
                &&& final(self).dots == old(self).dots
                &&& final(self).trail@ == old(self).trail@.push((x, y))
                &&& final(self).score == old(self).score
                &&& final(self).moves_left == old(self).moves_left
            },
            old(self).moves_left > 0 && !old(self).completion_click(x, y) && !old(
                self,
            ).spec_can_connect(x, y) ==> {
                &&& final(self).dots == old(self).dots
                &&& final(self).trail@.len() == 0
                &&& final(self).score == old(self).score
                &&& final(self).moves_left == old(self).moves_left
            },
    {
        if self.moves_left == 0 {
            return;
        }
        if self.trail.len() != 0 {
            let pos = self.trail[self.trail.len() - 1];
            if self.trail.len() >= 2 && pos.0 == x && pos.1 == y {
                let gained = self.finish_trail();
                self.score = self.score + gained;
                self.trail.clear();
                self.moves_left = self.moves_left - 1;
            } else if self.can_connect(x, y) {
                self.trail.push((x, y));
            } else {
                self.trail.clear();
            }
        } else {
            self.trail.push((x, y));
        }
    }

    /// Re-randomizes every grid cell, zeroes the score, clears the trail and
    /// restores the move budget; usable from any state.
    pub fn reset(&mut self)
        requires
            old(self).wf(),
        ensures
            final(self).wf(),
            final(self).score == 0,
            final(self).moves_left == MOVE_LIMIT,
            final(self).trail@.len() == 0,
            final(self).fully_colored(),
    {
        let mut i: usize = 0;
        while i < CELL_COUNT
            invariant
                i <= CELL_COUNT,
                self.dots@.len() == CELL_COUNT,
                self.trail == old(self).trail,
                self.score == old(self).score,
                self.moves_left == old(self).moves_left,
                forall|k: int| 0 <= k < i ==> #[trigger] self.dots@[k] != BoardColor::Empty,
            decreases CELL_COUNT - i,
        {
            self.dots[i] = BoardColor::random();
            i = i + 1;
        }
        self.score = 0;
        self.trail.clear();
        self.moves_left = MOVE_LIMIT;
    }

    /// Whether the trail passes through `(x, y)`.
    pub fn trail_contains(&self, x: usize, y: usize) -> (r: bool)
        ensures
            r == exists|j: int| 0 <= j < self.trail@.len() && self.trail@[j] == (x, y),
    {
        let n = self.trail.len();
        let mut i: usize = 0;
        while i < n
            invariant
                n == self.trail@.len(),
                i <= n,
                forall|j: int| 0 <= j < i ==> self.trail@[j] != (x, y),
            decreases n - i,
        {
            let p = self.trail[i];
            if p.0 == x && p.1 == y {
                assert(self.trail@[i as int] == (x, y));
                return true;
            }
            i = i + 1;
        }
        false
    }

    /// Whether `(x, y)` is the trail's most recent cell.
    pub fn is_trail_head(&self, x: usize, y: usize) -> (r: bool)
        ensures
            r == (self.trail@.len() > 0 && self.trail@.last() == (x, y)),
    {
        let n = self.trail.len();
        if n == 0 {
            return false;
        }
        let head = self.trail[n - 1];
        head.0 == x && head.1 == y
    }

    /// Cells cleared so far in this game.
    pub fn score(&self) -> (r: usize)
        ensures
            r == self.score,
    {
        self.score
    }

    /// Completed moves still allowed.
    pub fn moves_left(&self) -> (r: usize)
        ensures
            r == self.moves_left,
    {
        self.moves_left
    }

    /// The game is over: no moves remain.
    pub fn is_terminal(&self) -> (r: bool)
        ensures
            r == (self.moves_left == 0),
    {
        self.moves_left == 0
    }
}

impl Default for BoardState {
    /// A fresh board, as `BoardState::new` builds it.
    fn default() -> (r: Self)
        ensures
            r.wf(),
            r.score == 0,
            r.moves_left == MOVE_LIMIT,
            r.trail@.len() == 0,
            r.fully_colored(),
    {
        BoardState::new()
    }
}

/// A trail that revisits no cell has at most one entry per board cell.
pub proof fn lemma_no_loop_trail_len(s: BoardState)
    requires
        s.wf(),
        !s.spec_has_loop(),
    ensures
        s.trail@.len() <= CELL_COUNT,
{
    broadcast use vstd::seq_lib::seq_to_set_is_finite;

    let t = s.trail@;
    let idxs = Seq::new(t.len(), |j: int| cell_index(t[j].0 as int, t[j].1 as int));
    assert forall|a: int, b: int|
        0 <= a < idxs.len() && 0 <= b < idxs.len() && a != b implies idxs[a] != idxs[b] by {
        if idxs[a] == idxs[b] {
            lemma_cell_index_injective(t[a].0 as int, t[a].1 as int, t[b].0 as int, t[b].1 as int);
            assert(t[a] == t[b]);
        }
    }
    assert(idxs.no_duplicates());
    idxs.unique_seq_to_set();
    lemma_int_range(0, CELL_COUNT as int);
    assert forall|e: int|
        idxs.to_set().contains(e) implies set_int_range(0, CELL_COUNT as int).contains(e) by {
        assert(idxs.contains(e));
        let j = choose|j: int| 0 <= j < idxs.len() && idxs[j] == e;
        assert(0 <= idxs[j] < CELL_COUNT as int);
    }
    assert(idxs.to_set().subset_of(set_int_range(0, CELL_COUNT as int)));
    lemma_len_subset(idxs.to_set(), set_int_range(0, CELL_COUNT as int));
}

/// On a fully colored board no cell query ever reads `Empty`.
pub proof fn lemma_fully_colored_cell(s: BoardState, x: int, y: int)
    requires
        s.wf(),
        s.fully_colored(),
        0 <= x < BOARD_SIZE as int,
        0 <= y < BOARD_SIZE as int,
    ensures
        s.cell(x, y) != BoardColor::Empty,
{
    assert(0 <= cell_index(x, y) < CELL_COUNT as int);
}

/// On a fully colored board every column is resolved: in particular no
/// `Empty` cell has a non-`Empty` cell below it.
pub proof fn lemma_fully_colored_resolved(s: BoardState, x: int)
    requires
        s.wf(),
        s.fully_colored(),
        0 <= x < BOARD_SIZE as int,
    ensures
        resolved(s.column(x)),
{
    assert forall|y1: int, y2: int|
        0 <= y1 < y2 < s.column(x).len() && s.column(x)[y1] == BoardColor::Empty implies s.column(
        x,
    )[y2] == BoardColor::Empty by {
        assert(s.column(x)[y1] == s.dots@[cell_index(x, y1)]);
        assert(0 <= cell_index(x, y1) < CELL_COUNT as int);
    }
}

/// With an empty trail every cell may start a trail; with a non-empty trail a
/// cell that is not orthogonally adjacent to the trail head (a diagonal or
/// distant cell, or the head itself) can never be connected.
pub proof fn lemma_connect_adjacency(s: BoardState, x: usize, y: usize)
    requires
        s.wf(),
        x < BOARD_SIZE,
        y < BOARD_SIZE,
    ensures
        s.trail@.len() == 0 ==> s.spec_can_connect(x, y),
        s.trail@.len() > 0 && !adjacent(
            s.trail@.last().0 as int,
            s.trail@.last().1 as int,
            x as int,
            y as int,
        ) ==> !s.spec_can_connect(x, y),
{
}

} // verus!
