//! The numbering pass: every number cell learns how many mines surround it.

use vstd::prelude::*;
use crate::board::{
    lemma_closed_number_total_same, lemma_index, lemma_neighbors, lemma_neighbors_same_dims,
    mine_total, Board, BoardState, BoardView,
    MapElement, Point,
};

verus! {

/// Mines among the cells at the given points.
pub open spec fn mines_at(v: BoardView, ps: Seq<Point>) -> nat
    decreases ps.len(),
{
    if ps.len() == 0 {
        0
    } else {
        mines_at(v, ps.drop_last()) + if v.at(ps.last()) matches Some(MapElement::Mine { .. }) {
            1nat
        } else {
            0nat
        }
    }
}

impl BoardView {
    /// Mines among the neighbours of `p`.
    pub open spec fn adjacent_mines(self, p: Point) -> nat {
        mines_at(self, self.neighbors(p))
    }

    /// Every number cell holds the number of mines around it.
    pub open spec fn numbered(self) -> bool {
        forall|i: int|
            0 <= i < self.cells.len() && #[trigger] self.cells[i] is Number ==> self.cells[i]->count
                == self.adjacent_mines(self.point_of(i))
    }

    /// The same board with each number cell holding the number of mines
    /// around it, ready for play.
    pub open spec fn with_numbers(self) -> BoardView {
        BoardView {
            cells: Seq::new(
                self.cells.len(),
                |i: int|
                    match self.cells[i] {
                        MapElement::Mine { state } => MapElement::Mine { state },
                        MapElement::Number { state, .. } => MapElement::Number {
                            state,
                            count: self.adjacent_mines(self.point_of(i)) as i32,
                        },
                    },
            ),
            state: BoardState::Ready,
            ..self
        }
    }

    /// The two boards have their mines in the same places.
    pub open spec fn same_mines(self, other: BoardView) -> bool {
        &&& self.width == other.width
        &&& self.height == other.height
        &&& self.cells.len() == other.cells.len()
        &&& forall|i: int|
            0 <= i < self.cells.len() ==> (#[trigger] self.cells[i] is Mine) == (
            other.cells[i] is Mine)
    }
}

/// Boards with their mines in the same places count the same mines at any
/// points.
pub proof fn lemma_mines_at_same_mines(v: BoardView, w: BoardView, ps: Seq<Point>)
    requires
        v.wf(),
        v.same_mines(w),
    ensures
        mines_at(v, ps) == mines_at(w, ps),
    decreases ps.len(),
{
    if ps.len() > 0 {
        lemma_mines_at_same_mines(v, w, ps.drop_last());
        let q = ps.last();
        if v.contains(q) {
            lemma_index(v, q);
        }
    }
}

/// Cells with mines in the same places hold the same number of mines.
pub proof fn lemma_mine_total_same_mines(s: Seq<MapElement>, t: Seq<MapElement>)
    requires
        s.len() == t.len(),
        forall|i: int| 0 <= i < s.len() ==> (#[trigger] s[i] is Mine) == (t[i] is Mine),
    ensures
        mine_total(s) == mine_total(t),
    decreases s.len(),
{
    if s.len() > 0 {
        lemma_mine_total_same_mines(s.drop_last(), t.drop_last());
    }
}

/// At most eight neighbours, so at most eight mines around a point.
pub proof fn lemma_adjacent_mines_bound(v: BoardView, p: Point)
    requires
        v.wf(),
    ensures
        v.adjacent_mines(p) <= 8,
{
    lemma_neighbors(v, p);
    lemma_mines_at_bound(v, v.neighbors(p));
}

proof fn lemma_mines_at_bound(v: BoardView, ps: Seq<Point>)
    ensures
        mines_at(v, ps) <= ps.len(),
    decreases ps.len(),
{
    if ps.len() > 0 {
        lemma_mines_at_bound(v, ps.drop_last());
    }
}

/// Numbering keeps the mines where they are, and afterwards each number
/// cell holds exactly the number of mines among its neighbours.
pub proof fn lemma_numbering_is_exact(v: BoardView)
    requires
        v.wf(),
    ensures
        v.with_numbers().wf(),
        v.with_numbers().same_mines(v),
        v.with_numbers().numbered(),
{
    let w = v.with_numbers();
    assert(w.same_mines(v));
    assert(v.same_mines(w));
    lemma_mine_total_same_mines(v.cells, w.cells);
    assert forall|i: int| 0 <= i < w.cells.len() && #[trigger] w.cells[i] is Number implies w.cells[i]->count
        == w.adjacent_mines(w.point_of(i)) by {
        lemma_adjacent_mines_bound(v, v.point_of(i));
        lemma_neighbors_same_dims(v, w, v.point_of(i));
        lemma_mines_at_same_mines(v, w, v.neighbors(v.point_of(i)));
    }
}

/// Changing only the visibility of cells keeps a board numbered.
pub proof fn lemma_numbered_kept(v: BoardView, w: BoardView)
    requires
        v.wf(),
        v.numbered(),
        v.same_but_visibility(w),
    ensures
        w.numbered(),
{
    assert(v.same_mines(w)) by {
        assert forall|i: int| 0 <= i < v.cells.len() implies (#[trigger] v.cells[i] is Mine) == (
        w.cells[i] is Mine) by {
            assert(w.cells[i].with_visibility(v.cells[i].visibility()) == v.cells[i]);
        }
    }
    assert forall|i: int| 0 <= i < w.cells.len() && #[trigger] w.cells[i] is Number implies w.cells[i]->count
        == w.adjacent_mines(w.point_of(i)) by {
        assert(w.cells[i].with_visibility(v.cells[i].visibility()) == v.cells[i]);
        lemma_neighbors_same_dims(v, w, v.point_of(i));
        lemma_mines_at_same_mines(v, w, v.neighbors(v.point_of(i)));
    }
}

/// Numbering a numbered board again changes nothing.
pub proof fn lemma_numbering_idempotent(v: BoardView)
    requires
        v.wf(),
    ensures
        v.with_numbers().with_numbers() == v.with_numbers(),
{
    let w = v.with_numbers();
    lemma_numbering_is_exact(v);
    assert forall|i: int| 0 <= i < w.cells.len() implies #[trigger] w.with_numbers().cells[i]
        == w.cells[i] by {
        lemma_adjacent_mines_bound(w, w.point_of(i));
    }
    assert(w.with_numbers().cells =~= w.cells);
}

/// On a fresh board, where every number cell is still to open, the
/// numbering pass leaves the mine count equal to the mines on the grid and
/// the cells to open equal to the cells that are not mines.
pub proof fn lemma_numbered_fresh_board(v: BoardView)
    requires
        v.wf(),
        v.missing == v.width * v.height - v.mines,
    ensures
        v.with_numbers().mines == mine_total(v.with_numbers().cells),
        v.with_numbers().missing == v.with_numbers().width * v.with_numbers().height
            - v.with_numbers().mines,
{
    lemma_numbering_is_exact(v);
}

impl Board {
    /// Number of mines around `p`.
    fn count_adjacent_mines(&self, p: &Point) -> (c: i32)
        requires
            self.wf(),
        ensures
            c == self@.adjacent_mines(*p),
    {
        let ps = self.surrounding_points(p);
        proof {
            lemma_neighbors(self@, *p);
        }
        let mut c: i32 = 0;
        let mut k: usize = 0;
        while k < ps.len()
            invariant
                self.wf(),
                ps@ == self@.neighbors(*p),
                ps@.len() <= 8,
                k <= ps@.len(),
                c == mines_at(self@, ps@.take(k as int)),
            decreases ps@.len() - k,
        {
            proof {
                lemma_mines_at_bound(self@, ps@.take(k as int));
                assert(ps@.take(k + 1).drop_last() =~= ps@.take(k as int));
            }
            if let Some(MapElement::Mine { .. }) = self.at(&ps[k]) {
                c = c + 1;
            }
            k = k + 1;
        }
        assert(ps@.take(k as int) =~= ps@);
        c
    }
}

/// The board with every number cell holding the number of mines around
/// it, and the state `Ready`. Mines keep their places, every cell keeps its
/// visibility, and the bookkeeping is unchanged.
pub fn numbers_on_board(board: Board) -> (r: Board)
    requires
        board.wf(),
    ensures
        r.wf(),
        r@ == board@.with_numbers(),
        r@.numbered(),
        r@.closed_numbers() == board@.closed_numbers(),
{
    let ghost v = board@;
    let ghost target = v.with_numbers().cells;
    let width = board.width;
    let height = board.height;
    let mut cells: Vec<MapElement> = Vec::new();
    let mut y: usize = 0;
    while y < height
        invariant
            board.wf(),
            v == board@,
            target == v.with_numbers().cells,
            width == v.width,
            height == v.height,
            y <= height,
            cells@ == target.take(y * width),
        decreases height - y,
    {
        let mut x: usize = 0;
        while x < width
            invariant
                board.wf(),
                v == board@,
                target == v.with_numbers().cells,
                width == v.width,
                height == v.height,
                y < height,
                x <= width,
                cells@ == target.take(y * width + x),
            decreases width - x,
        {
            let p = Point { x: x as i32, y: y as i32 };
            proof {
                lemma_index(v, p);
                lemma_adjacent_mines_bound(v, p);
            }
            let i = y * width + x;
            let e = match board.cells[i] {
                MapElement::Mine { state } => MapElement::Mine { state },
                MapElement::Number { state, .. } => MapElement::Number {
                    state,
                    count: board.count_adjacent_mines(&p),
                },
            };
            assert(e == target[i as int]);
            cells.push(e);
            x = x + 1;
            assert(cells@ =~= target.take(y * width + x));
        }
        assert(y * width + width == (y + 1) * width) by (nonlinear_arith);
        y = y + 1;
    }
    proof {
        assert(height * width == v.cells.len()) by (nonlinear_arith)
            requires
                v.cells.len() == v.width * v.height,
                width == v.width,
                height == v.height,
        ;
        assert(cells@ =~= target);
        lemma_mine_total_same_mines(v.cells, target);
        lemma_numbering_is_exact(v);
        lemma_closed_number_total_same(v.cells, target);
    }
    Board {
        cells,
        missing_points: board.missing_points,
        width: board.width,
        height: board.height,
        mines: board.mines,
        state: BoardState::Ready,
    }
}

} // verus!
