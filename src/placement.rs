//! Placing the mines of a new board, one random draw at a time.

use vstd::prelude::*;
use crate::board::{
    lemma_flat_index, lemma_index, lemma_point_of, mine_total, rows_view, Board, BoardState,
    BoardView, MapElement, MapElementCellState, Point,
};

verus! {

/// The cell that a new board has at `q` when the mines are at `points`.
pub open spec fn initial_cell(points: Seq<Point>, q: Point) -> MapElement {
    if points.contains(q) {
        MapElement::Mine { state: MapElementCellState::Closed }
    } else {
        MapElement::Number { state: MapElementCellState::Closed, count: 0 }
    }
}

/// Mines chosen so far for a board of `width` by `height` cells, until
/// `wanted` distinct points are chosen. The caller draws candidate points
/// from its random source and offers them; a point chosen before, or
/// outside the grid, is turned down and the caller draws again.
pub struct MinePlacement {
    pub width: usize,
    pub height: usize,
    pub wanted: usize,
    pub points: Vec<Point>,
}

impl MinePlacement {
    pub open spec fn wf(&self) -> bool {
        &&& 1 <= self.height <= i32::MAX
        &&& self.width <= i32::MAX
        &&& self.width * self.height <= i32::MAX
        &&& self.wanted <= self.width * self.height
        &&& self.points@.len() <= self.wanted
        &&& self.points@.no_duplicates()
        &&& forall|i: int|
            0 <= i < self.points@.len() ==> (#[trigger] self.points@[i]).x < self.width
                && 0 <= self.points@[i].x && 0 <= self.points@[i].y && self.points@[i].y
                < self.height
    }

    /// Starts placing `mines` mines on a grid of `width` by `height` cells.
    /// `None` where the mines do not fit on the grid, or the grid has no
    /// row or is too large for `i32` coordinates and counters.
    pub fn new(width: usize, height: usize, mines: usize) -> (r: Option<MinePlacement>)
        ensures
            r is Some <==> (1 <= height && height <= i32::MAX && width * height <= i32::MAX
                && mines <= width * height),
            r matches Some(m) ==> m.wf() && m.width == width && m.height == height && m.wanted
                == mines && m.points@.len() == 0,
    {
        if height < 1 || height > i32::MAX as usize {
            return None;
        }
        match width.checked_mul(height) {
            None => None,
            Some(cells) => {
                if cells > i32::MAX as usize || mines > cells {
                    None
                } else {
                    assert(width <= i32::MAX) by (nonlinear_arith)
                        requires
                            width * height <= i32::MAX,
                            height >= 1,
                    ;
                    Some(MinePlacement { width, height, wanted: mines, points: Vec::new() })
                }
            },
        }
    }

    /// All the wanted mines are placed.
    pub fn is_complete(&self) -> (r: bool)
        requires
            self.wf(),
        ensures
            r == (self.points@.len() == self.wanted),
    {
        self.points.len() == self.wanted
    }

    /// Offers the drawn point `(x, y)`. It becomes a mine where it lies on
    /// the grid, is not a mine yet, and mines are still wanted.
    pub fn offer(&mut self, x: usize, y: usize) -> (added: bool)
        requires
            old(self).wf(),
        ensures
            final(self).wf(),
            final(self).width == old(self).width,
            final(self).height == old(self).height,
            final(self).wanted == old(self).wanted,
            added == (x < old(self).width && y < old(self).height && old(self).points@.len()
                < old(self).wanted && !old(self).points@.contains(
                Point { x: x as i32, y: y as i32 },
            )),
            final(self).points@ == if added {
                old(self).points@.push(Point { x: x as i32, y: y as i32 })
            } else {
                old(self).points@
            },
    {
        if x >= self.width || y >= self.height || self.points.len() >= self.wanted {
            return false;
        }
        let p = Point::new(x, y);
        if contains_point(&self.points, &p) {
            return false;
        }
        let ghost before = self.points@;
        self.points.push(p);
        proof {
            assert forall|i: int, j: int|
                0 <= i < self.points@.len() && 0 <= j < self.points@.len() && i != j implies
                self.points@[i] != self.points@[j] by {
                if i < before.len() && j < before.len() {
                    assert(before[i] != before[j]);
                } else if i < before.len() {
                    assert(before.contains(before[i]));
                } else if j < before.len() {
                    assert(before.contains(before[j]));
                }
            }
            assert forall|i: int| 0 <= i < self.points@.len() implies (#[trigger] self.points@[i]).x
                < self.width && 0 <= self.points@[i].x && 0 <= self.points@[i].y
                && self.points@[i].y < self.height by {
                if i < before.len() {
                    assert(self.points@[i] == before[i]);
                }
            }
        }
        true
    }

    /// The new board: a closed mine at each chosen point, a closed number
    /// cell with no count yet everywhere else, waiting for its numbers.
    pub fn board(&self) -> (r: Board)
        requires
            self.wf(),
        ensures
            r.wf(),
            r@.width == self.width,
            r@.height == self.height,
            forall|q: Point| r@.contains(q) ==> r@.cell(q) == initial_cell(self.points@, q),
            r@.mines == self.points@.len(),
            r@.missing == r@.width * r@.height - r@.mines,
            r@.state == BoardState::NotReady,
    {
        let mut rows: Vec<Vec<MapElement>> = Vec::new();
        let mut y: usize = 0;
        while y < self.height
            invariant
                self.wf(),
                y <= self.height,
                rows@.len() == y,
                forall|i: int| 0 <= i < y ==> (#[trigger] rows@[i])@.len() == self.width,
                forall|i: int, j: int|
                    0 <= i < y && 0 <= j < self.width ==> #[trigger] rows@[i]@[j] == initial_cell(
                        self.points@,
                        Point { x: j as i32, y: i as i32 },
                    ),
            decreases self.height - y,
        {
            let mut row: Vec<MapElement> = Vec::new();
            let mut x: usize = 0;
            while x < self.width
                invariant
                    self.wf(),
                    y < self.height,
                    x <= self.width,
                    row@.len() == x,
                    forall|j: int|
                        0 <= j < x ==> (#[trigger] row@[j]) == initial_cell(
                            self.points@,
                            Point { x: j as i32, y: y as i32 },
                        ),
                decreases self.width - x,
            {
                let p = Point::new(x, y);
                if contains_point(&self.points, &p) {
                    row.push(MapElement::Mine { state: MapElementCellState::Closed });
                } else {
                    row.push(MapElement::Number { state: MapElementCellState::Closed, count: 0 });
                }
                x = x + 1;
            }
            rows.push(row);
            y = y + 1;
        }
        let ghost rv = rows_view(rows@);
        proof {
            assert forall|i: int| 0 <= i < rv.len() implies (#[trigger] rv[i]).len() == self.width by {
                assert(rows@[i]@.len() == self.width);
            }
        }
        let r = Board::new(rows);
        proof {
            assert forall|q: Point| r@.contains(q) implies r@.cell(q) == initial_cell(self.points@, q) by {
                lemma_flat_index(rv, self.width as nat, q.x as int, q.y as int);
                assert(rows@[q.y as int]@[q.x as int] == initial_cell(
                    self.points@,
                    Point { x: q.x, y: q.y },
                ));
            }
            assert forall|i: int| 0 <= i < self.points@.len() implies r@.contains(
                #[trigger] self.points@[i],
            ) by {}
            lemma_placed_mines(r@, self.points@);
        }
        r
    }
}

impl MinePlacement {
    /// While mines are still wanted, some cell of the grid is not a mine
    /// yet: drawing can still succeed.
    pub proof fn lemma_free_cell(&self)
        requires
            self.wf(),
            self.points@.len() < self.wanted,
        ensures
            exists|q: Point|
                0 <= q.x < self.width && 0 <= q.y < self.height && !self.points@.contains(q),
    {
        let v = BoardView {
            width: self.width as nat,
            height: self.height as nat,
            cells: Seq::empty(),
            mines: 0,
            missing: 0,
            state: BoardState::NotReady,
        };
        let points = self.points@;
        let n = self.width * self.height;
        if forall|q: Point| v.contains(q) ==> points.contains(q) {
            let idx = points.map_values(|q: Point| v.index(q));
            assert forall|a: int, b: int| 0 <= a < idx.len() && 0 <= b < idx.len() && a != b implies idx[a]
                != idx[b] by {
                lemma_index(v, points[a]);
                lemma_index(v, points[b]);
            }
            idx.unique_seq_to_set();
            vstd::set_lib::lemma_int_range(0, n as int);
            let cells = vstd::set_lib::set_int_range(0, n as int);
            assert forall|i: int| #[trigger] cells.contains(i) implies idx.to_set().contains(i) by {
                lemma_point_of(v, i);
                let q = v.point_of(i);
                assert(points.contains(q));
                let j = choose|j: int| 0 <= j < points.len() && points[j] == q;
                assert(idx[j] == i);
                assert(idx.contains(i));
            }
            vstd::set_lib::lemma_len_subset(cells, idx.to_set());
        }
    }
}

/// Positions of the mines among the cells.
spec fn mine_positions(s: Seq<MapElement>) -> Set<int>
    decreases s.len(),
{
    if s.len() == 0 {
        Set::empty()
    } else if s.last() is Mine {
        mine_positions(s.drop_last()).insert(s.len() - 1)
    } else {
        mine_positions(s.drop_last())
    }
}

proof fn lemma_mine_positions(s: Seq<MapElement>)
    ensures
        mine_positions(s).finite(),
        mine_positions(s).len() == mine_total(s),
        forall|i: int| #[trigger] mine_positions(s).contains(i) <==> 0 <= i < s.len() && s[i] is Mine,
    decreases s.len(),
{
    if s.len() > 0 {
        lemma_mine_positions(s.drop_last());
        assert(!mine_positions(s.drop_last()).contains(s.len() - 1));
    }
}

/// Distinct in-bounds points make as many mines as there are points.
proof fn lemma_placed_mines(v: BoardView, points: Seq<Point>)
    requires
        v.wf(),
        points.no_duplicates(),
        forall|i: int| 0 <= i < points.len() ==> v.contains(#[trigger] points[i]),
        forall|q: Point| v.contains(q) ==> v.cell(q) == initial_cell(points, q),
    ensures
        mine_total(v.cells) == points.len(),
{
    let idx = points.map_values(|q: Point| v.index(q));
    assert forall|a: int, b: int| 0 <= a < idx.len() && 0 <= b < idx.len() && a != b implies idx[a]
        != idx[b] by {
        lemma_index(v, points[a]);
        lemma_index(v, points[b]);
    }
    assert(idx.no_duplicates());
    idx.unique_seq_to_set();
    lemma_mine_positions(v.cells);
    assert forall|i: int| #[trigger] mine_positions(v.cells).contains(i) <==> idx.to_set().contains(i) by {
        if mine_positions(v.cells).contains(i) {
            lemma_point_of(v, i);
            let q = v.point_of(i);
            assert(points.contains(q));
            let j = choose|j: int| 0 <= j < points.len() && points[j] == q;
            assert(idx[j] == i);
            assert(idx.contains(i));
        }
        if idx.to_set().contains(i) {
            let j = choose|j: int| 0 <= j < idx.len() && idx[j] == i;
            lemma_index(v, points[j]);
            assert(points.contains(points[j]));
        }
    }
    assert(mine_positions(v.cells) =~= idx.to_set());
}

/// `q` is one of `points`.
fn contains_point(points: &Vec<Point>, q: &Point) -> (r: bool)
    ensures
        r == points@.contains(*q),
{
    let mut i: usize = 0;
    while i < points.len()
        invariant
            i <= points@.len(),
            forall|j: int| 0 <= j < i ==> points@[j] != *q,
        decreases points@.len() - i,
    {
        if points[i] == *q {
            assert(points@[i as int] == *q);
            return true;
        }
        i = i + 1;
    }
    false
}

} // verus!
