//! One step of the logical solver on an open number cell.

use vstd::prelude::*;
use crate::board::{lemma_neighbors, Board, BoardState, BoardView, MapElement, MapElementCellState, Point};

verus! {

/// The cell is not an open number: it may still hide a mine.
pub open spec fn is_unopened(e: MapElement) -> bool {
    !(e matches MapElement::Number { state: MapElementCellState::Open, .. })
}

pub open spec fn is_flagged(e: MapElement) -> bool {
    e.visibility() == MapElementCellState::Flagged
}

/// A cell the solver may act on: not open as a number, not flagged.
pub open spec fn is_candidate(e: MapElement) -> bool {
    is_unopened(e) && !is_flagged(e)
}

/// Cells at the given points that are not open numbers.
pub open spec fn unopened_at(v: BoardView, ps: Seq<Point>) -> nat
    decreases ps.len(),
{
    if ps.len() == 0 {
        0
    } else {
        unopened_at(v, ps.drop_last()) + if is_unopened(v.cell(ps.last())) {
            1nat
        } else {
            0nat
        }
    }
}

/// Flagged cells at the given points.
pub open spec fn flagged_at(v: BoardView, ps: Seq<Point>) -> nat
    decreases ps.len(),
{
    if ps.len() == 0 {
        0
    } else {
        flagged_at(v, ps.drop_last()) + if is_flagged(v.cell(ps.last())) {
            1nat
        } else {
            0nat
        }
    }
}

/// The first of the points whose cell is a candidate.
pub open spec fn first_candidate(v: BoardView, ps: Seq<Point>) -> Option<Point>
    decreases ps.len(),
{
    if ps.len() == 0 {
        None
    } else {
        match first_candidate(v, ps.drop_last()) {
            Some(q) => Some(q),
            None => if is_candidate(v.cell(ps.last())) {
                Some(ps.last())
            } else {
                None
            },
        }
    }
}

impl BoardView {
    /// One solver step at `p`. Only an open number cell with mines around
    /// it is considered. When its number equals the unopened cells around
    /// it and not all of them are flagged, they are all mines: the first
    /// unflagged one is flagged. Otherwise, when its number equals the
    /// flagged cells around it and some unopened cell is not flagged, that
    /// cell is safe: the first one is opened.
    pub open spec fn robot(self, p: Point) -> Option<BoardView> {
        match self.at(p) {
            Some(MapElement::Number { state: MapElementCellState::Open, count }) => {
                let ns = self.neighbors(p);
                let u = unopened_at(self, ns);
                let f = flagged_at(self, ns);
                if count == 0 {
                    None
                } else if count == u && f < u {
                    Some(self.flagged(first_candidate(self, ns)->0))
                } else if count == f && u > f {
                    self.cascade(first_candidate(self, ns)->0)
                } else {
                    None
                }
            },
            _ => None,
        }
    }
}

impl BoardView {
    /// The first solver step found among the first `n` cells in row-major
    /// order.
    pub open spec fn robot_scan(self, n: int) -> Option<BoardView>
        decreases n,
    {
        if n <= 0 {
            None
        } else {
            match self.robot_scan(n - 1) {
                Some(w) => Some(w),
                None => self.robot(self.point_of(n - 1)),
            }
        }
    }
}

/// Once a step is found, scanning further cells keeps it.
proof fn lemma_robot_scan_settles(v: BoardView, n: int, m: int)
    requires
        n <= m,
        v.robot_scan(n) is Some,
    ensures
        v.robot_scan(m) == v.robot_scan(n),
    decreases m - n,
{
    if n < m {
        lemma_robot_scan_settles(v, n, m - 1);
    }
}

/// Flagged cells are among the unopened ones; where no candidate is left,
/// every unopened cell is flagged.
pub proof fn lemma_candidates(v: BoardView, ps: Seq<Point>)
    ensures
        flagged_at(v, ps) <= unopened_at(v, ps),
        unopened_at(v, ps) <= ps.len(),
        first_candidate(v, ps) is None ==> flagged_at(v, ps) == unopened_at(v, ps),
        first_candidate(v, ps) matches Some(q) ==> ps.contains(q) && is_candidate(v.cell(q)),
    decreases ps.len(),
{
    if ps.len() > 0 {
        lemma_candidates(v, ps.drop_last());
        if let Some(q) = first_candidate(v, ps.drop_last()) {
            let m = choose|m: int| 0 <= m < ps.drop_last().len() && ps.drop_last()[m] == q;
            assert(ps[m] == q);
        } else {
            assert(ps[ps.len() - 1] == ps.last());
        }
    }
}

impl Board {
    /// One step of the solver at the open number cell `p`; `None` where no
    /// step can be inferred there, or `p` lies outside the grid.
    pub fn run_robot_on_point(&self, p: Point) -> (r: Option<Board>)
        requires
            self.wf(),
            self@.numbered(),
            self@.counter_in_range(),
        ensures
            match r {
                None => self@.robot(p) is None,
                Some(b) => b.wf() && self@.robot(p) == Some(b@),
            },
            r matches Some(b) ==> self@.same_but_visibility(b@) && b@.numbered()
                && b@.counter_in_range(),
    {
        let count = match self.at(&p) {
            Some(MapElement::Number { state: MapElementCellState::Open, count }) => *count,
            _ => return None,
        };
        if count == 0 {
            return None;
        }
        let ghost v = self@;
        let ns = self.surrounding_points(&p);
        proof {
            lemma_neighbors(v, p);
        }
        let mut unopened: usize = 0;
        let mut flagged: usize = 0;
        let mut first: Option<Point> = None;
        let mut k: usize = 0;
        while k < ns.len()
            invariant
                self.wf(),
                v == self@,
                ns@ == v.neighbors(p),
                forall|q: Point| ns@.contains(q) <==> (v.contains(q) && crate::board::adjacent(p, q)),
                ns@.len() <= 8,
                k <= ns@.len(),
                unopened == unopened_at(v, ns@.take(k as int)),
                flagged == flagged_at(v, ns@.take(k as int)),
                first == first_candidate(v, ns@.take(k as int)),
            decreases ns@.len() - k,
        {
            proof {
                lemma_candidates(v, ns@.take(k as int));
                assert(ns@.take(k + 1).drop_last() =~= ns@.take(k as int));
                assert(ns@.contains(ns@[k as int]));
            }
            let e = *self.at(&ns[k]).unwrap();
            let open_number = matches!(e, MapElement::Number { state: MapElementCellState::Open, .. });
            let is_flag = matches!(
                e,
                MapElement::Mine { state: MapElementCellState::Flagged }
                    | MapElement::Number { state: MapElementCellState::Flagged, .. }
            );
            if !open_number {
                unopened = unopened + 1;
            }
            if is_flag {
                flagged = flagged + 1;
            }
            if first.is_none() && !open_number && !is_flag {
                first = Some(ns[k]);
            }
            k = k + 1;
        }
        proof {
            assert(ns@.take(k as int) =~= ns@);
            lemma_candidates(v, ns@);
        }
        if count as i64 == unopened as i64 && flagged < unopened {
            let q = first.unwrap();
            return Some(self.flag_item(&q));
        }
        if count as i64 == flagged as i64 && unopened > flagged {
            let q = first.unwrap();
            return self.cascade_open_item(&q);
        }
        None
    }
}

impl Board {
    /// One move of the solver on the whole board: the step of the first
    /// cell, in row-major order, at which a step can be inferred; `None`
    /// where there is none, and on a board that is already won or lost,
    /// since those states end the game.
    pub fn run_robot(&self) -> (r: Option<Board>)
        requires
            self.wf(),
            self@.numbered(),
            self@.counter_in_range(),
        ensures
            (self.state == BoardState::Won || self.state == BoardState::Failed) ==> r is None,
            !(self.state == BoardState::Won || self.state == BoardState::Failed) ==> match r {
                None => self@.robot_scan(self@.cells.len() as int) is None,
                Some(b) => b.wf() && self@.robot_scan(self@.cells.len() as int) == Some(b@),
            },
            r matches Some(b) ==> self@.same_but_visibility(b@) && b@.numbered()
                && b@.counter_in_range(),
    {
        if self.state == BoardState::Won || self.state == BoardState::Failed {
            return None;
        }
        let ghost v = self@;
        let mut y: usize = 0;
        while y < self.height
            invariant
                self.wf(),
                v == self@,
                v.numbered(),
                v.counter_in_range(),
                !(self.state == BoardState::Won || self.state == BoardState::Failed),
                y <= self.height,
                v.robot_scan(y * self.width) is None,
            decreases self.height - y,
        {
            let mut x: usize = 0;
            while x < self.width
                invariant
                    self.wf(),
                    v == self@,
                    v.numbered(),
                    v.counter_in_range(),
                    !(self.state == BoardState::Won || self.state == BoardState::Failed),
                    y < self.height,
                    x <= self.width,
                    v.robot_scan(y * self.width + x) is None,
                decreases self.width - x,
            {
                let p = Point { x: x as i32, y: y as i32 };
                proof {
                    crate::board::lemma_index(v, p);
                }
                let step = self.run_robot_on_point(p);
                if step.is_some() {
                    proof {
                        lemma_robot_scan_settles(v, y * self.width + x + 1, v.cells.len() as int);
                    }
                    return step;
                }
                x = x + 1;
            }
            assert(y * self.width + self.width == (y + 1) * self.width) by (nonlinear_arith);
            y = y + 1;
        }
        assert(y * self.width == v.cells.len()) by (nonlinear_arith)
            requires
                y == self.height,
                v.cells.len() == v.width * v.height,
                v.width == self.width,
                v.height == self.height,
        ;
        None
    }
}

} // verus!
