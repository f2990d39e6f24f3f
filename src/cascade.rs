//! Opening a cell, and the flood fill from a cell with no mine around it.

use vstd::prelude::*;
use crate::board::{
    adjacent, closed_number_total, lemma_index, lemma_neighbors, lemma_point_of,
    lemma_totals_update, next_state, Board, BoardState, BoardView, MapElement,
    MapElementCellState, Point,
};

verus! {

/// A walk of the flood fill: in-bounds closed number cells, each adjacent
/// to the next, every one but the last with no mine around it.
pub open spec fn flood_path(v: BoardView, path: Seq<Point>) -> bool {
    &&& path.len() >= 1
    &&& forall|j: int|
        0 <= j < path.len() ==> v.contains(#[trigger] path[j]) && v.cell(path[j]).is_closed_number()
    &&& forall|j: int|
        0 <= j < path.len() - 1 ==> v.cell(#[trigger] path[j])->count == 0 && adjacent(
            path[j],
            path[j + 1],
        )
}

/// Opening `p` reaches `q`.
pub open spec fn floods(v: BoardView, p: Point, q: Point) -> bool {
    exists|path: Seq<Point>| #[trigger] flood_path(v, path) && path[0] == p && path.last() == q
}

/// The cells after opening every cell that opening `p` reaches.
pub open spec fn flood_cells(v: BoardView, p: Point) -> Seq<MapElement> {
    Seq::new(
        v.cells.len(),
        |i: int|
            if floods(v, p, v.point_of(i)) {
                v.cells[i].with_visibility(MapElementCellState::Open)
            } else {
                v.cells[i]
            },
    )
}

/// State after `k` closed number cells were opened one by one, starting
/// from state `s` with `m` cells left to open.
pub open spec fn state_after_opens(s: BoardState, m: int, k: int) -> BoardState {
    if 1 <= m <= k {
        BoardState::Won
    } else if k >= 1 && s == BoardState::Ready {
        BoardState::Playing
    } else {
        s
    }
}

impl BoardView {
    /// The board after the flood fill from the closed number cell `p`:
    /// the reached cells are open, the counter went down once for each of
    /// them, and the state followed each step.
    pub open spec fn opened(self, p: Point) -> BoardView {
        let cells = flood_cells(self, p);
        let k = self.closed_numbers() - closed_number_total(cells);
        BoardView {
            cells,
            missing: self.missing - k,
            state: state_after_opens(self.state, self.missing, k),
            ..self
        }
    }

    /// What opening `p` gives: nothing outside the grid or on a flagged or
    /// open number cell, a lost board on a mine that is not flagged, and
    /// the flood fill on a closed number cell.
    pub open spec fn cascade(self, p: Point) -> Option<BoardView> {
        match self.at(p) {
            None => None,
            Some(e) => match e {
                MapElement::Mine { state } => if state == MapElementCellState::Flagged {
                    None
                } else {
                    Some(self.failed())
                },
                MapElement::Number { state, .. } => if state == MapElementCellState::Closed {
                    Some(self.opened(p))
                } else {
                    None
                },
            },
        }
    }
}

/// A closed number cell reaches itself.
pub proof fn lemma_floods_start(v: BoardView, p: Point)
    requires
        v.contains(p),
        v.cell(p).is_closed_number(),
    ensures
        floods(v, p, p),
{
    let path = seq![p];
    assert(flood_path(v, path));
}

/// From a reached cell with no mine around, the flood goes on to every
/// adjacent closed number cell.
pub proof fn lemma_floods_step(v: BoardView, p: Point, c: Point, q: Point)
    requires
        floods(v, p, c),
        v.cell(c)->count == 0,
        adjacent(c, q),
        v.contains(q),
        v.cell(q).is_closed_number(),
    ensures
        floods(v, p, q),
{
    let path = choose|path: Seq<Point>| #[trigger] flood_path(v, path) && path[0] == p && path.last() == c;
    let next = path.push(q);
    assert(next[next.len() - 2] == c);
    assert(flood_path(v, next));
    assert(next[0] == p && next.last() == q);
}

/// Every reached cell is an in-bounds closed number cell.
pub proof fn lemma_floods_closed(v: BoardView, p: Point, q: Point)
    requires
        floods(v, p, q),
    ensures
        v.contains(q),
        v.cell(q).is_closed_number(),
{
    let path = choose|path: Seq<Point>| #[trigger] flood_path(v, path) && path[0] == p && path.last() == q;
    assert(path[path.len() - 1] == q);
}

/// Each further open follows `next_state`.
proof fn lemma_state_after_open(s: BoardState, m: int, k: int)
    requires
        k >= 0,
    ensures
        state_after_opens(s, m, k + 1) == next_state(state_after_opens(s, m, k), m - (k + 1)),
{
}

/// The cell at `q` was opened since the start.
spec fn changed(v0: BoardView, b: BoardView, q: Point) -> bool {
    b.cell(q) != v0.cell(q)
}

/// Every cell of `b` is as in `v0`, or it is a reached cell, now open.
spec fn cells_follow(v0: BoardView, p: Point, b: BoardView) -> bool {
    forall|q: Point|
        v0.contains(q) && #[trigger] changed(v0, b, q) ==> floods(v0, p, q) && b.cell(q)
            == v0.cell(q).with_visibility(MapElementCellState::Open)
}

/// Every adjacent closed number cell of `d` was opened.
spec fn settled(v0: BoardView, b: BoardView, d: Point) -> bool {
    forall|q: Point|
        v0.contains(q) && adjacent(d, q) && v0.cell(q).is_closed_number() ==> #[trigger] changed(
            v0,
            b,
            q,
        )
}

/// The invariant of the flood fill besides its work list.
spec fn flood_state(v0: BoardView, p: Point, b: BoardView) -> bool {
    &&& b.wf()
    &&& b.width == v0.width
    &&& b.height == v0.height
    &&& b.mines == v0.mines
    &&& b.cells.len() == v0.cells.len()
    &&& cells_follow(v0, p, b)
    &&& changed(v0, b, p)
    &&& v0.closed_numbers() - b.closed_numbers() >= 1
    &&& b.missing == v0.missing - (v0.closed_numbers() - b.closed_numbers())
    &&& b.state == state_after_opens(
        v0.state,
        v0.missing,
        v0.closed_numbers() - b.closed_numbers(),
    )
}

/// An entry of the work list: a reached cell with no mine around, opened.
spec fn pending(v0: BoardView, p: Point, b: BoardView, c: Point) -> bool {
    &&& v0.contains(c)
    &&& floods(v0, p, c)
    &&& changed(v0, b, c)
    &&& v0.cell(c)->count == 0
}

/// Opening `q`, a closed number cell of `b` that the flood reaches, keeps
/// the invariant.
proof fn lemma_open_keeps_state(v0: BoardView, p: Point, b: BoardView, q: Point, nb: BoardView)
    requires
        v0.wf(),
        flood_state(v0, p, b),
        v0.contains(q),
        floods(v0, p, q),
        b.cell(q).is_closed_number(),
        nb == b.replaced(q, b.cell(q).with_visibility(MapElementCellState::Open)),
        nb.wf(),
    ensures
        flood_state(v0, p, nb),
        changed(v0, nb, q),
        forall|d: Point| v0.contains(d) && changed(v0, b, d) ==> changed(v0, nb, d),
        forall|d: Point| v0.contains(d) && d != q ==> nb.cell(d) == b.cell(d),
        nb.closed_numbers() == b.closed_numbers() - 1,
{
    let e = b.cell(q).with_visibility(MapElementCellState::Open);
    lemma_index(b, q);
    lemma_totals_update(b.cells, b.index(q), e);
    assert(!changed(v0, b, q));
    assert forall|d: Point| v0.contains(d) && d != q implies nb.cell(d) == b.cell(d) by {
        lemma_index(b, d);
    }
    assert(changed(v0, nb, q));
    assert forall|d: Point| v0.contains(d) && #[trigger] changed(v0, nb, d) implies floods(v0, p, d)
        && nb.cell(d) == v0.cell(d).with_visibility(MapElementCellState::Open) by {
        if d != q {
            assert(changed(v0, b, d));
        }
    }
    lemma_state_after_open(v0.state, v0.missing, v0.closed_numbers() - b.closed_numbers());
}

/// When no entry is pending, every cell that the flood reaches was opened.
proof fn lemma_flood_complete(v0: BoardView, p: Point, b: BoardView, q: Point)
    requires
        flood_state(v0, p, b),
        forall|d: Point|
            v0.contains(d) && #[trigger] changed(v0, b, d) && v0.cell(d)->count == 0 ==> settled(
                v0,
                b,
                d,
            ),
        floods(v0, p, q),
    ensures
        changed(v0, b, q),
{
    let path = choose|path: Seq<Point>| #[trigger] flood_path(v0, path) && path[0] == p && path.last() == q;
    lemma_path_changed(v0, p, b, path, path.len() - 1);
}

proof fn lemma_path_changed(v0: BoardView, p: Point, b: BoardView, path: Seq<Point>, j: int)
    requires
        flood_state(v0, p, b),
        forall|d: Point|
            v0.contains(d) && #[trigger] changed(v0, b, d) && v0.cell(d)->count == 0 ==> settled(
                v0,
                b,
                d,
            ),
        flood_path(v0, path),
        path[0] == p,
        0 <= j < path.len(),
    ensures
        changed(v0, b, path[j]),
    decreases j,
{
    if j > 0 {
        lemma_path_changed(v0, p, b, path, j - 1);
        let d = path[j - 1];
        let n = path[j];
        assert(v0.contains(d) && v0.cell(d)->count == 0 && adjacent(d, n));
        assert(v0.contains(n) && v0.cell(n).is_closed_number());
        assert(settled(v0, b, d));
    }
}

impl Board {
    /// Opens the closed number cell `p` and, from every opened cell with no
    /// mine around, its closed number neighbours, with a work list.
    fn flood(&self, p: &Point, count: i32) -> (r: Board)
        requires
            self.wf(),
            self@.counter_in_range(),
            self@.contains(*p),
            self@.cell(*p) == (MapElement::Number { state: MapElementCellState::Closed, count }),
        ensures
            r.wf(),
            r@ == self@.opened(*p),
    {
        let ghost v0 = self@;
        let start = MapElement::Number { state: MapElementCellState::Open, count };
        proof {
            lemma_floods_start(v0, *p);
            lemma_index(v0, *p);
            lemma_totals_update(v0.cells, v0.index(*p), start);
            assert forall|d: Point| v0.contains(d) && d != *p implies v0.replaced(*p, start).cell(d)
                == v0.cell(d) by {
                lemma_index(v0, d);
            }
        }
        let mut b = self.replace(p, start);
        let mut stack: Vec<Point> = Vec::new();
        if count == 0 {
            stack.push(*p);
        }
        proof {
            assert forall|d: Point|
                v0.contains(d) && #[trigger] changed(v0, b@, d) && v0.cell(d)->count == 0
                    implies stack@.contains(d) || settled(v0, b@, d) by {
                if d != *p {
                    assert(b@.cell(d) == v0.cell(d));
                } else {
                    assert(stack@[0] == *p);
                }
            }
        }
        while stack.len() > 0
            invariant
                v0.wf(),
                v0.counter_in_range(),
                b.wf(),
                flood_state(v0, *p, b@),
                forall|j: int| 0 <= j < stack@.len() ==> pending(v0, *p, b@, #[trigger] stack@[j]),
                forall|d: Point|
                    v0.contains(d) && #[trigger] changed(v0, b@, d) && v0.cell(d)->count == 0
                        ==> stack@.contains(d) || settled(v0, b@, d),
            decreases 2 * b@.closed_numbers() + stack@.len(),
        {
            let ghost measure = 2 * b@.closed_numbers() + stack@.len();
            let ghost before = stack@;
            let c = stack.pop().unwrap();
            assert(stack@ == before.drop_last());
            assert(pending(v0, *p, b@, before[before.len() - 1]));
            let ns = b.surrounding_points(&c);
            proof {
                lemma_neighbors(b@, c);
                assert forall|d: Point|
                    v0.contains(d) && #[trigger] changed(v0, b@, d) && v0.cell(d)->count == 0 && d != c
                        implies stack@.contains(d) || settled(v0, b@, d) by {
                    if before.contains(d) && !settled(v0, b@, d) {
                        let m = choose|m: int| 0 <= m < before.len() && before[m] == d;
                        assert(m != before.len() - 1);
                        assert(stack@[m] == d);
                    }
                }
            }
            assert forall|q: Point| ns@.contains(q) <==> (v0.contains(q) && adjacent(c, q)) by {
                assert(b@.contains(q) == v0.contains(q));
            }
            let mut k: usize = 0;
            while k < ns.len()
                invariant
                    v0.wf(),
                    v0.counter_in_range(),
                    b.wf(),
                    flood_state(v0, *p, b@),
                    pending(v0, *p, b@, c),
                    forall|q: Point| ns@.contains(q) <==> (v0.contains(q) && adjacent(c, q)),
                    k <= ns@.len(),
                    forall|j: int| 0 <= j < stack@.len() ==> pending(v0, *p, b@, #[trigger] stack@[j]),
                    forall|d: Point|
                        v0.contains(d) && #[trigger] changed(v0, b@, d) && v0.cell(d)->count == 0
                            && d != c ==> stack@.contains(d) || settled(v0, b@, d),
                    forall|j: int|
                        0 <= j < k && #[trigger] v0.cell(ns@[j]).is_closed_number() ==> changed(
                            v0,
                            b@,
                            ns@[j],
                        ),
                    2 * b@.closed_numbers() + stack@.len() < measure,
                decreases ns@.len() - k,
            {
                let q = ns[k];
                assert(ns@.contains(q));
                let closed_count = match b.at(&q) {
                    Some(MapElement::Number { state: MapElementCellState::Closed, count }) => Some(*count),
                    _ => None,
                };
                let ghost b_before = b@;
                if let Some(qc) = closed_count {
                    let ghost bv = b@;
                    proof {
                        assert(!changed(v0, bv, q));
                        lemma_floods_step(v0, *p, c, q);
                        lemma_index(bv, q);
                        lemma_closed_number_counted_at(bv, q);
                    }
                    b = b.replace(&q, MapElement::Number { state: MapElementCellState::Open, count: qc });
                    proof {
                        lemma_open_keeps_state(v0, *p, bv, q, b@);
                    }
                    let ghost st = stack@;
                    if qc == 0 {
                        stack.push(q);
                    }
                    proof {
                        assert forall|j: int| 0 <= j < stack@.len() implies pending(
                            v0,
                            *p,
                            b@,
                            #[trigger] stack@[j],
                        ) by {
                            if j < st.len() {
                                assert(stack@[j] == st[j]);
                                assert(pending(v0, *p, bv, st[j]));
                            }
                        }
                        assert forall|d: Point|
                            v0.contains(d) && #[trigger] changed(v0, b@, d) && v0.cell(d)->count == 0 && d != c
                                implies stack@.contains(d) || settled(v0, b@, d) by {
                            if d == q {
                                assert(stack@[stack@.len() - 1] == q);
                            } else {
                                assert(changed(v0, bv, d));
                                if st.contains(d) {
                                    let m = choose|m: int| 0 <= m < st.len() && st[m] == d;
                                    assert(stack@[m] == d);
                                } else {
                                    assert(settled(v0, bv, d));
                                    assert forall|e: Point|
                                        v0.contains(e) && adjacent(d, e)
                                            && v0.cell(e).is_closed_number() implies #[trigger] changed(
                                        v0,
                                        b@,
                                        e,
                                    ) by {
                                        assert(changed(v0, bv, e));
                                    }
                                }
                            }
                        }
                    }
                }
                proof {
                    if closed_count is None {
                        assert(v0.contains(q));
                        assert(b_before.contains(q));
                        lemma_index(b_before, q);
                        if !changed(v0, b_before, q) {
                            assert(!v0.cell(q).is_closed_number());
                        }
                    }
                    assert forall|j: int|
                        0 <= j < k + 1 && #[trigger] v0.cell(ns@[j]).is_closed_number() implies changed(
                            v0,
                            b@,
                            ns@[j],
                        ) by {
                        if j < k {
                            assert(changed(v0, b_before, ns@[j]));
                            assert(ns@.contains(ns@[j]));
                        }
                    }
                }
                k = k + 1;
            }
            proof {
                assert(settled(v0, b@, c)) by {
                    assert forall|e: Point|
                        v0.contains(e) && adjacent(c, e)
                            && v0.cell(e).is_closed_number() implies #[trigger] changed(v0, b@, e) by {
                        assert(ns@.contains(e));
                        let j = choose|j: int| 0 <= j < ns@.len() && ns@[j] == e;
                        assert(v0.cell(ns@[j]).is_closed_number());
                    }
                }
            }
        }
        proof {
            let cells = flood_cells(v0, *p);
            assert forall|i: int| 0 <= i < v0.cells.len() implies #[trigger] b@.cells[i] == cells[i] by {
                lemma_point_of(v0, i);
                let q = v0.point_of(i);
                if floods(v0, *p, q) {
                    lemma_flood_complete(v0, *p, b@, q);
                } else {
                    if changed(v0, b@, q) {
                    }
                }
            }
            assert(b@.cells =~= cells);
        }
        b
    }

    /// Opens the cell at `p`. Returns `None` where `p` is outside the grid
    /// or its cell is flagged or an open number. A mine that is not flagged
    /// loses the game: the board comes back unchanged but for the state
    /// `Failed`. A closed number cell opens, and where no mine is around
    /// it, so do its neighbours, on through every cell reached this way.
    pub fn cascade_open_item(&self, p: &Point) -> (r: Option<Board>)
        requires
            self.wf(),
            self@.numbered(),
            self@.counter_in_range(),
        ensures
            match r {
                None => self@.cascade(*p) is None,
                Some(b) => b.wf() && self@.cascade(*p) == Some(b@),
            },
            r matches Some(b) ==> self@.same_but_visibility(b@) && b@.numbered()
                && b@.counter_in_range(),
    {
        proof {
            lemma_cascade_keeps(self@, *p);
        }
        match self.at(p) {
            None => None,
            Some(MapElement::Mine { state: MapElementCellState::Flagged }) => None,
            Some(MapElement::Mine { .. }) => Some(self.failed()),
            Some(MapElement::Number { state: MapElementCellState::Closed, count }) => Some(
                self.flood(p, *count),
            ),
            Some(MapElement::Number { .. }) => None,
        }
    }
}

/// Opening changes only visibilities, so the board stays numbered, and it
/// counts down the counter and the closed number cells together.
pub proof fn lemma_cascade_keeps(v: BoardView, p: Point)
    requires
        v.wf(),
        v.numbered(),
        v.counter_in_range(),
    ensures
        v.cascade(p) matches Some(w) ==> v.same_but_visibility(w) && w.numbered()
            && w.counter_in_range(),
{
    if let Some(w) = v.cascade(p) {
        assert forall|i: int| 0 <= i < v.cells.len() implies (#[trigger] w.cells[i]).with_visibility(
            v.cells[i].visibility(),
        ) == v.cells[i] by {}
        crate::numbering::lemma_numbered_kept(v, w);
    }
}

/// A closed number cell at `q` is counted among the closed number cells.
pub proof fn lemma_closed_number_counted_at(v: BoardView, q: Point)
    requires
        v.wf(),
        v.contains(q),
        v.cell(q).is_closed_number(),
    ensures
        v.closed_numbers() >= 1,
{
    lemma_index(v, q);
    crate::board::lemma_closed_number_counted(v.cells, v.index(q));
}

/// The cell at `q` after the flood fill from `p`.
pub proof fn lemma_opened_cell(v: BoardView, p: Point, q: Point)
    requires
        v.wf(),
        v.contains(q),
    ensures
        v.opened(p).cell(q) == if floods(v, p, q) {
            v.cell(q).with_visibility(MapElementCellState::Open)
        } else {
            v.cell(q)
        },
{
    lemma_index(v, q);
}

/// The flood fill from a closed number cell opens a maximal region: the
/// start is opened; every reached cell is opened and every other cell is
/// left as it was, so no mine and no flagged cell is ever opened; and
/// every closed number cell next to a reached cell with no mine around is
/// reached too. The region only grows through closed number cells, so it
/// never passes through a mine.
pub proof fn lemma_flood_region(v: BoardView, p: Point)
    requires
        v.wf(),
        v.contains(p),
        v.cell(p).is_closed_number(),
    ensures
        v.opened(p).cell(p) == v.cell(p).with_visibility(MapElementCellState::Open),
        forall|q: Point|
            v.contains(q) && #[trigger] floods(v, p, q) ==> v.opened(p).cell(q) == v.cell(
                q,
            ).with_visibility(MapElementCellState::Open) && v.cell(q).is_closed_number(),
        forall|q: Point|
            v.contains(q) && !(#[trigger] floods(v, p, q)) ==> v.opened(p).cell(q) == v.cell(q),
        forall|q: Point|
            v.contains(q) && (v.cell(q) is Mine || v.cell(q).visibility()
                == MapElementCellState::Flagged) ==> #[trigger] v.opened(p).cell(q) == v.cell(q),
        forall|c: Point, q: Point|
            #[trigger] floods(v, p, c) && v.cell(c)->count == 0 && adjacent(c, q) && v.contains(q)
                && v.cell(q).is_closed_number() ==> #[trigger] floods(v, p, q),
{
    lemma_floods_start(v, p);
    lemma_opened_cell(v, p, p);
    assert forall|q: Point| v.contains(q) implies #[trigger] v.opened(p).cell(q) == if floods(
        v,
        p,
        q,
    ) {
        v.cell(q).with_visibility(MapElementCellState::Open)
    } else {
        v.cell(q)
    } by {
        lemma_opened_cell(v, p, q);
    }
    assert forall|q: Point| v.contains(q) && #[trigger] floods(v, p, q) implies v.cell(
        q,
    ).is_closed_number() by {
        lemma_floods_closed(v, p, q);
    }
    assert forall|c: Point, q: Point|
        #[trigger] floods(v, p, c) && v.cell(c)->count == 0 && adjacent(c, q) && v.contains(q)
            && v.cell(q).is_closed_number() implies #[trigger] floods(v, p, q) by {
        lemma_floods_step(v, p, c, q);
    }
}

/// Number of cells, among the first `n` in row-major order, that the
/// flood from `p` reaches.
pub open spec fn reached_count(v: BoardView, p: Point, n: int) -> nat
    decreases n,
{
    if n <= 0 {
        0
    } else {
        reached_count(v, p, n - 1) + if floods(v, p, v.point_of(n - 1)) {
            1nat
        } else {
            0nat
        }
    }
}

proof fn lemma_reached_count(v: BoardView, p: Point, n: int)
    requires
        v.wf(),
        0 <= n <= v.cells.len(),
    ensures
        closed_number_total(v.cells.take(n)) - closed_number_total(flood_cells(v, p).take(n))
            == reached_count(v, p, n),
    decreases n,
{
    if n > 0 {
        lemma_reached_count(v, p, n - 1);
        let fc = flood_cells(v, p);
        assert(v.cells.take(n).drop_last() =~= v.cells.take(n - 1));
        assert(fc.take(n).drop_last() =~= fc.take(n - 1));
        let i = n - 1;
        lemma_point_of(v, i);
        if floods(v, p, v.point_of(i)) {
            lemma_floods_closed(v, p, v.point_of(i));
        }
    }
}

/// The flood fill counts the cells to open down by exactly the number of
/// cells it reaches.
pub proof fn lemma_flood_counts_reached_cells(v: BoardView, p: Point)
    requires
        v.wf(),
    ensures
        v.opened(p).missing == v.missing - reached_count(v, p, v.cells.len() as int),
{
    lemma_reached_count(v, p, v.cells.len() as int);
    assert(v.cells.take(v.cells.len() as int) =~= v.cells);
    assert(flood_cells(v, p).take(v.cells.len() as int) =~= flood_cells(v, p));
}

/// Opening the last closed number cell of a board whose counter is exact
/// wins the game: nothing is left to open.
pub proof fn lemma_opening_last_safe_cell_wins(v: BoardView, p: Point)
    requires
        v.wf(),
        exact_counter(v),
        v.contains(p),
        v.cell(p).is_closed_number(),
        forall|q: Point| v.contains(q) && q != p ==> !v.cell(q).is_closed_number(),
    ensures
        v.cascade(p) matches Some(w) && w.state == BoardState::Won && w.missing == 0
            && w.closed_numbers() == 0,
{
    let fc = flood_cells(v, p);
    lemma_floods_start(v, p);
    lemma_closed_number_counted_at(v, p);
    assert forall|i: int| 0 <= i < fc.len() implies !(#[trigger] fc[i]).is_closed_number() by {
        lemma_point_of(v, i);
    }
    lemma_no_closed_numbers(fc);
}

/// Opening a flagged cell, or an open number cell, changes nothing.
pub proof fn lemma_open_flagged_or_open_is_noop(v: BoardView, p: Point)
    requires
        v.contains(p),
        v.cell(p).visibility() == MapElementCellState::Flagged || v.cell(p)
            matches MapElement::Number { state: MapElementCellState::Open, .. },
    ensures
        v.cascade(p) is None,
{
}

/// Opening a mine that is not flagged loses the game, whatever is left to
/// open: the state becomes `Failed`, the cells stay as they were.
pub proof fn lemma_open_mine_fails(v: BoardView, p: Point)
    requires
        v.contains(p),
        v.cell(p) is Mine,
        v.cell(p).visibility() != MapElementCellState::Flagged,
    ensures
        v.cascade(p) matches Some(w) && w.state == BoardState::Failed && w.cells == v.cells
            && w.missing == v.missing,
{
}

/// Opening the points one after the other, as a player does; a point
/// where opening gives nothing leaves the board as it is.
pub open spec fn open_all(v: BoardView, ps: Seq<Point>) -> BoardView
    decreases ps.len(),
{
    if ps.len() == 0 {
        v
    } else {
        let w = open_all(v, ps.drop_last());
        match w.cascade(ps.last()) {
            Some(n) => n,
            None => w,
        }
    }
}

/// No number cell is flagged.
pub open spec fn no_flagged_numbers(v: BoardView) -> bool {
    forall|i: int|
        0 <= i < v.cells.len() ==> !(#[trigger] v.cells[i] matches MapElement::Number {
            state: MapElementCellState::Flagged,
            ..
        })
}

/// The counter of cells to open is exact: it equals the closed number
/// cells.
pub open spec fn exact_counter(v: BoardView) -> bool {
    v.missing == v.closed_numbers()
}

proof fn lemma_no_closed_numbers(s: Seq<MapElement>)
    requires
        forall|i: int| 0 <= i < s.len() ==> !(#[trigger] s[i]).is_closed_number(),
    ensures
        closed_number_total(s) == 0,
    decreases s.len(),
{
    if s.len() > 0 {
        lemma_no_closed_numbers(s.drop_last());
    }
}

/// What holds after opening a prefix of the points.
spec fn opening_progress(v: BoardView, ps: Seq<Point>, w: BoardView) -> bool {
    &&& w.wf()
    &&& w.width == v.width
    &&& w.height == v.height
    &&& w.cells.len() == v.cells.len()
    &&& forall|i: int| 0 <= i < v.cells.len() ==> (#[trigger] w.cells[i] is Mine) == (v.cells[i] is Mine)
    &&& no_flagged_numbers(w)
    &&& exact_counter(w)
    &&& w.closed_numbers() == 0 ==> w.state == BoardState::Won
    &&& forall|i: int|
        0 <= i < v.cells.len() && !v.cells[i].is_closed_number() ==> !(
        #[trigger] w.cells[i]).is_closed_number()
    &&& forall|j: int|
        0 <= j < ps.len() && v.contains(ps[j]) ==> !w.cell(#[trigger] ps[j]).is_closed_number()
}

proof fn lemma_opening_progress(v: BoardView, ps: Seq<Point>)
    requires
        v.wf(),
        no_flagged_numbers(v),
        exact_counter(v),
        v.closed_numbers() >= 1,
        forall|j: int|
            0 <= j < ps.len() ==> !(v.at(#[trigger] ps[j]) matches Some(MapElement::Mine { .. })),
    ensures
        opening_progress(v, ps, open_all(v, ps)),
    decreases ps.len(),
{
    if ps.len() == 0 {
        return;
    }
    let prefix = ps.drop_last();
    lemma_opening_progress(v, prefix);
    let w = open_all(v, prefix);
    let q = ps.last();
    let n = open_all(v, ps);
    assert(forall|j: int| 0 <= j < prefix.len() ==> prefix[j] == ps[j]);
    if !w.contains(q) {
        assert(n == w);
        assert forall|j: int| 0 <= j < ps.len() && v.contains(ps[j]) implies !n.cell(
            #[trigger] ps[j],
        ).is_closed_number() by {
            if j < prefix.len() {
                assert(prefix[j] == ps[j]);
            }
        }
        return;
    }
    lemma_index(w, q);
    lemma_index(v, q);
    assert(!(w.cell(q) is Mine));
    if !w.cell(q).is_closed_number() {
        assert(w.cascade(q) is None);
        assert(n == w);
        assert forall|j: int| 0 <= j < ps.len() && v.contains(ps[j]) implies !n.cell(
            #[trigger] ps[j],
        ).is_closed_number() by {
            if j < prefix.len() {
                assert(prefix[j] == ps[j]);
            }
        }
        return;
    }
    assert(n == w.opened(q));
    lemma_flood_region(w, q);
    assert forall|r: Point| w.contains(r) implies #[trigger] n.cell(r) == if floods(w, q, r) {
        w.cell(r).with_visibility(MapElementCellState::Open)
    } else {
        w.cell(r)
    } by {
        lemma_opened_cell(w, q, r);
    }
    assert forall|i: int| 0 <= i < v.cells.len() implies (#[trigger] n.cells[i] is Mine) == (v.cells[i] is Mine)
        && (!w.cells[i].is_closed_number() ==> n.cells[i] == w.cells[i]) && (n.cells[i] == w.cells[i]
        || n.cells[i] == w.cells[i].with_visibility(MapElementCellState::Open)) by {
        lemma_point_of(w, i);
        let r = w.point_of(i);
        lemma_opened_cell(w, q, r);
        if floods(w, q, r) {
            lemma_floods_closed(w, q, r);
        }
    }
    assert forall|i: int| 0 <= i < w.cells.len() implies (#[trigger] w.cells[i] is Mine) == (
    n.cells[i] is Mine) by {
        assert(n.cells[i] is Mine == v.cells[i] is Mine);
    }
    crate::numbering::lemma_mine_total_same_mines(w.cells, n.cells);
    assert forall|j: int| 0 <= j < ps.len() && v.contains(ps[j]) implies !n.cell(
        #[trigger] ps[j],
    ).is_closed_number() by {
        lemma_index(v, ps[j]);
        if j < prefix.len() {
            assert(prefix[j] == ps[j]);
        }
    }
    if n.closed_numbers() == 0 {
        assert(w.missing == w.closed_numbers());
        lemma_closed_number_counted_at(w, q);
    }
}

/// Opening, one after the other, points that cover every closed number
/// cell and hit no mine wins the game, where the counter of cells to open
/// is exact and no number cell is flagged (a flagged cell cannot be
/// opened).
pub proof fn lemma_opening_every_safe_cell_wins(v: BoardView, ps: Seq<Point>)
    requires
        v.wf(),
        no_flagged_numbers(v),
        exact_counter(v),
        v.closed_numbers() >= 1,
        forall|j: int|
            0 <= j < ps.len() ==> !(v.at(#[trigger] ps[j]) matches Some(MapElement::Mine { .. })),
        forall|q: Point| v.contains(q) && v.cell(q).is_closed_number() ==> ps.contains(q),
    ensures
        open_all(v, ps).state == BoardState::Won,
        open_all(v, ps).missing == 0,
{
    lemma_opening_progress(v, ps);
    let w = open_all(v, ps);
    assert forall|i: int| 0 <= i < w.cells.len() implies !(#[trigger] w.cells[i]).is_closed_number() by {
        if v.cells[i].is_closed_number() {
            lemma_point_of(v, i);
            let q = v.point_of(i);
            assert(ps.contains(q));
            let j = choose|j: int| 0 <= j < ps.len() && ps[j] == q;
            assert(!w.cell(ps[j]).is_closed_number());
        }
    }
    lemma_no_closed_numbers(w.cells);
}

} // verus!
