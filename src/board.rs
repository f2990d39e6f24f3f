//! The grid model: cells, points, the board and its mathematical view.

use vstd::prelude::*;

verus! {

/// Visibility of one cell. `Open` is terminal.
#[derive(Debug, Clone, Copy, PartialEq, Eq, Structural)]
pub enum MapElementCellState {
    Closed,
    Open,
    Flagged,
}

/// One cell of the grid: a mine, or a number of adjacent mines.
#[derive(Debug, Clone, Copy, PartialEq, Eq, Structural)]
pub enum MapElement {
    Mine { state: MapElementCellState },
    Number { state: MapElementCellState, count: i32 },
}

impl MapElement {
    pub open spec fn visibility(self) -> MapElementCellState {
        match self {
            MapElement::Mine { state } => state,
            MapElement::Number { state, .. } => state,
        }
    }

    /// The same cell with another visibility.
    pub open spec fn with_visibility(self, s: MapElementCellState) -> MapElement {
        match self {
            MapElement::Mine { .. } => MapElement::Mine { state: s },
            MapElement::Number { count, .. } => MapElement::Number { state: s, count },
        }
    }

    /// A number cell that has not been opened or flagged yet.
    pub open spec fn is_closed_number(self) -> bool {
        self matches MapElement::Number { state: MapElementCellState::Closed, .. }
    }
}

/// A coordinate; it may lie outside the grid.
#[derive(Debug, Clone, Copy, PartialEq, Eq, PartialOrd, Structural)]
pub struct Point {
    pub x: i32,
    pub y: i32,
}

impl Point {
    pub fn new(x: usize, y: usize) -> (r: Point)
        ensures
            r.x == x as i32,
            r.y == y as i32,
            x <= i32::MAX ==> r.x == x,
            y <= i32::MAX ==> r.y == y,
    {
        Point { x: x as i32, y: y as i32 }
    }
}

/// Life cycle of a board.
#[derive(Debug, Clone, Copy, PartialEq, Eq, Structural)]
pub enum BoardState {
    NotReady,
    Ready,
    Playing,
    Won,
    Failed,
}

/// Number of mines in a sequence of cells.
pub open spec fn mine_total(s: Seq<MapElement>) -> nat
    decreases s.len(),
{
    if s.len() == 0 {
        0
    } else {
        mine_total(s.drop_last()) + if s.last() is Mine {
            1nat
        } else {
            0nat
        }
    }
}

/// Number of closed number cells in a sequence of cells.
pub open spec fn closed_number_total(s: Seq<MapElement>) -> nat
    decreases s.len(),
{
    if s.len() == 0 {
        0
    } else {
        closed_number_total(s.drop_last()) + if s.last().is_closed_number() {
            1nat
        } else {
            0nat
        }
    }
}

/// State after a change that leaves `missing` cells to open.
pub open spec fn next_state(s: BoardState, missing: int) -> BoardState {
    if missing == 0 {
        BoardState::Won
    } else if s == BoardState::Ready {
        BoardState::Playing
    } else {
        s
    }
}

/// Flagging swaps closed and flagged; an open cell stays open.
pub open spec fn toggled(s: MapElementCellState) -> MapElementCellState {
    match s {
        MapElementCellState::Closed => MapElementCellState::Flagged,
        MapElementCellState::Flagged => MapElementCellState::Closed,
        MapElementCellState::Open => MapElementCellState::Open,
    }
}

/// The rows laid one after the other.
pub open spec fn flat(rows: Seq<Seq<MapElement>>) -> Seq<MapElement>
    decreases rows.len(),
{
    if rows.len() == 0 {
        seq![]
    } else {
        flat(rows.drop_last()) + rows.last()
    }
}

pub open spec fn rows_view(rows: Seq<Vec<MapElement>>) -> Seq<Seq<MapElement>> {
    rows.map_values(|r: Vec<MapElement>| r@)
}

/// Mathematical view of a board: the cells in row-major order and the
/// board's bookkeeping.
pub struct BoardView {
    pub width: nat,
    pub height: nat,
    pub cells: Seq<MapElement>,
    pub mines: nat,
    /// Number cells still to be opened, as counted down by each change.
    pub missing: int,
    pub state: BoardState,
}

impl BoardView {
    pub open spec fn in_bounds(self, x: int, y: int) -> bool {
        0 <= x < self.width && 0 <= y < self.height
    }

    pub open spec fn contains(self, p: Point) -> bool {
        self.in_bounds(p.x as int, p.y as int)
    }

    /// Row-major position of an in-bounds point.
    pub open spec fn index(self, p: Point) -> int {
        p.y * self.width + p.x
    }

    /// The point at a row-major position.
    pub open spec fn point_of(self, i: int) -> Point {
        Point { x: (i % self.width as int) as i32, y: (i / self.width as int) as i32 }
    }

    pub open spec fn cell(self, p: Point) -> MapElement {
        self.cells[self.index(p)]
    }

    pub open spec fn at(self, p: Point) -> Option<MapElement> {
        if self.contains(p) {
            Some(self.cell(p))
        } else {
            None
        }
    }

    /// The in-bounds points among the first `k` of the nine positions of the
    /// 3x3 square centred on `p`, taken column by column (`dx` major, `dy`
    /// minor); the centre, position 4, is skipped.
    pub open spec fn around(self, p: Point, k: int) -> Seq<Point>
        decreases k,
    {
        if k <= 0 {
            seq![]
        } else {
            let prev = self.around(p, k - 1);
            let j = k - 1;
            let x = p.x + j / 3 - 1;
            let y = p.y + j % 3 - 1;
            if j != 4 && self.in_bounds(x, y) {
                prev.push(Point { x: x as i32, y: y as i32 })
            } else {
                prev
            }
        }
    }

    /// The in-bounds neighbours of `p`, in traversal order.
    pub open spec fn neighbors(self, p: Point) -> Seq<Point> {
        self.around(p, 9)
    }

    pub open spec fn wf(self) -> bool {
        &&& self.cells.len() == self.width * self.height
        &&& self.width <= i32::MAX
        &&& self.height <= i32::MAX
        &&& self.width * self.height <= i32::MAX
        &&& self.mines == mine_total(self.cells)
    }

    /// The view after the cell at `p` becomes `e`: a closed number cell
    /// that changes counts down `missing`, and the state follows.
    pub open spec fn replaced(self, p: Point, e: MapElement) -> BoardView {
        let missing = if self.cell(p).is_closed_number() {
            self.missing - 1
        } else {
            self.missing
        };
        BoardView {
            width: self.width,
            height: self.height,
            cells: self.cells.update(self.index(p), e),
            mines: self.mines,
            missing,
            state: next_state(self.state, missing),
        }
    }

    /// The view after flagging `p`: closed and flagged swap, open stays.
    pub open spec fn flagged(self, p: Point) -> BoardView {
        if self.contains(p) {
            self.replaced(p, self.cell(p).with_visibility(toggled(self.cell(p).visibility())))
        } else {
            self
        }
    }

    /// The same cells, lost.
    pub open spec fn failed(self) -> BoardView {
        BoardView { state: BoardState::Failed, ..self }
    }

    /// `other` has the dimensions and the cells of this board, each cell
    /// possibly with another visibility: the mines stay where they are and
    /// every number keeps its count.
    pub open spec fn same_but_visibility(self, other: BoardView) -> bool {
        &&& other.width == self.width
        &&& other.height == self.height
        &&& other.cells.len() == self.cells.len()
        &&& forall|i: int|
            0 <= i < self.cells.len() ==> (#[trigger] other.cells[i]).with_visibility(
                self.cells[i].visibility(),
            ) == self.cells[i]
    }

    pub open spec fn closed_numbers(self) -> nat {
        closed_number_total(self.cells)
    }

    /// The counter of cells still to open can be counted down once for
    /// every closed number cell without leaving `i32`.
    pub open spec fn counter_in_range(self) -> bool {
        self.missing - self.closed_numbers() >= i32::MIN
    }
}

/// A rectangular grid of cells, stored row-major, with its bookkeeping.
/// The operations keep `wf`; code that assigns the fields directly must
/// keep it too.
#[derive(Debug, Clone, PartialEq, Eq)]
pub struct Board {
    /// `height` rows of `width` cells, one row after the other.
    pub cells: Vec<MapElement>,
    /// Number cells still to be opened: counted down each time a closed
    /// number cell changes.
    pub missing_points: i32,
    pub width: usize,
    pub height: usize,
    pub mines: usize,
    pub state: BoardState,
}

impl View for Board {
    type V = BoardView;

    open spec fn view(&self) -> BoardView {
        BoardView {
            width: self.width as nat,
            height: self.height as nat,
            cells: self.cells@,
            mines: self.mines as nat,
            missing: self.missing_points as int,
            state: self.state,
        }
    }
}

/// `q` is one of the eight points around `p`.
pub open spec fn adjacent(p: Point, q: Point) -> bool {
    &&& q != p
    &&& -1 <= q.x - p.x <= 1
    &&& -1 <= q.y - p.y <= 1
}

/// Position of `q` in the 3x3 square centred on `p`, column by column.
pub open spec fn square_rank(p: Point, q: Point) -> int {
    (q.x - p.x + 1) * 3 + (q.y - p.y + 1)
}

proof fn lemma_around(v: BoardView, p: Point, k: int)
    requires
        0 <= k <= 9,
        v.wf(),
    ensures
        forall|q: Point|
            v.around(p, k).contains(q) <==> (v.contains(q) && adjacent(p, q) && square_rank(p, q)
                < k),
        v.around(p, k).no_duplicates(),
        v.around(p, k).len() <= if k > 4 {
            k - 1
        } else {
            k
        },
    decreases k,
{
    if k > 0 {
        lemma_around(v, p, k - 1);
        let prev = v.around(p, k - 1);
        let j = k - 1;
        let x = p.x + j / 3 - 1;
        let y = p.y + j % 3 - 1;
        let n = Point { x: x as i32, y: y as i32 };
        if j != 4 && v.in_bounds(x, y) {
            assert(square_rank(p, n) == j);
            assert(adjacent(p, n));
            assert(!prev.contains(n));
            assert(v.around(p, k) == prev.push(n));
            assert forall|q: Point|
                v.around(p, k).contains(q) <==> (v.contains(q) && adjacent(p, q) && square_rank(
                    p,
                    q,
                ) < k) by {
                if v.contains(q) && adjacent(p, q) && square_rank(p, q) == j {
                    assert(q.x == n.x && q.y == n.y);
                }
                if v.around(p, k).contains(q) {
                    let m = choose|m: int| 0 <= m < v.around(p, k).len() && v.around(p, k)[m] == q;
                    if m < prev.len() {
                        assert(prev[m] == q);
                        assert(prev.contains(q));
                    } else {
                        assert(q == n);
                    }
                }
                if prev.contains(q) {
                    let m = choose|m: int| 0 <= m < prev.len() && prev[m] == q;
                    assert(v.around(p, k)[m] == q);
                }
                if q == n {
                    assert(v.around(p, k)[prev.len() as int] == q);
                }
            }
            assert forall|a: int, b: int|
                0 <= a < v.around(p, k).len() && 0 <= b < v.around(p, k).len() && a != b implies
                v.around(p, k)[a] != v.around(p, k)[b] by {
                if a < prev.len() && b < prev.len() {
                } else if a < prev.len() {
                    assert(prev.contains(prev[a]));
                } else if b < prev.len() {
                    assert(prev.contains(prev[b]));
                }
            }
        } else {
            assert forall|q: Point|
                v.around(p, k).contains(q) <==> (v.contains(q) && adjacent(p, q) && square_rank(
                    p,
                    q,
                ) < k) by {
                if v.contains(q) && adjacent(p, q) && square_rank(p, q) == j {
                    assert(q.x == x && q.y == y);
                    if j == 4 {
                        assert(q.x == p.x && q.y == p.y);
                        assert(q == p);
                    }
                }
            }
        }
    } else {
        assert forall|q: Point|
            v.around(p, k).contains(q) <==> (v.contains(q) && adjacent(p, q) && square_rank(p, q)
                < k) by {
            if v.contains(q) && adjacent(p, q) {
                assert(square_rank(p, q) >= 0);
            }
        }
    }
}

/// The neighbours of `p` are exactly the in-bounds points adjacent to it,
/// each once.
pub proof fn lemma_neighbors(v: BoardView, p: Point)
    requires
        v.wf(),
    ensures
        forall|q: Point| v.neighbors(p).contains(q) <==> (v.contains(q) && adjacent(p, q)),
        v.neighbors(p).no_duplicates(),
        v.neighbors(p).len() <= 8,
{
    lemma_around(v, p, 9);
}

pub proof fn lemma_mine_total_bound(s: Seq<MapElement>)
    ensures
        mine_total(s) <= s.len(),
    decreases s.len(),
{
    if s.len() > 0 {
        lemma_mine_total_bound(s.drop_last());
    }
}

pub proof fn lemma_closed_number_total_bound(s: Seq<MapElement>)
    ensures
        closed_number_total(s) <= s.len(),
    decreases s.len(),
{
    if s.len() > 0 {
        lemma_closed_number_total_bound(s.drop_last());
    }
}

/// Cells that agree on which of them are closed number cells count the
/// same closed number cells.
pub proof fn lemma_closed_number_total_same(s: Seq<MapElement>, t: Seq<MapElement>)
    requires
        s.len() == t.len(),
        forall|i: int|
            0 <= i < s.len() ==> (#[trigger] s[i]).is_closed_number() == t[i].is_closed_number(),
    ensures
        closed_number_total(s) == closed_number_total(t),
    decreases s.len(),
{
    if s.len() > 0 {
        lemma_closed_number_total_same(s.drop_last(), t.drop_last());
    }
}

/// Changing a cell without changing its kind keeps the number of mines,
/// and changes the number of closed number cells by what the cell was and
/// became.
pub proof fn lemma_totals_update(s: Seq<MapElement>, i: int, e: MapElement)
    requires
        0 <= i < s.len(),
        (s[i] is Mine) == (e is Mine),
    ensures
        mine_total(s.update(i, e)) == mine_total(s),
        closed_number_total(s.update(i, e)) == closed_number_total(s) - (if s[i].is_closed_number() {
            1int
        } else {
            0int
        }) + (if e.is_closed_number() {
            1int
        } else {
            0int
        }),
    decreases s.len(),
{
    let t = s.update(i, e);
    if i < s.len() - 1 {
        lemma_totals_update(s.drop_last(), i, e);
        assert(t.drop_last() =~= s.drop_last().update(i, e));
    } else {
        assert(t.drop_last() =~= s.drop_last());
    }
}

pub proof fn lemma_totals_push(s: Seq<MapElement>, e: MapElement)
    ensures
        mine_total(s.push(e)) == mine_total(s) + if e is Mine {
            1int
        } else {
            0int
        },
        closed_number_total(s.push(e)) == closed_number_total(s) + if e.is_closed_number() {
            1int
        } else {
            0int
        },
{
    assert(s.push(e).drop_last() =~= s);
}

/// Rows of one length laid one after the other.
pub proof fn lemma_flat_len(rows: Seq<Seq<MapElement>>, w: nat)
    requires
        forall|i: int| 0 <= i < rows.len() ==> rows[i].len() == w,
    ensures
        flat(rows).len() == rows.len() * w,
    decreases rows.len(),
{
    if rows.len() > 0 {
        lemma_flat_len(rows.drop_last(), w);
        assert(flat(rows).len() == (rows.len() - 1) * w + w);
        assert((rows.len() - 1) * w + w == rows.len() * w) by (nonlinear_arith);
    }
}

/// Taking one more row adds that row.
pub proof fn lemma_flat_take(rows: Seq<Seq<MapElement>>, y: int)
    requires
        0 <= y < rows.len(),
    ensures
        flat(rows.take(y + 1)) == flat(rows.take(y)) + rows[y],
{
    assert(rows.take(y + 1).drop_last() =~= rows.take(y));
}

/// Where each row has `w` cells, cell `x` of row `y` lies at `y * w + x`.
pub proof fn lemma_flat_index(rows: Seq<Seq<MapElement>>, w: nat, x: int, y: int)
    requires
        forall|i: int| 0 <= i < rows.len() ==> (#[trigger] rows[i]).len() == w,
        0 <= y < rows.len(),
        0 <= x < w,
    ensures
        flat(rows)[y * w + x] == rows[y][x],
    decreases rows.len(),
{
    let last = rows.len() - 1;
    lemma_flat_len(rows.drop_last(), w);
    if y < last {
        lemma_flat_index(rows.drop_last(), w, x, y);
        assert(y * w + x < last * w) by (nonlinear_arith)
            requires
                y < last,
                0 <= x < w,
        ;
    } else {
        assert(flat(rows.drop_last()).len() == last * w);
    }
}

/// A closed number cell is counted among the closed number cells.
pub proof fn lemma_closed_number_counted(s: Seq<MapElement>, i: int)
    requires
        0 <= i < s.len(),
        s[i].is_closed_number(),
    ensures
        closed_number_total(s) >= 1,
    decreases s.len(),
{
    if i < s.len() - 1 {
        lemma_closed_number_counted(s.drop_last(), i);
    }
}

/// The neighbours of a point depend on the board's dimensions alone.
pub proof fn lemma_neighbors_same_dims(v: BoardView, w: BoardView, p: Point)
    requires
        v.width == w.width,
        v.height == w.height,
    ensures
        v.neighbors(p) == w.neighbors(p),
{
    lemma_around_same_dims(v, w, p, 9);
}

proof fn lemma_around_same_dims(v: BoardView, w: BoardView, p: Point, k: int)
    requires
        v.width == w.width,
        v.height == w.height,
    ensures
        v.around(p, k) == w.around(p, k),
    decreases k,
{
    if k > 0 {
        lemma_around_same_dims(v, w, p, k - 1);
    }
}

/// Facts of row-major indexing.
pub proof fn lemma_index(v: BoardView, p: Point)
    requires
        v.contains(p),
    ensures
        0 <= v.index(p) < v.width * v.height,
        v.point_of(v.index(p)) == p,
{
    let w = v.width as int;
    let h = v.height as int;
    let x = p.x as int;
    let y = p.y as int;
    assert(0 <= y * w + x < w * h) by (nonlinear_arith)
        requires
            0 <= x < w,
            0 <= y < h,
    ;
    vstd::arithmetic::div_mod::lemma_fundamental_div_mod_converse(y * w + x, w, y, x);
}

/// Facts of the inverse of row-major indexing.
pub proof fn lemma_point_of(v: BoardView, i: int)
    requires
        0 <= i < v.width * v.height,
        v.width * v.height <= i32::MAX,
    ensures
        v.contains(v.point_of(i)),
        v.index(v.point_of(i)) == i,
{
    let w = v.width as int;
    let h = v.height as int;
    assert(w > 0) by (nonlinear_arith)
        requires
            0 <= i < w * h,
            h >= 0,
    ;
    vstd::arithmetic::div_mod::lemma_fundamental_div_mod(i, w);
    vstd::arithmetic::div_mod::lemma_div_pos_is_pos(i, w);
    vstd::arithmetic::div_mod::lemma_mod_bound(i, w);
    assert(i / w < h) by (nonlinear_arith)
        requires
            i == w * (i / w) + i % w,
            0 <= i % w,
            i < w * h,
            w > 0,
    ;
    assert(w <= i32::MAX) by (nonlinear_arith)
        requires
            0 <= i < w * h,
            w * h <= i32::MAX,
            w > 0,
    ;
    assert(h <= i32::MAX) by (nonlinear_arith)
        requires
            0 <= i < w * h,
            w * h <= i32::MAX,
            w > 0,
    ;
    let q = v.point_of(i);
    assert(q.x == i % w && q.y == i / w);
    assert((i / w) * w == w * (i / w)) by (nonlinear_arith);
}

fn toggle(s: MapElementCellState) -> (r: MapElementCellState)
    ensures
        r == toggled(s),
{
    match s {
        MapElementCellState::Closed => MapElementCellState::Flagged,
        MapElementCellState::Flagged => MapElementCellState::Closed,
        MapElementCellState::Open => MapElementCellState::Open,
    }
}

impl Board {
    /// The board is well formed, and its public fields agree with its view.
    pub open spec fn wf(&self) -> bool {
        &&& self@.wf()
        &&& self@.width == self.width
        &&& self@.height == self.height
        &&& self@.mines == self.mines
        &&& self@.state == self.state
    }

    /// A board of the given rows, all of one length: the mines are counted,
    /// every number cell is still to open, and the board waits for its
    /// numbers.
    pub fn new(map: Vec<Vec<MapElement>>) -> (r: Board)
        requires
            map@.len() >= 1,
            forall|i: int| 0 <= i < map@.len() ==> (#[trigger] map@[i])@.len() == map@[0]@.len(),
            map@.len() <= i32::MAX,
            map@[0]@.len() * map@.len() <= i32::MAX,
        ensures
            r.wf(),
            r@.width == map@[0]@.len(),
            r@.height == map@.len(),
            r@.cells == flat(rows_view(map@)),
            r@.missing == r@.width * r@.height - r@.mines,
            r@.state == BoardState::NotReady,
            r@.counter_in_range(),
    {
        let height = map.len();
        let width = map[0].len();
        let ghost rv = rows_view(map@);
        proof {
            lemma_flat_len(rv, width as nat);
            assert(rv.take(height as int) =~= rv);
            assert(width <= i32::MAX) by (nonlinear_arith)
                requires
                    width * height <= 0x7fff_ffff,
                    height >= 1,
                    width >= 0,
            ;

        }
        let mut cells: Vec<MapElement> = Vec::new();
        let mut mines: usize = 0;
        let mut y: usize = 0;
        while y < height
            invariant
                y <= height,
                height == map@.len(),
                width == map@[0]@.len(),
                rv == rows_view(map@),
                forall|i: int| 0 <= i < map@.len() ==> (#[trigger] map@[i])@.len() == width,
                cells@ == flat(rv.take(y as int)),
                mines == mine_total(cells@),
            decreases height - y,
        {
            let row = &map[y];
            let mut x: usize = 0;
            while x < width
                invariant
                    x <= width,
                    y < height,
                    height == map@.len(),
                    width == map@[0]@.len(),
                    rv == rows_view(map@),
                    forall|i: int| 0 <= i < map@.len() ==> (#[trigger] map@[i])@.len() == width,
                    *row == map@[y as int],
                    cells@ == flat(rv.take(y as int)) + row@.take(x as int),
                    mines == mine_total(cells@),
                decreases width - x,
            {
                let e = row[x];
                proof {
                    lemma_totals_push(cells@, e);
                    lemma_mine_total_bound(cells@);
                }
                cells.push(e);
                let n = cells.len();
                if matches!(e, MapElement::Mine { .. }) {
                    mines = mines + 1;
                }
                x = x + 1;
                assert(row@.take(x as int) =~= row@.take(x - 1).push(e));
                assert(cells@ =~= flat(rv.take(y as int)) + row@.take(x as int));
            }
            proof {
                lemma_flat_take(rv, y as int);
                assert(row@.take(width as int) =~= row@);
            }
            y = y + 1;
        }
        proof {
            lemma_mine_total_bound(cells@);
            lemma_closed_number_total_bound(cells@);
        }
        let total = width * height;
        assert(total == rv.len() * width) by (nonlinear_arith)
            requires
                total == width * height,
                rv.len() == height,
        ;
        Board {
            cells,
            missing_points: (total - mines) as i32,
            width,
            height,
            mines,
            state: BoardState::NotReady,
        }
    }

    /// The cells as `height` rows of `width` cells.
    pub fn rows(&self) -> (r: Vec<Vec<MapElement>>)
        requires
            self.wf(),
        ensures
            r@.len() == self@.height,
            forall|i: int| 0 <= i < r@.len() ==> r@[i]@.len() == self@.width,
            flat(rows_view(r@)) == self@.cells,
    {
        let mut r: Vec<Vec<MapElement>> = Vec::new();
        let mut i: usize = 0;
        let mut y: usize = 0;
        while y < self.height
            invariant
                self.wf(),
                y <= self.height,
                i == y * self.width,
                r@.len() == y,
                forall|k: int| 0 <= k < r@.len() ==> r@[k]@.len() == self@.width,
                flat(rows_view(r@)) == self@.cells.take(i as int),
            decreases self.height - y,
        {
            assert(i + self.width <= self.width * self.height) by (nonlinear_arith)
                requires
                    i == y * self.width,
                    y < self.height,
            ;
            let mut row: Vec<MapElement> = Vec::new();
            let mut x: usize = 0;
            while x < self.width
                invariant
                    self.wf(),
                    x <= self.width,
                    i + self.width <= self.width * self.height,
                    row@ == self@.cells.subrange(i as int, i + x),
                decreases self.width - x,
            {
                row.push(self.cells[i + x]);
                x = x + 1;
                assert(row@ =~= self@.cells.subrange(i as int, i + x));
            }
            let ghost before = r@;
            r.push(row);
            proof {
                assert(rows_view(r@).drop_last() =~= rows_view(before));
                assert(self@.cells.take(i + self.width) =~= self@.cells.take(i as int) + row@);
                assert((y + 1) * self.width == y * self.width + self.width) by (nonlinear_arith);
            }
            i = i + self.width;
            y = y + 1;
        }
        proof {
            assert(i == self.width * self.height) by (nonlinear_arith)
                requires
                    i == y * self.width,
                    y == self.height,
            ;
            assert(self@.cells.take(i as int) =~= self@.cells);
        }
        r
    }

    /// The cell at `p`, or `None` where `p` lies outside the grid.
    pub fn at(&self, p: &Point) -> (r: Option<&MapElement>)
        requires
            self.wf(),
        ensures
            match r {
                Some(e) => self@.at(*p) == Some(*e),
                None => self@.at(*p) is None,
            },
    {
        let width = self.width as i64;
        let height = self.height as i64;
        let x = p.x as i64;
        let y = p.y as i64;
        if x < 0 || x >= width || y < 0 || y >= height {
            None
        } else {
            proof {
                lemma_index(self@, *p);
            }
            let i = (y as usize) * self.width + (x as usize);
            Some(&self.cells[i])
        }
    }

    /// A copy of the cells.
    fn copy_cells(&self) -> (r: Vec<MapElement>)
        ensures
            r@ == self.cells@,
    {
        let mut r: Vec<MapElement> = Vec::with_capacity(self.cells.len());
        let mut i: usize = 0;
        while i < self.cells.len()
            invariant
                i <= self.cells.len(),
                r@ == self.cells@.take(i as int),
            decreases self.cells.len() - i,
        {
            r.push(self.cells[i]);
            i = i + 1;
            assert(r@ =~= self.cells@.take(i as int));
        }
        assert(r@ =~= self.cells@);
        r
    }

    /// A new board equal to this one but for the cell at `p`, which becomes
    /// `e`, a cell of the same kind. A closed number cell that changes
    /// counts down the cells left to open, and the state follows.
    pub(crate) fn replace(&self, p: &Point, e: MapElement) -> (r: Board)
        requires
            self.wf(),
            self@.contains(*p),
            (self@.cell(*p) is Mine) == (e is Mine),
            self@.cell(*p).is_closed_number() ==> self@.missing > i32::MIN,
        ensures
            r.wf(),
            r@ == self@.replaced(*p, e),
    {
        proof {
            lemma_index(self@, *p);
            lemma_totals_update(self@.cells, self@.index(*p), e);
        }
        let i = (p.y as usize) * self.width + (p.x as usize);
        let was_closed = matches!(self.cells[i], MapElement::Number { state: MapElementCellState::Closed, .. });
        let mut cells = self.copy_cells();
        cells.set(i, e);
        let missing_points = if was_closed {
            self.missing_points - 1
        } else {
            self.missing_points
        };
        let state = if missing_points == 0 {
            BoardState::Won
        } else if self.state == BoardState::Ready {
            BoardState::Playing
        } else {
            self.state
        };
        Board { cells, missing_points, width: self.width, height: self.height, mines: self.mines, state }
    }

    /// A copy of this board whose state is `Failed`.
    pub(crate) fn failed(&self) -> (r: Board)
        requires
            self.wf(),
        ensures
            r.wf(),
            r@ == self@.failed(),
    {
        Board {
            cells: self.copy_cells(),
            missing_points: self.missing_points,
            width: self.width,
            height: self.height,
            mines: self.mines,
            state: BoardState::Failed,
        }
    }

    /// Toggles the cell at `p` between closed and flagged; an open cell
    /// stays open. The change goes through the board's bookkeeping like any
    /// other, so flagging a closed number cell counts it down. A point
    /// outside the grid leaves the board as it is.
    pub fn flag_item(&self, p: &Point) -> (r: Board)
        requires
            self.wf(),
            self@.counter_in_range(),
        ensures
            r.wf(),
            r@ == self@.flagged(*p),
            self@.same_but_visibility(r@),
            self@.numbered() ==> r@.numbered(),
            !(self@.at(*p) matches Some(
                MapElement::Number { state: MapElementCellState::Flagged, .. },
            )) ==> r@.counter_in_range(),
    {
        proof {
            if self@.contains(*p) {
                let e = self@.cell(*p).with_visibility(toggled(self@.cell(*p).visibility()));
                lemma_index(self@, *p);
                lemma_totals_update(self@.cells, self@.index(*p), e);
                if self@.cell(*p).is_closed_number() {
                    lemma_closed_number_counted(self@.cells, self@.index(*p));
                }
            }
            let f = self@.flagged(*p);
            assert forall|i: int| 0 <= i < self@.cells.len() implies (#[trigger] f.cells[i]).with_visibility(
                self@.cells[i].visibility(),
            ) == self@.cells[i] by {}
            if self@.numbered() {
                crate::numbering::lemma_numbered_kept(self@, f);
            }
        }
        match self.at(p) {
            Some(MapElement::Mine { state }) => self.replace(p, MapElement::Mine { state: toggle(*state) }),
            Some(MapElement::Number { state, count }) => self.replace(
                p,
                MapElement::Number { state: toggle(*state), count: *count },
            ),
            None => Board {
                cells: self.copy_cells(),
                missing_points: self.missing_points,
                width: self.width,
                height: self.height,
                mines: self.mines,
                state: self.state,
            },
        }
    }

    /// The counter of cells to open can still count down every closed
    /// number cell: what opening and flagging ask of the board.
    pub fn counter_in_range(&self) -> (r: bool)
        requires
            self.wf(),
        ensures
            r == self@.counter_in_range(),
    {
        let mut closed: i64 = 0;
        let mut i: usize = 0;
        while i < self.cells.len()
            invariant
                self.wf(),
                i <= self.cells@.len(),
                closed == closed_number_total(self.cells@.take(i as int)),
                closed <= i,
            decreases self.cells@.len() - i,
        {
            proof {
                assert(self.cells@.take(i + 1).drop_last() =~= self.cells@.take(i as int));
            }
            if matches!(self.cells[i], MapElement::Number { state: MapElementCellState::Closed, .. }) {
                closed = closed + 1;
            }
            i = i + 1;
        }
        assert(self.cells@.take(i as int) =~= self.cells@);
        self.missing_points as i64 - closed >= i32::MIN as i64
    }

    /// The in-bounds neighbours of `p`, in traversal order.
    pub fn surrounding_points(&self, p: &Point) -> (r: Vec<Point>)
        requires
            self.wf(),
        ensures
            r@ == self@.neighbors(*p),
    {
        let mut r: Vec<Point> = Vec::new();
        let width = self.width as i64;
        let height = self.height as i64;
        let mut k: i64 = 0;
        while k < 9
            invariant
                0 <= k <= 9,
                width == self@.width,
                height == self@.height,
                r@ == self@.around(*p, k as int),
            decreases 9 - k,
        {
            let x = p.x as i64 + k / 3 - 1;
            let y = p.y as i64 + k % 3 - 1;
            if k != 4 && 0 <= x && x < width && 0 <= y && y < height {
                r.push(Point { x: x as i32, y: y as i32 });
            }
            k = k + 1;
        }
        r
    }
}

/// Flagging a cell twice gives its cell back, and leaves every other cell,
/// the dimensions and the mine count as they were. The whole board comes
/// back where the cell is outside the grid, or is a mine or open (no count
/// down), and the state is settled (one more change would not move it).
pub proof fn lemma_flag_twice(v: BoardView, p: Point)
    requires
        v.wf(),
    ensures
        v.flagged(p).flagged(p).cells == v.cells,
        v.flagged(p).flagged(p).width == v.width,
        v.flagged(p).flagged(p).height == v.height,
        v.flagged(p).flagged(p).mines == v.mines,
        (!v.contains(p) || ((v.cell(p) is Mine || v.cell(p).visibility()
            == MapElementCellState::Open) && next_state(v.state, v.missing) == v.state)) ==> v.flagged(
            p,
        ).flagged(p) == v,
{
    if v.contains(p) {
        lemma_index(v, p);
        let once = v.flagged(p);
        assert(once.cell(p) == v.cell(p).with_visibility(toggled(v.cell(p).visibility())));
        assert(once.flagged(p).cells =~= v.cells);
    }
}

} // verus!
