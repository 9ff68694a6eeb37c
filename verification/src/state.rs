//! Board states: the puzzle model, move application and the Manhattan
//! heuristic.

use vstd::prelude::*;
use vstd::arithmetic::div_mod::{
    lemma_fundamental_div_mod, lemma_fundamental_div_mod_converse, lemma_mod_bound,
};
use vstd::arithmetic::mul::lemma_mul_inequality;
use crate::direction::Direction;

verus! {

/// Largest accepted number of rows or columns of a board. The bound keeps
/// every quantity the crate computes (indices, the heuristic, search
/// scores) comfortably inside `usize` on any machine.
pub const MAX_SIDE: usize = 255;

/// The board holds every value `0..board.len()` exactly once and has one
/// cell per grid position.
pub open spec fn board_ok(board: Seq<usize>, rows: int, cols: int) -> bool {
    &&& board.len() == rows * cols
    &&& forall|i: int| 0 <= i < board.len() ==> (#[trigger] board[i]) < board.len()
    &&& forall|i: int, j: int|
        0 <= i < board.len() && 0 <= j < board.len() && i != j ==> board[i] != board[j]
    &&& forall|v: int| 0 <= v < board.len() ==> #[trigger] has_value(board, v)
}

/// Some cell of the board holds the value `v`.
pub open spec fn has_value(board: Seq<usize>, v: int) -> bool {
    exists|i: int| 0 <= i < board.len() && (#[trigger] board[i]) == v
}

/// Every value sits at the index equal to itself: the goal arrangement.
pub open spec fn is_goal(board: Seq<usize>) -> bool {
    forall|i: int| 0 <= i < board.len() ==> (#[trigger] board[i]) == i
}

/// Distance between two integers.
pub open spec fn dist(a: int, b: int) -> int {
    if a >= b {
        a - b
    } else {
        b - a
    }
}

/// Manhattan distance between the cell at flat index `i` and the home
/// cell of the value `v` it holds, on a grid with `cols` columns.
pub open spec fn tile_gap(v: int, i: int, cols: int) -> int {
    dist(v / cols, i / cols) + dist(v % cols, i % cols)
}

/// Manhattan-distance sum over the first `k` cells; the empty slot
/// (value 0) contributes nothing.
pub open spec fn manhattan_upto(board: Seq<usize>, cols: int, k: int) -> int
    decreases k,
{
    if k <= 0 {
        0
    } else {
        manhattan_upto(board, cols, k - 1) + if board[k - 1] == 0 {
            0
        } else {
            tile_gap(board[k - 1] as int, k - 1, cols)
        }
    }
}

/// Manhattan-distance sum over the whole board.
pub open spec fn manhattan(board: Seq<usize>, cols: int) -> int {
    manhattan_upto(board, cols, board.len() as int)
}

/// Division of `x` by `d` stays below `q` whenever `x` lies below `q * d`.
pub proof fn lemma_div_below(x: int, d: int, q: int)
    requires
        d >= 1,
        q >= 1,
        0 <= x,
        x < q * d,
    ensures
        0 <= x / d < q,
        0 <= x % d < d,
{
    lemma_fundamental_div_mod(x, d);
    lemma_mod_bound(x, d);
    let q0 = x / d;
    if q0 < 0 {
        lemma_mul_inequality(q0, -1, d);
        assert(q0 * d <= (-1) * d);
        assert(x == d * q0 + x % d);
        assert(false);
    }
    if q0 >= q {
        lemma_mul_inequality(q, q0, d);
        assert(q * d <= q0 * d);
        assert(x % d >= 0);
        assert(x == d * q0 + x % d);
        assert(d * q0 == q0 * d) by (nonlinear_arith);
        assert(x >= q * d);
        assert(false);
    }
}

/// A (row, column) pair inside the grid decodes back from its flat index.
pub proof fn lemma_grid_index(r: int, c: int, cols: int)
    requires
        cols >= 1,
        0 <= r,
        0 <= c < cols,
    ensures
        (r * cols + c) / cols == r,
        (r * cols + c) % cols == c,
{
    lemma_fundamental_div_mod_converse(r * cols + c, cols, r, c);
}

/// Swapping two cells keeps the board a permutation.
pub proof fn lemma_swap_board_ok(board: Seq<usize>, rows: int, cols: int, s: int, t: int)
    requires
        board_ok(board, rows, cols),
        0 <= s < board.len(),
        0 <= t < board.len(),
    ensures
        board_ok(board.update(s, board[t]).update(t, board[s]), rows, cols),
{
    let nb = board.update(s, board[t]).update(t, board[s]);
    assert(nb.len() == board.len());
    assert forall|v: int| 0 <= v < nb.len() implies #[trigger] has_value(nb, v) by {
        assert(has_value(board, v));
        let i = choose|i: int| 0 <= i < board.len() && (#[trigger] board[i]) == v;
        if i == s {
            assert(nb[t] == v);
        } else if i == t {
            assert(nb[s] == v || nb[t] == v);
        } else {
            assert(nb[i] == v);
        }
    }
}

/// The mathematical view of a [`State`].
#[verifier::ext_equal]
pub struct StateModel {
    /// The board contents, flattened row-major.
    pub board: Seq<usize>,
    /// Number of rows of the grid.
    pub rows: int,
    /// Number of columns of the grid.
    pub cols: int,
    /// Index of the empty slot (the cell holding 0).
    pub slot: int,
    /// The moves taken from the reference start to reach this board.
    pub moves: Seq<Direction>,
    /// The cached Manhattan-distance sum.
    pub cost: int,
}

impl StateModel {
    /// Well-formed state: sides in range, a permutation board, the slot
    /// on the zero cell, and the cached cost equal to the heuristic.
    pub open spec fn wf(self) -> bool {
        &&& 1 <= self.rows <= MAX_SIDE
        &&& 1 <= self.cols <= MAX_SIDE
        &&& board_ok(self.board, self.rows, self.cols)
        &&& 0 <= self.slot < self.board.len()
        &&& self.board[self.slot] == 0
        &&& self.cost == manhattan(self.board, self.cols)
    }

    /// Row of the empty slot.
    pub open spec fn slot_row(self) -> int {
        self.slot / self.cols
    }

    /// Column of the empty slot.
    pub open spec fn slot_col(self) -> int {
        self.slot % self.cols
    }

    /// Whether one slide of the empty slot in direction `d` stays on the
    /// board.
    pub open spec fn can(self, d: Direction) -> bool {
        &&& 0 <= self.slot_row() + d.spec_row_delta() < self.rows
        &&& 0 <= self.slot_col() + d.spec_col_delta() < self.cols
    }

    /// Flat index of the cell the empty slot moves into.
    pub open spec fn target(self, d: Direction) -> int {
        (self.slot_row() + d.spec_row_delta()) * self.cols + (self.slot_col()
            + d.spec_col_delta())
    }

    /// The state after one slide in direction `d`: the empty slot and the
    /// target tile swap, the move is recorded, the cost is recomputed.
    pub open spec fn step(self, d: Direction) -> StateModel {
        let t = self.target(d);
        let nb = self.board.update(self.slot, self.board[t]).update(t, self.board[self.slot]);
        StateModel {
            board: nb,
            slot: t,
            moves: self.moves.push(d),
            cost: manhattan(nb, self.cols),
            ..self
        }
    }

    /// Replaying a sequence of moves from this state; `None` as soon as
    /// one of them is illegal.
    pub open spec fn replay(self, ds: Seq<Direction>) -> Option<StateModel>
        decreases ds.len(),
    {
        if ds.len() == 0 {
            Some(self)
        } else if self.can(ds[0]) {
            self.step(ds[0]).replay(ds.skip(1))
        } else {
            None
        }
    }
}

/// The target cell of a legal slide lies on the board and differs from
/// the slot, and its grid position is the slot's shifted by the move.
pub proof fn lemma_target_in_range(m: StateModel, d: Direction)
    requires
        m.wf(),
        m.can(d),
    ensures
        0 <= m.target(d) < m.board.len(),
        m.target(d) != m.slot,
        m.target(d) / m.cols == m.slot_row() + d.spec_row_delta(),
        m.target(d) % m.cols == m.slot_col() + d.spec_col_delta(),
{
    let r = m.slot_row() + d.spec_row_delta();
    let c = m.slot_col() + d.spec_col_delta();
    lemma_div_below(m.slot, m.cols, m.rows);
    lemma_grid_index(r, c, m.cols);
    lemma_fundamental_div_mod(m.slot, m.cols);
    assert(m.slot == m.cols * m.slot_row() + m.slot_col());
    assert(r * m.cols + c < m.rows * m.cols) by (nonlinear_arith)
        requires
            0 <= c < m.cols,
            r < m.rows,
            m.cols >= 1,
    ;
    if m.target(d) == m.slot {
        assert(r == m.slot_row() && c == m.slot_col());
        assert(d.spec_row_delta() == 0 && d.spec_col_delta() == 0);
        assert(false);
    }
}

/// One legal slide from a well-formed state yields a well-formed state
/// on the same grid, with the move recorded.
pub proof fn lemma_step_wf(m: StateModel, d: Direction)
    requires
        m.wf(),
        m.can(d),
    ensures
        m.step(d).wf(),
        m.step(d).rows == m.rows,
        m.step(d).cols == m.cols,
        m.step(d).moves == m.moves.push(d),
        m.step(d).board.len() == m.board.len(),
        m.step(d).slot == m.target(d),
{
    lemma_target_in_range(m, d);
    let t = m.target(d);
    lemma_swap_board_ok(m.board, m.rows, m.cols, m.slot, t);
    let nb = m.step(d).board;
    assert(nb[t] == m.board[m.slot]);
}

/// The Manhattan-distance sum over a prefix is non-negative and at most
/// one full grid span per cell.
pub proof fn lemma_manhattan_upto_bounds(board: Seq<usize>, rows: int, cols: int, k: int)
    requires
        board_ok(board, rows, cols),
        1 <= rows,
        1 <= cols,
        0 <= k <= board.len(),
    ensures
        0 <= manhattan_upto(board, cols, k) <= k * (rows + cols),
    decreases k,
{
    if k > 0 {
        lemma_manhattan_upto_bounds(board, rows, cols, k - 1);
        if board[k - 1] != 0 {
            let v = board[k - 1] as int;
            lemma_div_below(v, cols, rows);
            lemma_div_below(k - 1, cols, rows);
        }
        assert((k - 1) * (rows + cols) + (rows + cols) == k * (rows + cols)) by (nonlinear_arith);
    }
}

/// One board configuration together with the move path that produced it.
///
/// Invariant (see [`StateModel::wf`]): `board` is a permutation of
/// `0..rows*cols`, `slot` indexes its unique zero cell, and `cost` caches
/// the Manhattan-distance sum of `board`. States are never mutated once
/// produced; every move yields a new value.
#[derive(Debug)]
pub struct State {
    /// The board contents, flattened row-major.
    pub board: Vec<usize>,
    /// Number of rows of the grid.
    pub rows: usize,
    /// Number of columns of the grid.
    pub cols: usize,
    /// Index of the empty slot within `board`.
    pub slot: usize,
    /// The moves taken from the reference start to reach this board.
    pub moves: Vec<Direction>,
    /// The cached Manhattan-distance sum of `board`.
    pub cost: usize,
}

impl View for State {
    type V = StateModel;

    open spec fn view(&self) -> StateModel {
        StateModel {
            board: self.board@,
            rows: self.rows as int,
            cols: self.cols as int,
            slot: self.slot as int,
            moves: self.moves@,
            cost: self.cost as int,
        }
    }
}

impl Clone for State {
    /// Clones preserve the whole state, view for view.
    fn clone(&self) -> (r: Self)
        ensures
            r@ == self@,
    {
        let board = self.board.clone();
        let moves = self.moves.clone();
        proof {
            assert(board@ =~= self.board@);
            assert(moves@ =~= self.moves@);
        }
        let r = State {
            board,
            rows: self.rows,
            cols: self.cols,
            slot: self.slot,
            moves,
            cost: self.cost,
        };
        proof {
            assert(r@ =~= self@);
        }
        r
    }
}

impl State {
    /// Splits a flat index into its (row, column) grid position,
    /// row-major.
    pub fn index_to_position(&self, index: usize) -> (r: (usize, usize))
        requires
            self.cols >= 1,
        ensures
            r.0 as int == index as int / self.cols as int,
            r.1 as int == index as int % self.cols as int,
    {
        (index / self.cols, index % self.cols)
    }

    /// Rebuilds the flat index of a (row, column) grid position,
    /// row-major.
    pub fn position_to_index(&self, position: (usize, usize)) -> (r: usize)
        requires
            1 <= self.rows <= MAX_SIDE,
            1 <= self.cols <= MAX_SIDE,
            position.0 < self.rows,
            position.1 < self.cols,
        ensures
            r as int == position.0 * self.cols + position.1,
            r < self.rows * self.cols,
    {
        proof {
            assert(position.0 * self.cols + position.1 < self.rows * self.cols <= MAX_SIDE
                * MAX_SIDE) by (nonlinear_arith)
                requires
                    position.0 < self.rows <= MAX_SIDE,
                    position.1 < self.cols <= MAX_SIDE,
                    self.cols >= 1,
            ;
        }
        position.0 * self.cols + position.1
    }

    /// Computes the Manhattan-distance sum of the board: for every cell
    /// except the empty slot, how many rows and columns its tile sits
    /// away from home.
    pub fn manhattan_distance(&self) -> (r: usize)
        requires
            1 <= self.rows <= MAX_SIDE,
            1 <= self.cols <= MAX_SIDE,
            board_ok(self.board@, self.rows as int, self.cols as int),
        ensures
            r as int == manhattan(self.board@, self.cols as int),
    {
        let rows = self.rows;
        let cols = self.cols;
        proof {
            assert(rows * cols <= MAX_SIDE * MAX_SIDE) by (nonlinear_arith)
                requires
                    1 <= rows <= MAX_SIDE,
                    1 <= cols <= MAX_SIDE,
            ;
        }
        let n = rows * cols;
        let mut total: usize = 0;
        let mut i: usize = 0;
        while i < n
            invariant
                1 <= rows <= MAX_SIDE,
                1 <= cols <= MAX_SIDE,
                rows == self.rows,
                cols == self.cols,
                n == rows * cols,
                board_ok(self.board@, rows as int, cols as int),
                0 <= i <= n,
                total as int == manhattan_upto(self.board@, cols as int, i as int),
                total as int <= i as int * (rows as int + cols as int),
            decreases n - i,
        {
            proof {
                assert(i as int * (rows as int + cols as int) + (rows as int + cols as int) == (i
                    + 1) as int * (rows as int + cols as int)) by (nonlinear_arith);
                assert((i + 1) as int * (rows as int + cols as int) <= n as int * (rows as int
                    + cols as int)) by (nonlinear_arith)
                    requires
                        i + 1 <= n,
                        rows >= 1,
                        cols >= 1,
                ;
                assert(n as int * (rows as int + cols as int) <= MAX_SIDE * MAX_SIDE * (2
                    * MAX_SIDE)) by (nonlinear_arith)
                    requires
                        n == rows * cols,
                        1 <= rows <= MAX_SIDE,
                        1 <= cols <= MAX_SIDE,
                ;
            }
            let v = self.board[i];
            if v != 0 {
                proof {
                    lemma_div_below(v as int, cols as int, rows as int);
                    lemma_div_below(i as int, cols as int, rows as int);
                }
                let (pr, pc) = self.index_to_position(v);
                let (cr, cc) = self.index_to_position(i);
                let dr = if pr >= cr {
                    pr - cr
                } else {
                    cr - pr
                };
                let dc = if pc >= cc {
                    pc - cc
                } else {
                    cc - pc
                };
                proof {
                    assert(pr < rows);
                    assert(cr < rows);
                    assert(pc < cols);
                    assert(cc < cols);
                    assert(total as int + dr as int + dc as int <= (i + 1) as int * (rows as int
                        + cols as int));
                    assert(n <= 65025) by (nonlinear_arith)
                        requires
                            n == rows * cols,
                            1 <= rows <= 255,
                            1 <= cols <= 255,
                    ;
                    assert((i + 1) as int * (rows as int + cols as int) <= 65025 * 510)
                        by (nonlinear_arith)
                        requires
                            0 < i + 1 <= 65025,
                            0 < rows as int + cols as int <= 510,
                    ;
                    assert(usize::MAX >= 0xffff_ffff);
                }
                total = total + dr + dc;
            }
            i = i + 1;
        }
        total
    }

    /// Reports whether this board is the goal arrangement.
    pub fn is_final(&self) -> (r: bool)
        requires
            1 <= self.rows <= MAX_SIDE,
            1 <= self.cols <= MAX_SIDE,
            self.board@.len() == self.rows * self.cols,
        ensures
            r == is_goal(self.board@),
    {
        proof {
            assert(self.rows * self.cols <= MAX_SIDE * MAX_SIDE) by (nonlinear_arith)
                requires
                    1 <= self.rows <= MAX_SIDE,
                    1 <= self.cols <= MAX_SIDE,
            ;
        }
        let n = self.rows * self.cols;
        let mut i: usize = 0;
        while i < n
            invariant
                n == self.rows * self.cols,
                self.board@.len() == n,
                0 <= i <= n,
                forall|j: int| 0 <= j < i ==> (#[trigger] self.board@[j]) == j,
            decreases n - i,
        {
            if self.board[i] != i {
                return false;
            }
            i = i + 1;
        }
        true
    }

    /// Builds the state for a starting board.
    ///
    /// The caller must supply a permutation of `0..rows*cols`; in
    /// particular exactly one cell holds 0, and that cell becomes the
    /// empty slot.
    pub fn new(board: Vec<usize>, rows: usize, cols: usize) -> (r: State)
        requires
            1 <= rows <= MAX_SIDE,
            1 <= cols <= MAX_SIDE,
            board_ok(board@, rows as int, cols as int),
        ensures
            r@.wf(),
            r@.board == board@,
            r@.rows == rows,
            r@.cols == cols,
            r@.moves == Seq::<Direction>::empty(),
    {
        proof {
            assert(rows * cols >= 1) by (nonlinear_arith)
                requires
                    rows >= 1,
                    cols >= 1,
            ;
            assert(has_value(board@, 0));
        }
        let n = board.len();
        let mut slot: usize = 0;
        while slot < n && board[slot] != 0
            invariant
                n == board@.len(),
                0 <= slot <= n,
                has_value(board@, 0),
                forall|j: int| 0 <= j < slot ==> (#[trigger] board@[j]) != 0,
            decreases n - slot,
        {
            slot = slot + 1;
        }
        proof {
            if slot == n {
                let i = choose|i: int| 0 <= i < board@.len() && (#[trigger] board@[i]) == 0;
                assert(false);
            }
        }
        let mut a = State {
            board,
            rows,
            cols,
            slot,
            cost: 0,
            moves: Vec::new(),
        };
        let c = a.manhattan_distance();
        a.cost = c;
        proof {
            assert(a@.moves =~= Seq::<Direction>::empty());
        }
        a
    }
}


/// The legal one-step successors of a state, probed in the fixed order
/// up, down, left, right.
pub open spec fn spec_successors(m: StateModel) -> Seq<StateModel> {
    (if m.can(Direction::Up) {
        seq![m.step(Direction::Up)]
    } else {
        Seq::<StateModel>::empty()
    }) + (if m.can(Direction::Down) {
        seq![m.step(Direction::Down)]
    } else {
        Seq::<StateModel>::empty()
    }) + (if m.can(Direction::Left) {
        seq![m.step(Direction::Left)]
    } else {
        Seq::<StateModel>::empty()
    }) + (if m.can(Direction::Right) {
        seq![m.step(Direction::Right)]
    } else {
        Seq::<StateModel>::empty()
    })
}

impl State {
    /// Reports whether sliding the empty slot in the given direction
    /// stays within the grid.
    pub fn can_move(&self, direction: Direction) -> (r: bool)
        requires
            self@.wf(),
        ensures
            r == self@.can(direction),
    {
        proof {
            lemma_div_below(self.slot as int, self.cols as int, self.rows as int);
        }
        let (i, j) = self.index_to_position(self.slot);
        match direction {
            Direction::Up => i > 0,
            Direction::Left => j > 0,
            Direction::Down => i < self.rows - 1,
            Direction::Right => j < self.cols - 1,
        }
    }

    /// Applies one slide if it is legal: the empty slot and the adjacent
    /// tile swap, the direction is appended to the move path, and the
    /// cost is recomputed. Returns `None` on an illegal move.
    pub fn make_move(&self, direction: Direction) -> (r: Option<State>)
        requires
            self@.wf(),
        ensures
            self@.can(direction) ==> (r matches Some(t) && t@ == self@.step(direction)
                && t@.wf()),
            !self@.can(direction) ==> r is None,
    {
        if self.can_move(direction) {
            proof {
                lemma_div_below(self.slot as int, self.cols as int, self.rows as int);
                lemma_target_in_range(self@, direction);
                lemma_step_wf(self@, direction);
            }
            let (i, j) = self.index_to_position(self.slot);
            let (ii, jj) = direction.position_tuple();
            let new_i = (i as isize) + ii;
            let new_j = (j as isize) + jj;
            let new_slot_index = self.position_to_index((new_i as usize, new_j as usize));
            proof {
                assert(new_slot_index as int == self@.target(direction));
            }
            let mut result = self.clone();
            let tmp = result.board[self.slot];
            let other = result.board[new_slot_index];
            result.board[self.slot] = other;
            result.board[new_slot_index] = tmp;
            result.moves.push(direction);
            result.slot = new_slot_index;
            proof {
                assert(result.board@ =~= self@.step(direction).board);
            }
            let c = result.manhattan_distance();
            result.cost = c;
            proof {
                assert(result@ =~= self@.step(direction));
            }
            Some(result)
        } else {
            None
        }
    }

    /// Produces every state reachable by one legal slide, in the fixed
    /// probe order up, down, left, right; at most four.
    pub fn possible_moves(&self) -> (r: Vec<State>)
        requires
            self@.wf(),
        ensures
            r@.len() == spec_successors(self@).len(),
            forall|k: int|
                0 <= k < r@.len() ==> (#[trigger] r@[k])@ == spec_successors(self@)[k],
            forall|k: int|
                0 <= k < r@.len() ==> {
                    let d = (#[trigger] r@[k])@.moves.last();
                    self@.can(d) && r@[k]@ == self@.step(d) && r@[k]@.wf()
                },
    {
        let mut r: Vec<State> = Vec::new();
        match self.make_move(Direction::Up) {
            Some(t) => r.push(t),
            None => (),
        }
        match self.make_move(Direction::Down) {
            Some(t) => r.push(t),
            None => (),
        }
        match self.make_move(Direction::Left) {
            Some(t) => r.push(t),
            None => (),
        }
        match self.make_move(Direction::Right) {
            Some(t) => r.push(t),
            None => (),
        }
        r
    }
}


/// On the goal board the Manhattan-distance sum of any prefix vanishes.
proof fn lemma_goal_manhattan_zero(board: Seq<usize>, cols: int, k: int)
    requires
        cols >= 1,
        0 <= k <= board.len(),
        is_goal(board),
    ensures
        manhattan_upto(board, cols, k) == 0,
    decreases k,
{
    if k > 0 {
        lemma_goal_manhattan_zero(board, cols, k - 1);
    }
}

/// A zero Manhattan-distance sum puts every tile of the prefix at home.
proof fn lemma_zero_manhattan_tiles_home(board: Seq<usize>, rows: int, cols: int, k: int)
    requires
        board_ok(board, rows, cols),
        1 <= rows,
        1 <= cols,
        0 <= k <= board.len(),
        manhattan_upto(board, cols, k) == 0,
    ensures
        forall|j: int| 0 <= j < k && board[j] != 0 ==> (#[trigger] board[j]) == j,
    decreases k,
{
    if k > 0 {
        lemma_manhattan_upto_bounds(board, rows, cols, k - 1);
        assert(manhattan_upto(board, cols, k - 1) == 0);
        lemma_zero_manhattan_tiles_home(board, rows, cols, k - 1);
        if board[k - 1] != 0 {
            let v = board[k - 1] as int;
            assert(tile_gap(v, k - 1, cols) == 0);
            lemma_fundamental_div_mod(v, cols);
            lemma_fundamental_div_mod(k - 1, cols);
            assert(v == cols * (v / cols) + v % cols);
            assert(k - 1 == cols * ((k - 1) / cols) + (k - 1) % cols);
            assert(v == k - 1);
        }
    }
}

/// A well-formed state is the goal arrangement exactly when its cached
/// heuristic is zero: the round trip of the distance metric.
pub proof fn lemma_final_iff_zero_cost(m: StateModel)
    requires
        m.wf(),
    ensures
        is_goal(m.board) <==> m.cost == 0,
{
    let b = m.board;
    let n = b.len() as int;
    if is_goal(b) {
        lemma_goal_manhattan_zero(b, m.cols, n);
    }
    if m.cost == 0 {
        lemma_zero_manhattan_tiles_home(b, m.rows, m.cols, n);
        if m.slot != 0 {
            assert(has_value(b, m.slot));
            let i = choose|i: int| 0 <= i < b.len() && (#[trigger] b[i]) == m.slot;
            assert(b[i] != 0);
            assert(b[i] == i);
            assert(b[m.slot] == 0);
            assert(false);
        }
        assert forall|i: int| 0 <= i < n implies (#[trigger] b[i]) == i by {
            if b[i] == 0 {
                assert(b[m.slot] == 0);
                assert(i == m.slot);
            }
        }
    }
}

/// Sliding in a direction and then in its opposite is always legal and
/// restores the original board.
pub proof fn lemma_move_then_opposite(m: StateModel, d: Direction)
    requires
        m.wf(),
        m.can(d),
    ensures
        m.step(d).can(d.spec_opposite()),
        m.step(d).step(d.spec_opposite()).board == m.board,
{
    lemma_target_in_range(m, d);
    lemma_step_wf(m, d);
    lemma_div_below(m.slot, m.cols, m.rows);
    let m1 = m.step(d);
    let o = d.spec_opposite();
    let s = m.slot;
    let t = m.target(d);
    assert(m1.slot_row() == m.slot_row() + d.spec_row_delta());
    assert(m1.slot_col() == m.slot_col() + d.spec_col_delta());
    assert(o.spec_row_delta() == -d.spec_row_delta() && o.spec_col_delta()
        == -d.spec_col_delta()) by {
        match d {
            Direction::Up => {},
            Direction::Down => {},
            Direction::Left => {},
            Direction::Right => {},
        }
    }
    assert(m1.can(o));
    lemma_fundamental_div_mod(s, m.cols);
    assert(s == m.cols * m.slot_row() + m.slot_col());
    assert(m.cols * m.slot_row() == m.slot_row() * m.cols) by (nonlinear_arith);
    assert(m1.target(o) == s);
    let b2 = m1.step(o).board;
    assert(b2 =~= m.board);
}

/// Extending a successful replay by one more legal move.
pub proof fn lemma_replay_snoc(m: StateModel, ds: Seq<Direction>, t: StateModel, d: Direction)
    requires
        m.replay(ds) == Some(t),
        t.can(d),
    ensures
        m.replay(ds.push(d)) == Some(t.step(d)),
    decreases ds.len(),
{
    if ds.len() == 0 {
        assert(t == m);
        assert(ds.push(d).len() == 1);
        assert(ds.push(d)[0] == d);
        assert(ds.push(d).skip(1) =~= Seq::<Direction>::empty());
        assert(m.replay(ds.push(d)) == m.step(d).replay(Seq::<Direction>::empty()));
    } else {
        assert(m.can(ds[0]));
        assert(ds.push(d)[0] == ds[0]);
        assert(ds.push(d).skip(1) =~= ds.skip(1).push(d));
        assert(ds.push(d).skip(1) == ds.skip(1).push(d));
        lemma_replay_snoc(m.step(ds[0]), ds.skip(1), t, d);
        assert(m.replay(ds.push(d)) == m.step(ds[0]).replay(ds.push(d).skip(1)));
        assert(m.step(ds[0]).replay(ds.skip(1).push(d)) == Some(t.step(d)));
    }
}


/// Index of the zero cell of a board.
pub open spec fn slot_of(board: Seq<usize>) -> int {
    choose|i: int| 0 <= i < board.len() && board[i] == 0
}

/// The canonical state of a bare board on a given grid: the slot at its
/// zero cell, no move history, the cost recomputed. Which slides a
/// board admits, and where they lead, depend on nothing else.
pub open spec fn model_of(board: Seq<usize>, rows: int, cols: int) -> StateModel {
    StateModel {
        board,
        rows,
        cols,
        slot: slot_of(board),
        moves: Seq::<Direction>::empty(),
        cost: manhattan(board, cols),
    }
}

/// A well-formed state's slot is its unique zero cell, so its legal
/// slides and their boards agree with the canonical state of its board.
pub proof fn lemma_model_of_agrees(m: StateModel, d: Direction)
    requires
        m.wf(),
    ensures
        model_of(m.board, m.rows, m.cols).can(d) == m.can(d),
        m.can(d) ==> model_of(m.board, m.rows, m.cols).step(d).board == m.step(d).board,
{
    assert(0 <= m.slot < m.board.len() && m.board[m.slot] == 0);
    assert(exists|i: int| 0 <= i < m.board.len() && m.board[i] == 0);
    let s = slot_of(m.board);
    assert(0 <= s < m.board.len() && m.board[s] == 0);
    assert(s == m.slot);
}

/// Every legal slide appears among the successors.
pub proof fn lemma_successors_complete(m: StateModel, d: Direction)
    requires
        m.can(d),
    ensures
        exists|k: int|
            0 <= k < spec_successors(m).len() && #[trigger] spec_successors(m)[k] == m.step(d),
{
    let ss = spec_successors(m);
    let u: int = if m.can(Direction::Up) { 1 } else { 0 };
    let w: int = if m.can(Direction::Down) { 1 } else { 0 };
    let l: int = if m.can(Direction::Left) { 1 } else { 0 };
    match d {
        Direction::Up => {
            assert(ss[0] == m.step(Direction::Up));
        },
        Direction::Down => {
            assert(ss[u] == m.step(Direction::Down));
        },
        Direction::Left => {
            assert(ss[u + w] == m.step(Direction::Left));
        },
        Direction::Right => {
            assert(ss[u + w + l] == m.step(Direction::Right));
        },
    }
}

} // verus!
