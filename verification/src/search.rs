//! The best-first search engine: a scored open list, a seen-board set,
//! and the solving loop over them.

use vstd::prelude::*;
use vstd::seq_lib::group_seq_properties;
use crate::direction::Direction;
use crate::state::{
    is_goal, lemma_model_of_agrees, lemma_replay_snoc, lemma_successors_complete, model_of,
    spec_successors, State, StateModel,
};

verus! {

/// The search priority of a state: a third of its path length plus its
/// cached heuristic. Lower scores are served first, so the heuristic
/// outweighs strict path-length optimality.
pub open spec fn spec_score(m: StateModel) -> int {
    m.moves.len() as int / 3 + m.cost
}

/// The boards already enqueued by a search run, keyed by board contents
/// only: two move paths that reach the same tile arrangement collapse
/// into one entry.
pub struct SeenSet {
    /// The distinct boards accepted so far, in insertion order.
    pub boards: Vec<Vec<usize>>,
}

impl View for SeenSet {
    type V = Set<Seq<usize>>;

    open spec fn view(&self) -> Set<Seq<usize>> {
        self.board_views().to_set()
    }
}

impl SeenSet {
    /// The stored boards as a sequence of sequences.
    pub open spec fn board_views(self) -> Seq<Seq<usize>> {
        self.boards@.map_values(|b: Vec<usize>| b@)
    }

    /// No board is stored twice.
    pub open spec fn wf(self) -> bool {
        self.board_views().no_duplicates()
    }

    /// Number of boards stored.
    pub open spec fn spec_len(self) -> nat {
        self.boards@.len()
    }

    /// Creates an empty seen-set.
    pub fn new() -> (r: SeenSet)
        ensures
            r.wf(),
            r@ == Set::<Seq<usize>>::empty(),
            r.spec_len() == 0,
    {
        let r = SeenSet { boards: Vec::new() };
        proof {
            assert(r@ =~= Set::<Seq<usize>>::empty());
        }
        r
    }

    /// Number of boards stored.
    pub fn len(&self) -> (r: usize)
        ensures
            r == self.spec_len(),
    {
        self.boards.len()
    }

    /// Reports whether the given board was seen already.
    pub fn contains(&self, board: &Vec<usize>) -> (r: bool)
        ensures
            r == self@.contains(board@),
    {
        let n = self.boards.len();
        let mut i: usize = 0;
        while i < n
            invariant
                n == self.boards@.len(),
                0 <= i <= n,
                forall|j: int| 0 <= j < i ==> (#[trigger] self.boards@[j])@ != board@,
            decreases n - i,
        {
            if vecs_equal(&self.boards[i], board) {
                proof {
                    assert(self.board_views()[i as int] == board@);
                    assert(self.board_views().contains(board@));
                }
                return true;
            }
            i = i + 1;
        }
        proof {
            assert forall|j: int| 0 <= j < self.board_views().len() implies self.board_views()[j]
                != board@ by {
                assert((#[trigger] self.boards@[j])@ != board@);
            }
        }
        false
    }

    /// Inserts a board, keyed by contents; reports whether it was new.
    pub fn insert(&mut self, board: &Vec<usize>) -> (added: bool)
        requires
            old(self).wf(),
        ensures
            final(self).wf(),
            added == !old(self)@.contains(board@),
            final(self)@ == old(self)@.insert(board@),
            added ==> final(self).spec_len() == old(self).spec_len() + 1,
            !added ==> final(self).spec_len() == old(self).spec_len(),
            final(self).spec_len() <= usize::MAX,
    {
        if self.contains(board) {
            proof {
                vstd::std_specs::vec::axiom_spec_len(&self.boards);
                assert(self@ =~= old(self)@.insert(board@));
            }
            false
        } else {
            let copy = clone_board(board);
            self.boards.push(copy);
            proof {
                broadcast use group_seq_properties;

                vstd::std_specs::vec::axiom_spec_len(&self.boards);
                assert(self.board_views() =~= old(self).board_views().push(board@));
                assert(self@ =~= old(self)@.insert(board@));
                assert(self.board_views().no_duplicates());
            }
            true
        }
    }
}

/// The seen-set never holds more entries than distinct boards: its
/// stored count equals the cardinality of the set of boards it accepted.
pub proof fn lemma_seen_len_is_distinct_count(s: SeenSet)
    requires
        s.wf(),
    ensures
        s@.len() == s.spec_len(),
{
    s.board_views().unique_seq_to_set();
}

/// Compares two boards cell by cell.
fn vecs_equal(a: &Vec<usize>, b: &Vec<usize>) -> (r: bool)
    ensures
        r == (a@ == b@),
{
    if a.len() != b.len() {
        return false;
    }
    let n = a.len();
    let mut i: usize = 0;
    while i < n
        invariant
            n == a@.len(),
            n == b@.len(),
            0 <= i <= n,
            forall|j: int| 0 <= j < i ==> a@[j] == b@[j],
        decreases n - i,
    {
        if a[i] != b[i] {
            return false;
        }
        i = i + 1;
    }
    proof {
        assert(a@ =~= b@);
    }
    true
}

/// Copies a board.
fn clone_board(b: &Vec<usize>) -> (r: Vec<usize>)
    ensures
        r@ == b@,
{
    let mut r: Vec<usize> = Vec::new();
    let n = b.len();
    let mut i: usize = 0;
    while i < n
        invariant
            n == b@.len(),
            0 <= i <= n,
            r@ =~= b@.take(i as int),
        decreases n - i,
    {
        r.push(b[i]);
        i = i + 1;
    }
    proof {
        assert(r@ =~= b@);
    }
    r
}


/// The cached cost of a well-formed state stays within one grid span
/// per cell.
proof fn lemma_cost_bound(m: StateModel)
    requires
        m.wf(),
    ensures
        0 <= m.cost <= 33162750,
{
    crate::state::lemma_manhattan_upto_bounds(m.board, m.rows, m.cols, m.board.len() as int);
    let n = m.board.len() as int;
    assert(n <= 65025) by (nonlinear_arith)
        requires
            n == m.rows * m.cols,
            1 <= m.rows <= 255,
            1 <= m.cols <= 255,
    ;
    assert(n * (m.rows + m.cols) <= 65025 * 510) by (nonlinear_arith)
        requires
            0 <= n <= 65025,
            0 < m.rows + m.cols <= 510,
    ;
}

/// Computes the search priority of a state.
fn score(s: &State) -> (r: usize)
    requires
        s@.wf(),
    ensures
        r as int == spec_score(s@),
{
    proof {
        lemma_cost_bound(s@);
        vstd::arithmetic::div_mod::lemma_fundamental_div_mod(s.moves@.len() as int, 3);
        vstd::arithmetic::div_mod::lemma_fundamental_div_mod(usize::MAX as int, 3);
        assert(usize::MAX >= 0xffff_ffff);
    }
    s.moves.len() / 3 + s.cost
}

/// Some state in the list carries the board `b`.
pub open spec fn queued(q: Seq<State>, b: Seq<usize>) -> bool {
    exists|j: int| 0 <= j < q.len() && (#[trigger] q[j])@.board == b
}

/// Board `b` is fully expanded into `seen`: it is not the goal, and
/// every board one legal slide away already belongs to `seen`.
pub open spec fn expanded(rows: int, cols: int, b: Seq<usize>, seen: Set<Seq<usize>>) -> bool {
    &&& !is_goal(b)
    &&& forall|d: Direction|
        #[trigger] model_of(b, rows, cols).can(d) ==> seen.contains(
            model_of(b, rows, cols).step(d).board,
        )
}

/// A set in which every board is expanded is a trap: no replay that
/// starts inside it ever reaches a goal board.
pub proof fn lemma_expanded_set_traps(
    rows: int,
    cols: int,
    seen: Set<Seq<usize>>,
    m: StateModel,
    ds: Seq<Direction>,
)
    requires
        m.wf(),
        m.rows == rows,
        m.cols == cols,
        seen.contains(m.board),
        forall|b: Seq<usize>| #[trigger] seen.contains(b) ==> expanded(rows, cols, b, seen),
        m.replay(ds) is Some,
    ensures
        m.replay(ds) matches Some(g) ==> !is_goal(g.board),
    decreases ds.len(),
{
    assert(expanded(rows, cols, m.board, seen));
    if ds.len() > 0 {
        assert(m.can(ds[0]));
        lemma_model_of_agrees(m, ds[0]);
        assert(seen.contains(m.step(ds[0]).board));
        crate::state::lemma_step_wf(m, ds[0]);
        lemma_expanded_set_traps(rows, cols, seen, m.step(ds[0]), ds.skip(1));
    }
}

/// Removes and returns a state with the lowest score, or `None` when
/// the open list is empty. Every board of the old list either leaves as
/// the popped state's board or stays in the list.
fn pop_best(queue: &mut Vec<State>) -> (r: Option<State>)
    requires
        forall|k: int| 0 <= k < old(queue)@.len() ==> (#[trigger] old(queue)@[k])@.wf(),
    ensures
        old(queue)@.len() == 0 ==> r is None && final(queue)@ == old(queue)@,
        old(queue)@.len() > 0 ==> (r matches Some(t) && {
            &&& exists|j: int|
                0 <= j < old(queue)@.len() && (#[trigger] old(queue)@[j])@ == t@
            &&& final(queue)@.len() == old(queue)@.len() - 1
            &&& forall|k: int|
                0 <= k < final(queue)@.len() ==> exists|j: int|
                    0 <= j < old(queue)@.len() && (#[trigger] final(queue)@[k])@ == old(queue)@[j]@
            &&& forall|b: Seq<usize>|
                #[trigger] queued(old(queue)@, b) ==> t@.board == b || queued(final(queue)@, b)
            &&& forall|k: int|
                0 <= k < old(queue)@.len() ==> spec_score(t@) <= spec_score(
                    (#[trigger] old(queue)@[k])@,
                )
        }),
{
    if queue.len() == 0 {
        return None;
    }
    let mut best: usize = 0;
    let mut best_score = score(&queue[0]);
    let mut k: usize = 1;
    while k < queue.len()
        invariant
            queue@ == old(queue)@,
            queue@.len() > 0,
            forall|j: int| 0 <= j < queue@.len() ==> (#[trigger] queue@[j])@.wf(),
            0 <= best < queue@.len(),
            1 <= k <= queue@.len(),
            best_score as int == spec_score(queue@[best as int]@),
            forall|j: int|
                0 <= j < k ==> best_score as int <= spec_score((#[trigger] queue@[j])@),
        decreases queue@.len() - k,
    {
        let sc = score(&queue[k]);
        if sc < best_score {
            best = k;
            best_score = sc;
        }
        k = k + 1;
    }
    let t = queue.swap_remove(best);
    proof {
        assert(old(queue)@[best as int]@ == t@);
        assert forall|kk: int| 0 <= kk < queue@.len() implies exists|j: int|
            0 <= j < old(queue)@.len() && (#[trigger] queue@[kk])@ == old(queue)@[j]@ by {
            if kk == best {
                assert(queue@[kk] == old(queue)@[old(queue)@.len() - 1]);
            } else {
                assert(queue@[kk] == old(queue)@[kk]);
            }
        }
        assert forall|b: Seq<usize>| #[trigger] queued(old(queue)@, b) implies (t@.board == b
            || queued(queue@, b)) by {
            let j = choose|j: int|
                0 <= j < old(queue)@.len() && (#[trigger] old(queue)@[j])@.board == b;
            if j == best {
                assert(t@.board == b);
            } else if j < old(queue)@.len() - 1 {
                assert(queue@[j] == old(queue)@[j]);
                assert(queued(queue@, b));
            } else {
                assert(queue@[best as int] == old(queue)@[j]);
                assert(queued(queue@, b));
            }
        }
    }
    Some(t)
}

/// `m` is a well-formed state of the same grid as `m0` whose move path
/// extends `m0`'s by a sequence that replays from `m0` to `m`.
pub open spec fn extends(m0: StateModel, m: StateModel) -> bool {
    &&& m.wf()
    &&& m.rows == m0.rows
    &&& m.cols == m0.cols
    &&& m.moves.len() >= m0.moves.len()
    &&& m.moves.take(m0.moves.len() as int) == m0.moves
    &&& m0.replay(m.moves.skip(m0.moves.len() as int)) == Some(m)
}

/// One further legal slide preserves reachability from the start.
pub proof fn lemma_extends_step(m0: StateModel, c: StateModel, d: Direction)
    requires
        extends(m0, c),
        c.can(d),
    ensures
        extends(m0, c.step(d)),
{
    crate::state::lemma_step_wf(c, d);
    let k = m0.moves.len() as int;
    assert(c.step(d).moves == c.moves.push(d));
    assert(c.moves.push(d).take(k) =~= c.moves.take(k));
    assert(c.moves.push(d).skip(k) =~= c.moves.skip(k).push(d));
    lemma_replay_snoc(m0, c.moves.skip(k), c, d);
}

impl State {
    /// Best-first search from this state for the goal arrangement.
    ///
    /// Seeds an open list and a seen-board set with this state, then
    /// repeatedly expands a lowest-scoring state, deduplicating by board
    /// contents. Returns a goal state whose move path extends this
    /// state's by a replayable solution; a start that is already the
    /// goal comes back unchanged. Returns `None` only after the whole
    /// space of boards reachable by legal slides has been exhausted
    /// without meeting the goal: no replayable move sequence from this
    /// state reaches a goal board.
    pub fn solve(&self) -> (r: Option<State>)
        requires
            self@.wf(),
        ensures
            r matches Some(t) ==> extends(self@, t@) && is_goal(t@.board),
            is_goal(self@.board) ==> (r matches Some(t) && t@ == self@),
            r is None ==> forall|ds: Seq<Direction>|
                (#[trigger] self@.replay(ds)) matches Some(g) ==> !is_goal(g.board),
    {
        let start = self.clone();
        proof {
            assert(self@.moves.take(self@.moves.len() as int) =~= self@.moves);
            assert(self@.moves.skip(self@.moves.len() as int) =~= Seq::<Direction>::empty());
            assert(extends(self@, self@));
        }
        if start.is_final() {
            return Some(start);
        }
        let mut queue: Vec<State> = Vec::new();
        queue.push(start);
        let mut visited = SeenSet::new();
        visited.insert(&self.board);
        proof {
            assert(queue@[0]@.board == self@.board);
            assert(queued(queue@, self@.board));
        }
        loop
            invariant
                visited.wf(),
                self@.wf(),
                !is_goal(self@.board),
                visited.spec_len() <= usize::MAX,
                forall|k: int|
                    0 <= k < queue@.len() ==> extends(self@, (#[trigger] queue@[k])@),
                forall|k: int|
                    0 <= k < queue@.len() ==> visited@.contains((#[trigger] queue@[k])@.board),
                visited@.contains(self@.board),
                forall|b: Seq<usize>|
                    #[trigger] visited@.contains(b) ==> queued(queue@, b) || expanded(
                        self@.rows,
                        self@.cols,
                        b,
                        visited@,
                    ),
            decreases usize::MAX as int - visited.spec_len(), queue@.len(),
        {
            let ghost pre_vlen = visited.spec_len();
            let ghost pre_qlen = queue@.len();
            proof {
                assert forall|k: int| 0 <= k < queue@.len() implies (#[trigger] queue@[k])@.wf() by {
                    assert(extends(self@, queue@[k]@));
                }
            }
            let ghost qpre = queue@;
            let popped = pop_best(&mut queue);
            let current = match popped {
                None => {
                    proof {
                        assert forall|b: Seq<usize>| #[trigger] visited@.contains(b)
                            implies expanded(self@.rows, self@.cols, b, visited@) by {
                            assert(!queued(queue@, b));
                        }
                        assert forall|ds: Seq<Direction>|
                            #![trigger self@.replay(ds)]
                            ((self@.replay(ds)) matches Some(g) ==> !is_goal(g.board)) by {
                            if self@.replay(ds) is Some {
                                lemma_expanded_set_traps(
                                    self@.rows,
                                    self@.cols,
                                    visited@,
                                    self@,
                                    ds,
                                );
                            }
                        }
                    }
                    return None;
                },
                Some(c) => c,
            };
            proof {
                let j = choose|j: int| 0 <= j < qpre.len() && (#[trigger] qpre[j])@ == current@;
                assert(extends(self@, current@));
                assert(visited@.contains(current@.board));
            }
            if current.is_final() {
                return Some(current);
            }
            proof {
                // After the pop, every visited board is still queued, or
                // expanded, or it is the one now being expanded.
                assert forall|b: Seq<usize>| #[trigger] visited@.contains(b) implies (queued(
                    queue@,
                    b,
                ) || expanded(self@.rows, self@.cols, b, visited@) || b == current@.board) by {
                    if queued(qpre, b) {
                        assert(current@.board == b || queued(queue@, b));
                    }
                }
            }
            let succs = current.possible_moves();
            let mut idx: usize = 0;
            while idx < succs.len()
                invariant
                    visited.wf(),
                    self@.wf(),
                    !is_goal(self@.board),
                    current@.wf(),
                    extends(self@, current@),
                    !is_goal(current@.board),
                    succs@.len() == spec_successors(current@).len(),
                    forall|k: int|
                        0 <= k < succs@.len() ==> (#[trigger] succs@[k])@ == spec_successors(
                            current@,
                        )[k],
                    forall|k: int|
                        0 <= k < succs@.len() ==> {
                            let d = (#[trigger] succs@[k])@.moves.last();
                            current@.can(d) && succs@[k]@ == current@.step(d)
                                && succs@[k]@.wf()
                        },
                    0 <= idx <= succs@.len(),
                    forall|k: int|
                        0 <= k < queue@.len() ==> extends(self@, (#[trigger] queue@[k])@),
                    forall|k: int|
                        0 <= k < queue@.len() ==> visited@.contains(
                            (#[trigger] queue@[k])@.board,
                        ),
                    visited@.contains(self@.board),
                    visited@.contains(current@.board),
                    forall|k: int|
                        0 <= k < idx ==> visited@.contains((#[trigger] succs@[k])@.board),
                    forall|b: Seq<usize>|
                        #[trigger] visited@.contains(b) ==> queued(queue@, b) || expanded(
                            self@.rows,
                            self@.cols,
                            b,
                            visited@,
                        ) || b == current@.board,
                    visited.spec_len() >= pre_vlen,
                    visited.spec_len() <= usize::MAX,
                    queue@.len() + pre_vlen <= pre_qlen - 1 + visited.spec_len(),
                decreases succs@.len() - idx,
            {
                let m = &succs[idx];
                let ghost vpre = visited@;
                let ghost qbefore = queue@;
                let added = visited.insert(&m.board);
                if added {
                    proof {
                        lemma_extends_step(self@, current@, m@.moves.last());
                    }
                    queue.push(m.clone());
                    proof {
                        assert(queue@.last()@.board == m@.board);
                        assert(queued(queue@, m@.board));
                    }
                }
                proof {
                    assert forall|b: Seq<usize>| #[trigger] visited@.contains(b) implies (queued(
                        queue@,
                        b,
                    ) || expanded(self@.rows, self@.cols, b, visited@) || b == current@.board) by {
                        if b == m@.board && added {
                            assert(queued(queue@, b));
                        } else {
                            assert(vpre.contains(b));
                            if queued(qbefore, b) {
                                let j = choose|j: int|
                                    0 <= j < qbefore.len() && (#[trigger] qbefore[j])@.board == b;
                                assert(queue@[j]@.board == b);
                                assert(queued(queue@, b));
                            } else if expanded(self@.rows, self@.cols, b, vpre) {
                                assert forall|d: Direction| #[trigger] model_of(
                                    b,
                                    self@.rows,
                                    self@.cols,
                                ).can(d) implies visited@.contains(
                                    model_of(b, self@.rows, self@.cols).step(d).board,
                                ) by {
                                    assert(vpre.contains(
                                        model_of(b, self@.rows, self@.cols).step(d).board,
                                    ));
                                }
                                assert(expanded(self@.rows, self@.cols, b, visited@));
                            }
                        }
                    }
                }
                idx = idx + 1;
            }
            proof {
                // The popped state is now fully expanded: every board one
                // legal slide away has been inserted.
                assert forall|d: Direction| #[trigger] model_of(
                    current@.board,
                    self@.rows,
                    self@.cols,
                ).can(d) implies visited@.contains(
                    model_of(current@.board, self@.rows, self@.cols).step(d).board,
                ) by {
                    lemma_model_of_agrees(current@, d);
                    assert(current@.can(d));
                    lemma_successors_complete(current@, d);
                    let k = choose|k: int|
                        0 <= k < spec_successors(current@).len() && #[trigger] spec_successors(
                            current@,
                        )[k] == current@.step(d);
                    assert(succs@[k]@ == current@.step(d));
                    assert(visited@.contains(succs@[k]@.board));
                }
                assert(expanded(self@.rows, self@.cols, current@.board, visited@));
                assert forall|b: Seq<usize>| #[trigger] visited@.contains(b) implies (queued(
                    queue@,
                    b,
                ) || expanded(self@.rows, self@.cols, b, visited@)) by {
                    assert(queued(queue@, b) || expanded(self@.rows, self@.cols, b, visited@)
                        || b == current@.board);
                }
            }
        }
    }
}

} // verus!
