//! The backtracking search over digit assignments: a one-shot `solve`
//! function and a resumable [`Solver`] that advances the board by exactly
//! one assignment or retraction per call.

use vstd::prelude::*;

use crate::board::{
    all_filled, board_valid, board_wf, extends, is_first_unfilled, is_solution, lemma_entry_value,
    lemma_extends_invalid, lemma_extends_trans, lemma_first_unfilled_exists,
    lemma_first_unfilled_unique, lemma_num_empty_update, num_empty, Board, Entry,
};

verus! {

/// The numeric value held by a cell, with an empty cell counting as 0.
pub open spec fn opt_value(c: Option<Entry>) -> int {
    match c {
        Some(e) => e.value(),
        None => 0,
    }
}

/// Whether `s1` is strictly smaller than `s2` in cell-by-cell order, with
/// the first difference at index `i`.
pub open spec fn lex_lt_at(s1: Seq<Option<Entry>>, s2: Seq<Option<Entry>>, i: int) -> bool {
    &&& s1.len() == s2.len()
    &&& 0 <= i < s1.len()
    &&& (forall|j: int| 0 <= j < i ==> s1[j] == s2[j])
    &&& opt_value(s1[i]) < opt_value(s2[i])
}

/// Whether `s1` comes no later than `s2` in cell-by-cell order: either the
/// boards are equal, or at the first index where they differ `s1` holds
/// the smaller value.
///
/// The search tries digits in ascending order at the first unfilled cell,
/// so the solution it finds is the least one in this order.
pub open spec fn lex_le(s1: Seq<Option<Entry>>, s2: Seq<Option<Entry>>) -> bool {
    s1 == s2 || exists|i: int| lex_lt_at(s1, s2, i)
}

/// A solution of `b0` that holds `e` at the empty cell `i` of `b0` is a
/// solution of `b0` with that cell filled in.
proof fn lemma_solution_of_update(
    sol: Seq<Option<Entry>>,
    b0: Seq<Option<Entry>>,
    i: int,
    e: Entry,
)
    requires
        board_wf(b0),
        0 <= i < 81,
        b0[i] is None,
        is_solution(sol, b0),
        sol[i] == Some(e),
    ensures
        is_solution(sol, b0.update(i, Some(e))),
{
    let upd = b0.update(i, Some(e));
    assert forall|j: int| 0 <= j < 81 && upd[j] is Some implies sol[j] == #[trigger] upd[j] by {
        if j != i {
            assert(upd[j] == b0[j]);
        }
    }
}

/// Solve a Sudoku board.
///
/// This function attempts to solve the supplied board by mutating it: at
/// the first unfilled cell it tries the digits in ascending order,
/// recursing depth-first and undoing the trial on failure. If the board
/// can be solved, the board parameter is mutated to a solved state, namely
/// the least solution in cell-by-cell order, and `true` is returned. If
/// the board cannot be solved, the passed board remains unchanged and
/// `false` is returned.
pub fn solve(board: &mut Board) -> (r: bool)
    requires
        old(board).wf(),
    ensures
        final(board).wf(),
        r == exists|sol: Seq<Option<Entry>>| is_solution(sol, old(board)@),
        r ==> is_solution(final(board)@, old(board)@),
        r ==> forall|sol: Seq<Option<Entry>>|
            is_solution(sol, old(board)@) ==> lex_le(final(board)@, sol),
        !r ==> final(board)@ == old(board)@,
    decreases num_empty(old(board)@),
{
    let ghost b0 = board@;
    let index = match board.first_unfilled_index() {
        None => {
            // The board is completely filled: it is solved exactly when it
            // is valid, and it is then its own only solution.
            let valid = board.is_valid();
            proof {
                if valid {
                    assert(is_solution(b0, b0));
                    assert forall|sol: Seq<Option<Entry>>| is_solution(sol, b0) implies lex_le(
                        board@,
                        sol,
                    ) by {
                        assert(sol =~= b0);
                    }
                } else {
                    assert forall|sol: Seq<Option<Entry>>| !is_solution(sol, b0) by {
                        if is_solution(sol, b0) {
                            assert(sol =~= b0);
                        }
                    }
                }
            }
            return valid;
        },
        Some(i) => i,
    };
    let mut d: i32 = 1;
    while d <= 9
        invariant
            board.wf(),
            1 <= d <= 10,
            b0 == old(board)@,
            board_wf(b0),
            is_first_unfilled(b0, index as int),
            index < 81,
            d == 1 ==> board@ == b0,
            d > 1 ==> board@ == b0.update(index as int, Some(Entry::spec_of_value(d - 1))),
            forall|sol: Seq<Option<Entry>>, v: int|
                #![trigger is_solution(sol, b0), Entry::spec_of_value(v)]
                is_solution(sol, b0) && 1 <= v < d ==> sol[index as int] != Some(
                    Entry::spec_of_value(v),
                ),
        decreases 10 - d,
    {
        let e = Entry::from_number(d).unwrap();
        board.set_cell_index(index, Some(e));
        proof {
            if d > 1 {
                assert(board@ =~= b0.update(index as int, Some(e)));
            }
        }
        let ghost upd = board@;
        proof {
            assert(upd == b0.update(index as int, Some(e)));
            assert(extends(upd, b0));
        }
        if board.is_valid() {
            proof {
                lemma_num_empty_update(b0, index as int, Some(e));
            }
            if solve(board) {
                proof {
                    lemma_extends_trans(board@, upd, b0);
                    assert(is_solution(board@, b0));
                    assert forall|sol: Seq<Option<Entry>>| is_solution(sol, b0) implies lex_le(
                        board@,
                        sol,
                    ) by {
                        assert(sol[index as int] is Some);
                        let f = sol[index as int]->0;
                        lemma_entry_value(f);
                        if f.value() < d {
                            assert(sol[index as int] != Some(Entry::spec_of_value(f.value())));
                            assert(false);
                        } else if f.value() == d {
                            assert(sol[index as int] == Some(e));
                            lemma_solution_of_update(sol, b0, index as int, e);
                        } else {
                            assert(board@[index as int] == Some(e));
                            assert forall|j: int| 0 <= j < index implies board@[j] == sol[j] by {
                                assert(b0[j] is Some);
                                assert(board@[j] == b0[j]);
                                assert(sol[j] == b0[j]);
                            }
                            assert(lex_lt_at(board@, sol, index as int));
                        }
                    }
                }
                return true;
            }
            proof {
                // The recursive call failed: no solution places this digit
                // at this cell.
                assert forall|sol: Seq<Option<Entry>>|
                    is_solution(sol, b0) && sol[index as int] == Some(e) implies false by {
                    lemma_solution_of_update(sol, b0, index as int, e);
                }
            }
        } else {
            proof {
                // The trial digit already conflicts: no solution places it
                // at this cell.
                assert forall|sol: Seq<Option<Entry>>|
                    is_solution(sol, b0) && sol[index as int] == Some(e) implies false by {
                    lemma_solution_of_update(sol, b0, index as int, e);
                    lemma_extends_invalid(sol, upd);
                }
            }
        }
        d += 1;
    }
    board.set_cell_index(index, None);
    proof {
        assert(board@ =~= b0);
        assert forall|sol: Seq<Option<Entry>>| !is_solution(sol, b0) by {
            if is_solution(sol, b0) {
                assert(sol[index as int] is Some);
                let f = sol[index as int]->0;
                lemma_entry_value(f);
                assert(sol[index as int] != Some(Entry::spec_of_value(f.value())));
                assert(false);
            }
        }
    }
    false
}

/// A single linear cell index recorded as "the solver made a trial
/// assignment here". It carries no value of its own; the digit actually
/// tried is read back from the board when needed.
#[derive(Debug, Clone, Copy, PartialEq, Eq, Hash, Structural)]
pub struct AttemptLocation(pub usize);

/// What one call of [`Solver::step`] reports.
///
/// The search is over only on `Solved` or `Unsolvable`; `Searching` means
/// the step made one assignment or retraction and the caller should step
/// again.
#[derive(Debug, Clone, Copy, PartialEq, Eq, Structural)]
pub enum StepResult {
    /// The board is completely and validly filled.
    Solved,
    /// One more assignment or retraction was made; the search goes on.
    Searching,
    /// The search would have to retract past the bottom of the attempt
    /// stack: no assignment of the remaining cells can complete the board.
    /// This also reports a board that was invalid before any search began.
    Unsolvable,
}

/// The smallest index of an empty cell of `s`; meaningful only when the
/// board has one.
pub open spec fn first_unfilled_of(s: Seq<Option<Entry>>) -> int {
    choose|i: int| is_first_unfilled(s, i)
}

/// One pop of the retry logic: the entry at the top-of-stack cell is
/// either incremented (the next candidate digit is tried at the same cell)
/// or, if it has reached 9, cleared. Yields the new board, the new stack,
/// and whether the cell was cleared.
pub open spec fn retry_spec(b: Seq<Option<Entry>>, st: Seq<int>) -> (Seq<Option<Entry>>, Seq<
    int,
>, bool)
    recommends
        st.len() > 0,
        b[st.last()] is Some,
{
    let top = st.last();
    let e = b[top]->0;
    if e.value() < 9 {
        (b.update(top, Some(Entry::spec_of_value(e.value() + 1))), st, false)
    } else {
        (b.update(top, None), st.drop_last(), true)
    }
}

/// The transition taken by one call of [`Solver::step`], as a function of
/// the board, the attempt stack (as indices), and the backtracking flag:
/// the new board, the new stack, the new flag, and the reported result.
///
/// An invalid board means the most recent trial digit created a conflict,
/// so the top attempt is retried; a set backtracking flag means the search
/// is unwinding past exhausted cells, and the next attempt down is
/// retried; otherwise the search advances, either reporting the board
/// solved or placing digit 1 in the first unfilled cell. A retract past
/// the bottom of the stack reports the puzzle unsolvable and changes
/// nothing.
pub open spec fn step_spec(b: Seq<Option<Entry>>, st: Seq<int>, bt: bool) -> (Seq<
    Option<Entry>,
>, Seq<int>, bool, StepResult) {
    if !board_valid(b) {
        if st.len() == 0 {
            (b, st, bt, StepResult::Unsolvable)
        } else {
            let (b2, st2, cleared) = retry_spec(b, st);
            (b2, st2, if cleared {
                true
            } else {
                bt
            }, StepResult::Searching)
        }
    } else if bt {
        if st.len() == 0 {
            (b, st, bt, StepResult::Unsolvable)
        } else {
            let (b2, st2, cleared) = retry_spec(b, st);
            (b2, st2, cleared, StepResult::Searching)
        }
    } else if all_filled(b) {
        (b, st, bt, StepResult::Solved)
    } else {
        let i = first_unfilled_of(b);
        (b.update(i, Some(Entry::One)), st.push(i), bt, StepResult::Searching)
    }
}

/// The underlying puzzle of a search state: the board with every cell
/// named by the attempt stack cleared back out. The cells the search has
/// filled are exactly the stack cells, so this recovers the board as it
/// stood before the search began, and search moves never change it.
pub open spec fn base_board(b: Seq<Option<Entry>>, st: Seq<int>) -> Seq<Option<Entry>> {
    Seq::new(b.len(), |i: int| if st.contains(i) { None } else { b[i] })
}

/// Whether `sol` holds the same digits as board `b` at the first `k`
/// stack cells.
pub open spec fn agrees_prefix(
    sol: Seq<Option<Entry>>,
    b: Seq<Option<Entry>>,
    st: Seq<int>,
    k: int,
) -> bool {
    forall|m: int| 0 <= m < k ==> sol[st[m]] == b[st[m]]
}

/// Whether `sol` holds the same digits as board `b` at every stack cell.
pub open spec fn agrees_all(sol: Seq<Option<Entry>>, b: Seq<Option<Entry>>, st: Seq<int>) -> bool {
    agrees_prefix(sol, b, st, st.len() as int)
}

/// Whether `sol` lies strictly before the current search node in the
/// search's try-digits-in-ascending-order traversal: at some stack cell it
/// holds a smaller digit than the board does, while agreeing with the
/// board at every earlier stack cell.
pub open spec fn sol_before(sol: Seq<Option<Entry>>, b: Seq<Option<Entry>>, st: Seq<int>) -> bool {
    exists|k: int|
        0 <= k < st.len() && agrees_prefix(sol, b, st, k) && opt_value(sol[st[k]]) < opt_value(
            b[st[k]],
        )
}

/// Structural well-formedness of a search state: every stack entry names
/// a distinct, filled cell, the entries ascend, and below any stack entry
/// the only cells the puzzle leaves open are stack cells themselves (the
/// search always fills the first open cell, so the stack is a prefix of
/// the puzzle's open cells).
pub open spec fn search_wf(b: Seq<Option<Entry>>, st: Seq<int>) -> bool {
    &&& board_wf(b)
    &&& (forall|k: int|
        0 <= k < st.len() ==> 0 <= #[trigger] st[k] < 81 && b[st[k]] is Some)
    &&& (forall|k1: int, k2: int| 0 <= k1 < k2 < st.len() ==> st[k1] < st[k2])
    &&& (forall|k: int, j: int|
        #![trigger st[k], base_board(b, st)[j]]
        0 <= k < st.len() && 0 <= j < st[k] && base_board(b, st)[j] is None ==> st.contains(j))
}

/// The invariant of the stepped search, relative to the underlying puzzle
/// [`base_board`]: the state is structurally well formed; an invalid
/// board can only be the immediate result of the last trial digit, never
/// seen while unwinding; and no solution of the puzzle lies strictly
/// before the current node — while unwinding, none lies at it either.
///
/// A fresh solver establishes this for any well-formed board
/// ([`lemma_search_inv_init`]), and every step preserves it
/// ([`lemma_step_preserves_inv`]).
pub open spec fn search_inv(b: Seq<Option<Entry>>, st: Seq<int>, bt: bool) -> bool {
    &&& search_wf(b, st)
    &&& (!board_valid(b) ==> !bt)
    &&& (!board_valid(b) && st.len() > 0 ==> board_valid(b.update(st.last(), None)))
    &&& (forall|sol: Seq<Option<Entry>>|
        is_solution(sol, base_board(b, st)) ==> !sol_before(sol, b, st))
    &&& (bt ==> forall|sol: Seq<Option<Entry>>|
        is_solution(sol, base_board(b, st)) ==> !agrees_all(sol, b, st))
}

/// The board of a search state extends its own underlying puzzle.
pub proof fn lemma_extends_of_base(b: Seq<Option<Entry>>, st: Seq<int>)
    requires
        board_wf(b),
    ensures
        board_wf(base_board(b, st)),
        extends(b, base_board(b, st)),
{
    assert forall|j: int|
        0 <= j < 81 && base_board(b, st)[j] is Some implies #[trigger] b[j] == base_board(
        b,
        st,
    )[j] by {
        assert(!st.contains(j));
    }
}

/// A solution of the puzzle that agrees with the board at every stack
/// cell extends the whole board.
proof fn lemma_agreeing_solution_extends(
    sol: Seq<Option<Entry>>,
    b: Seq<Option<Entry>>,
    st: Seq<int>,
)
    requires
        search_wf(b, st),
        is_solution(sol, base_board(b, st)),
        agrees_all(sol, b, st),
    ensures
        extends(sol, b),
{
    assert forall|j: int| 0 <= j < 81 && b[j] is Some implies #[trigger] sol[j] == b[j] by {
        if base_board(b, st)[j] is Some {
            assert(sol[j] == base_board(b, st)[j]);
            assert(!st.contains(j));
        } else {
            assert(st.contains(j));
            let k = choose|k: int| 0 <= k < st.len() && st[k] == j;
            assert(sol[st[k]] == b[st[k]]);
        }
    }
}

/// A fresh search state: any well-formed board with an empty stack and a
/// cleared flag satisfies the search invariant, and the board itself is
/// the underlying puzzle.
pub proof fn lemma_search_inv_init(b: Seq<Option<Entry>>)
    requires
        board_wf(b),
    ensures
        search_inv(b, Seq::<int>::empty(), false),
        base_board(b, Seq::<int>::empty()) == b,
{
    assert(base_board(b, Seq::<int>::empty()) =~= b);
}

/// What pushing onto a stack of indices does to membership.
proof fn lemma_contains_push(st: Seq<int>, x: int, y: int)
    ensures
        st.push(x).contains(y) <==> st.contains(y) || x == y,
{
    if st.contains(y) {
        let k = choose|k: int| 0 <= k < st.len() && st[k] == y;
        assert(st.push(x)[k] == y);
    }
    if x == y {
        assert(st.push(x)[st.len() as int] == y);
    }
    if st.push(x).contains(y) && x != y {
        let k = choose|k: int| 0 <= k < st.push(x).len() && st.push(x)[k] == y;
        assert(st[k] == y);
    }
}

/// What dropping the last of a stack of indices does to membership.
proof fn lemma_contains_drop_last(st: Seq<int>, y: int)
    requires
        st.len() > 0,
    ensures
        st.drop_last().contains(y) ==> st.contains(y),
        st.contains(y) && st.last() != y ==> st.drop_last().contains(y),
{
    if st.drop_last().contains(y) {
        let k = choose|k: int| 0 <= k < st.drop_last().len() && st.drop_last()[k] == y;
        assert(st[k] == y);
    }
    if st.contains(y) && st.last() != y {
        let k = choose|k: int| 0 <= k < st.len() && st[k] == y;
        assert(k != st.len() - 1);
        assert(st.drop_last()[k] == y);
    }
}

/// Below a given difference between two boards lies a first difference.
proof fn lemma_first_diff_below(s1: Seq<Option<Entry>>, s2: Seq<Option<Entry>>, w: int)
    requires
        s1.len() == s2.len(),
        0 <= w < s1.len(),
        s1[w] != s2[w],
    ensures
        exists|i: int|
            0 <= i < s1.len() && #[trigger] s1[i] != s2[i] && (forall|j: int|
                0 <= j < i ==> s1[j] == s2[j]),
    decreases w,
{
    if forall|j: int| 0 <= j < w ==> s1[j] == s2[j] {
        assert(0 <= w < s1.len() && s1[w] != s2[w] && (forall|j: int|
            0 <= j < w ==> s1[j] == s2[j]));
    } else {
        let j = choose|j: int| 0 <= j < w && s1[j] != s2[j];
        lemma_first_diff_below(s1, s2, j);
    }
}

/// Two distinct boards of equal size have a first differing cell.
proof fn lemma_first_diff(s1: Seq<Option<Entry>>, s2: Seq<Option<Entry>>)
    requires
        s1.len() == s2.len(),
        s1 != s2,
    ensures
        exists|i: int|
            0 <= i < s1.len() && #[trigger] s1[i] != s2[i] && (forall|j: int|
                0 <= j < i ==> s1[j] == s2[j]),
{
    if forall|i: int| 0 <= i < s1.len() ==> #[trigger] s1[i] == s2[i] {
        assert(s1 =~= s2);
    }
    let w = choose|i: int| 0 <= i < s1.len() && #[trigger] s1[i] != s2[i];
    lemma_first_diff_below(s1, s2, w);
}

/// A search state that would have to retract past the bottom of the stack
/// has a puzzle with no solution at all.
proof fn lemma_step_unsolvable(b: Seq<Option<Entry>>, st: Seq<int>, bt: bool)
    requires
        search_inv(b, st, bt),
        st.len() == 0,
        !board_valid(b) || bt,
    ensures
        forall|sol: Seq<Option<Entry>>| !is_solution(sol, base_board(b, st)),
{
    assert(base_board(b, st) =~= b);
    assert forall|sol: Seq<Option<Entry>>| !is_solution(sol, base_board(b, st)) by {
        if is_solution(sol, base_board(b, st)) {
            if !board_valid(b) {
                lemma_extends_invalid(sol, b);
            } else {
                assert(agrees_all(sol, b, st));
            }
        }
    }
}

/// A valid, completely filled board of an advancing search state is the
/// least solution of its own puzzle.
proof fn lemma_step_solved(b: Seq<Option<Entry>>, st: Seq<int>, bt: bool)
    requires
        search_inv(b, st, bt),
        board_valid(b),
        !bt,
        all_filled(b),
    ensures
        is_solution(b, base_board(b, st)),
        forall|sol: Seq<Option<Entry>>|
            is_solution(sol, base_board(b, st)) ==> lex_le(b, sol),
{
    lemma_extends_of_base(b, st);
    assert forall|sol: Seq<Option<Entry>>|
        is_solution(sol, base_board(b, st)) implies lex_le(b, sol) by {
        if sol != b {
            lemma_first_diff(b, sol);
            let i = choose|i: int|
                0 <= i < b.len() && #[trigger] b[i] != sol[i] && (forall|j: int|
                    0 <= j < i ==> b[j] == sol[j]);
            // off-stack cells agree with the puzzle on both sides, so the
            // difference is at a stack cell
            if !st.contains(i) {
                assert(base_board(b, st)[i] == b[i]);
                assert(sol[i] == base_board(b, st)[i]);
                assert(false);
            }
            let k = choose|k: int| 0 <= k < st.len() && st[k] == i;
            assert forall|m: int| 0 <= m < k implies sol[st[m]] == b[st[m]] by {
                assert(st[m] < st[k]);
            }
            assert(b[i] is Some);
            assert(sol[i] is Some);
            let eb = b[i]->0;
            let es = sol[i]->0;
            lemma_entry_value(eb);
            lemma_entry_value(es);
            if opt_value(sol[i]) < opt_value(b[i]) {
                assert(agrees_prefix(sol, b, st, k));
                assert(sol_before(sol, b, st));
                assert(false);
            }
            if opt_value(sol[i]) == opt_value(b[i]) {
                assert(false);
            }
            assert(lex_lt_at(b, sol, i));
        }
    }
}

/// Advancing the search — placing digit 1 in the first unfilled cell and
/// recording the attempt — preserves the search invariant and the puzzle.
proof fn lemma_step_advance(b: Seq<Option<Entry>>, st: Seq<int>, bt: bool)
    requires
        search_inv(b, st, bt),
        board_valid(b),
        !bt,
        !all_filled(b),
    ensures
        ({
            let i = first_unfilled_of(b);
            let b2 = b.update(i, Some(Entry::One));
            let st2 = st.push(i);
            &&& search_inv(b2, st2, bt)
            &&& base_board(b2, st2) == base_board(b, st)
        }),
{
    lemma_first_unfilled_exists(b);
    let i = first_unfilled_of(b);
    assert(is_first_unfilled(b, i));
    let b2 = b.update(i, Some(Entry::One));
    let st2 = st.push(i);
    let base = base_board(b, st);

    // the new cell was empty, so it is no recorded attempt, and it lies
    // above every recorded attempt
    assert forall|k: int| 0 <= k < st.len() implies #[trigger] st[k] < i by {
        assert(b[st[k]] is Some);
        if st[k] > i {
            if st.contains(i) {
                let k2 = choose|k2: int| 0 <= k2 < st.len() && st[k2] == i;
                assert(b[st[k2]] is Some);
            }
            assert(base_board(b, st)[i] is None);
            assert(st.contains(i));
        }
    }
    assert(!st.contains(i));

    // the underlying puzzle is unchanged
    assert forall|j: int| 0 <= j < 81 implies #[trigger] base_board(b2, st2)[j] == base[j] by {
        lemma_contains_push(st, i, j);
        if j == i {
            assert(base_board(b2, st2)[j] is None);
            assert(base[j] == b[i]);
        }
    }
    assert(base_board(b2, st2) =~= base);

    // structural well-formedness
    assert forall|k: int|
        0 <= k < st2.len() implies 0 <= #[trigger] st2[k] < 81 && b2[st2[k]] is Some by {
        if k < st.len() {
            assert(st2[k] == st[k]);
            assert(b2[st[k]] == b[st[k]]);
        } else {
            assert(st2[k] == i);
        }
    }
    assert forall|k: int, j: int|
        #![trigger st2[k], base_board(b2, st2)[j]]
        0 <= k < st2.len() && 0 <= j < st2[k] && base_board(b2, st2)[j] is None implies st2.contains(
        j,
    ) by {
        lemma_contains_push(st, i, j);
        assert(base_board(b2, st2)[j] == base[j]);
        if k < st.len() {
            assert(st2[k] == st[k]);
            assert(st.contains(j));
        } else {
            assert(st2[k] == i);
            // below the first unfilled cell every cell of the board is
            // filled, so an open puzzle cell there is a recorded attempt
            if !st.contains(j) {
                assert(base[j] == b[j]);
                assert(b[j] is Some);
                assert(base[j] is Some);
            }
        }
    }

    // an invalid board can only stem from the digit just placed
    if !board_valid(b2) && st2.len() > 0 {
        assert(b2.update(st2.last(), None) =~= b);
    }

    // no solution lies strictly before the new node
    assert forall|sol: Seq<Option<Entry>>|
        is_solution(sol, base_board(b2, st2)) implies !sol_before(sol, b2, st2) by {
        if sol_before(sol, b2, st2) {
            let k = choose|k: int|
                0 <= k < st2.len() && agrees_prefix(sol, b2, st2, k) && opt_value(sol[st2[k]])
                    < opt_value(b2[st2[k]]);
            if k < st.len() {
                assert forall|m: int| 0 <= m < k implies sol[st[m]] == b[st[m]] by {
                    assert(st2[m] == st[m]);
                    assert(b2[st[m]] == b[st[m]]);
                    assert(sol[st2[m]] == b2[st2[m]]);
                }
                assert(agrees_prefix(sol, b, st, k));
                assert(st2[k] == st[k]);
                assert(b2[st[k]] == b[st[k]]);
                assert(sol_before(sol, b, st));
            } else {
                assert(st2[k] == i);
                assert(b2[i] == Some(Entry::One));
                assert(opt_value(sol[i]) < 1);
                assert(sol[i] is Some);
                lemma_entry_value(sol[i]->0);
            }
        }
    }
}

/// Retrying the most recent attempt — incrementing its digit, or clearing
/// the cell when the digit has reached 9 — preserves the search invariant
/// and the puzzle. The flag after the retry is set exactly when the cell
/// was cleared.
proof fn lemma_step_retry(b: Seq<Option<Entry>>, st: Seq<int>, bt: bool)
    requires
        search_inv(b, st, bt),
        st.len() > 0,
        !board_valid(b) || bt,
    ensures
        ({
            let (b2, st2, cleared) = retry_spec(b, st);
            &&& search_inv(b2, st2, cleared)
            &&& base_board(b2, st2) == base_board(b, st)
        }),
{
    let top = st.last();
    assert(b[top] is Some);
    let e = b[top]->0;
    lemma_entry_value(e);
    let base = base_board(b, st);
    assert(st.contains(top));

    // every other stack cell lies strictly below the top one
    assert forall|k: int| 0 <= k < st.len() - 1 implies #[trigger] st[k] < top by {
        assert(st[k] < st[st.len() - 1]);
    }

    // no solution of the puzzle agrees with the board at every stack cell:
    // while unwinding that is the invariant itself, and on an invalid
    // board such a solution would extend the conflict
    assert forall|sol: Seq<Option<Entry>>|
        is_solution(sol, base) implies !agrees_all(sol, b, st) by {
        if agrees_all(sol, b, st) {
            if !board_valid(b) {
                lemma_agreeing_solution_extends(sol, b, st);
                lemma_extends_invalid(sol, b);
            }
        }
    }

    // a solution that agrees above the top cell holds at least the tried
    // digit there, hence strictly more than it, or it would agree fully
    assert forall|sol: Seq<Option<Entry>>|
        is_solution(sol, base) && agrees_prefix(sol, b, st, st.len() - 1) implies opt_value(
        sol[top],
    ) > e.value() || !(sol[top] is Some) by {
        if sol[top] is Some {
            let f = sol[top]->0;
            lemma_entry_value(f);
            assert(!sol_before(sol, b, st));
            assert(!(agrees_prefix(sol, b, st, st.len() - 1) && opt_value(sol[st[st.len() - 1]])
                < opt_value(b[st[st.len() - 1]])));
            if f.value() == e.value() {
                assert(sol[top] == b[top]);
                assert forall|m: int| 0 <= m < st.len() implies sol[st[m]] == b[st[m]] by {
                    if m < st.len() - 1 {
                    } else {
                        assert(st[m] == top);
                    }
                }
                assert(agrees_all(sol, b, st));
            }
        }
    }

    if e.value() < 9 {
        // increment: the same cell gets the next candidate digit
        let next = Entry::spec_of_value(e.value() + 1);
        let b2 = b.update(top, Some(next));
        let st2 = st;

        // the underlying puzzle is unchanged
        assert forall|j: int|
            0 <= j < 81 implies #[trigger] base_board(b2, st2)[j] == base[j] by {
            if j != top {
                assert(b2[j] == b[j]);
            }
        }
        assert(base_board(b2, st2) =~= base);

        // structural well-formedness
        assert forall|k: int|
            0 <= k < st2.len() implies 0 <= #[trigger] st2[k] < 81 && b2[st2[k]] is Some by {
            if st[k] != top {
                assert(b2[st[k]] == b[st[k]]);
            }
        }

        // an invalid board can only stem from the digit just placed
        if !board_valid(b2) && st2.len() > 0 {
            assert(b2.update(top, None) =~= b.update(top, None));
            if !board_valid(b) {
            } else {
                assert(extends(b, b.update(top, None)));
                if !board_valid(b.update(top, None)) {
                    lemma_extends_invalid(b, b.update(top, None));
                }
            }
        }

        // no solution lies strictly before the new node
        assert forall|sol: Seq<Option<Entry>>|
            is_solution(sol, base_board(b2, st2)) implies !sol_before(sol, b2, st2) by {
            if sol_before(sol, b2, st2) {
                let k = choose|k: int|
                    0 <= k < st2.len() && agrees_prefix(sol, b2, st2, k) && opt_value(sol[st2[k]])
                        < opt_value(b2[st2[k]]);
                assert forall|m: int| 0 <= m < k implies sol[st[m]] == b[st[m]] by {
                    assert(sol[st2[m]] == b2[st2[m]]);
                    assert(st[m] < top);
                    assert(b2[st[m]] == b[st[m]]);
                }
                assert(agrees_prefix(sol, b, st, k));
                if k < st.len() - 1 {
                    assert(b2[st[k]] == b[st[k]]);
                    assert(sol_before(sol, b, st));
                } else {
                    assert(st[k] == top);
                    assert(opt_value(sol[top]) < e.value() + 1);
                    assert(sol[top] is Some);
                }
            }
        }
    } else {
        // clear: the digits at this cell are exhausted
        let b2 = b.update(top, None);
        let st2 = st.drop_last();

        // the top cell is no longer recorded
        assert forall|j: int| #[trigger] st2.contains(j) implies st.contains(j) && j < top by {
            lemma_contains_drop_last(st, j);
            let k = choose|k: int| 0 <= k < st2.len() && st2[k] == j;
            assert(st[k] == j);
        }
        assert(!st2.contains(top));

        // the underlying puzzle is unchanged
        assert forall|j: int|
            0 <= j < 81 implies #[trigger] base_board(b2, st2)[j] == base[j] by {
            lemma_contains_drop_last(st, j);
            if j == top {
                assert(base_board(b2, st2)[j] == b2[top]);
            } else {
                assert(b2[j] == b[j]);
                if st.contains(j) {
                    assert(st2.contains(j));
                }
            }
        }
        assert(base_board(b2, st2) =~= base);

        // the board is valid again once the conflicting digit is gone
        assert(board_valid(b2)) by {
            if !board_valid(b) {
            } else {
                assert(extends(b, b2));
                if !board_valid(b2) {
                    lemma_extends_invalid(b, b2);
                }
            }
        }

        // structural well-formedness
        assert forall|k: int|
            0 <= k < st2.len() implies 0 <= #[trigger] st2[k] < 81 && b2[st2[k]] is Some by {
            assert(st2[k] == st[k]);
            assert(st[k] < top);
            assert(b2[st[k]] == b[st[k]]);
        }
        assert forall|k: int, j: int|
            #![trigger st2[k], base_board(b2, st2)[j]]
            0 <= k < st2.len() && 0 <= j < st2[k] && base_board(b2, st2)[j] is None implies st2.contains(
            j,
        ) by {
            assert(st2[k] == st[k]);
            assert(base_board(b2, st2)[j] == base[j]);
            assert(st.contains(j));
            assert(j < st[k] < top);
            lemma_contains_drop_last(st, j);
        }

        // no solution lies strictly before the new node, nor at it
        assert forall|sol: Seq<Option<Entry>>|
            is_solution(sol, base_board(b2, st2)) implies !sol_before(sol, b2, st2)
                && !agrees_all(sol, b2, st2) by {
            if sol_before(sol, b2, st2) {
                let k = choose|k: int|
                    0 <= k < st2.len() && agrees_prefix(sol, b2, st2, k) && opt_value(sol[st2[k]])
                        < opt_value(b2[st2[k]]);
                assert forall|m: int| 0 <= m < k implies sol[st[m]] == b[st[m]] by {
                    assert(sol[st2[m]] == b2[st2[m]]);
                    assert(st2[m] == st[m]);
                    assert(st[m] < top);
                    assert(b2[st[m]] == b[st[m]]);
                }
                assert(agrees_prefix(sol, b, st, k));
                assert(st2[k] == st[k]);
                assert(b2[st[k]] == b[st[k]]);
                assert(sol_before(sol, b, st));
            }
            if agrees_all(sol, b2, st2) {
                assert forall|m: int| 0 <= m < st.len() - 1 implies sol[st[m]] == b[st[m]] by {
                    assert(sol[st2[m]] == b2[st2[m]]);
                    assert(st2[m] == st[m]);
                    assert(st[m] < top);
                    assert(b2[st[m]] == b[st[m]]);
                }
                assert(agrees_prefix(sol, b, st, st.len() - 1));
                assert(sol[top] is Some);
                let f = sol[top]->0;
                lemma_entry_value(f);
                assert(opt_value(sol[top]) > 9);
            }
        }
    }
}

/// The step transition preserves the search invariant and the underlying
/// puzzle; it reports `Solved` only with the puzzle's least solution on
/// the board, and `Unsolvable` only when the puzzle has no solution — in
/// both cases leaving the state untouched.
///
/// Together with [`lemma_search_inv_init`] this covers every state a
/// driver can reach by stepping a fresh solver, however it interleaves
/// the steps with other work.
pub proof fn lemma_step_preserves_inv(b: Seq<Option<Entry>>, st: Seq<int>, bt: bool)
    requires
        search_inv(b, st, bt),
    ensures
        ({
            let (b2, st2, bt2, r) = step_spec(b, st, bt);
            &&& search_inv(b2, st2, bt2)
            &&& base_board(b2, st2) == base_board(b, st)
            &&& (r == StepResult::Solved ==> b2 == b && st2 == st && bt2 == bt && is_solution(
                b,
                base_board(b, st),
            ) && (forall|sol: Seq<Option<Entry>>|
                is_solution(sol, base_board(b, st)) ==> lex_le(b, sol)))
            &&& (r == StepResult::Unsolvable ==> b2 == b && st2 == st && bt2 == bt && (forall|
                sol: Seq<Option<Entry>>,
            | !is_solution(sol, base_board(b, st))))
        }),
{
    if !board_valid(b) {
        if st.len() == 0 {
            lemma_step_unsolvable(b, st, bt);
        } else {
            lemma_step_retry(b, st, bt);
        }
    } else if bt {
        if st.len() == 0 {
            lemma_step_unsolvable(b, st, bt);
        } else {
            lemma_step_retry(b, st, bt);
        }
    } else if all_filled(b) {
        lemma_step_solved(b, st, bt);
    } else {
        lemma_step_advance(b, st, bt);
    }
}

/// The cell-by-cell order on boards has no cycles of two.
proof fn lemma_lex_le_antisymm(s1: Seq<Option<Entry>>, s2: Seq<Option<Entry>>)
    requires
        lex_le(s1, s2),
        lex_le(s2, s1),
    ensures
        s1 == s2,
{
    if s1 != s2 {
        let i = choose|i: int| lex_lt_at(s1, s2, i);
        let j = choose|j: int| lex_lt_at(s2, s1, j);
        if i < j {
            assert(s2[i] == s1[i]);
        } else if j < i {
            assert(s1[j] == s2[j]);
        }
    }
}

/// A puzzle has at most one least solution: any two solutions that both
/// come no later than every solution are the same board.
///
/// The one-shot [`solve`] ends on the least solution by its own contract,
/// and a stepped search that reports `Solved` has the least solution of
/// its puzzle on the board, by [`lemma_step_preserves_inv`]; by this
/// lemma, running the stepped solver to completion therefore produces
/// exactly the board that `solve` produces, whenever there is a solution
/// to find.
pub proof fn lemma_least_solution_unique(
    s1: Seq<Option<Entry>>,
    s2: Seq<Option<Entry>>,
    b: Seq<Option<Entry>>,
)
    requires
        is_solution(s1, b),
        is_solution(s2, b),
        forall|sol: Seq<Option<Entry>>| is_solution(sol, b) ==> lex_le(s1, sol),
        forall|sol: Seq<Option<Entry>>| is_solution(sol, b) ==> lex_le(s2, sol),
    ensures
        s1 == s2,
{
    assert(lex_le(s1, s2));
    assert(lex_le(s2, s1));
    lemma_lex_le_antisymm(s1, s2);
}

/// Twenty to the power `n`: the radix used to number search nodes.
pub open spec fn pow20(n: nat) -> int
    decreases n,
{
    if n == 0 {
        1
    } else {
        20 * pow20((n - 1) as nat)
    }
}

proof fn lemma_pow20_pos(n: nat)
    ensures
        pow20(n) >= 1,
    decreases n,
{
    if n > 0 {
        lemma_pow20_pos((n - 1) as nat);
    }
}

/// A sequence of base-20 digits read as a number, most significant first.
pub open spec fn radix_val(ts: Seq<int>) -> int
    decreases ts.len(),
{
    if ts.len() == 0 {
        0
    } else {
        ts[0] * pow20((ts.len() - 1) as nat) + radix_val(ts.drop_first())
    }
}

proof fn lemma_radix_val_bounds(ts: Seq<int>)
    requires
        forall|k: int| 0 <= k < ts.len() ==> 0 <= #[trigger] ts[k] <= 19,
    ensures
        0 <= radix_val(ts) < pow20(ts.len()),
    decreases ts.len(),
{
    if ts.len() > 0 {
        lemma_radix_val_bounds(ts.drop_first());
        let p = pow20((ts.len() - 1) as nat);
        let h = ts[0];
        let t = radix_val(ts.drop_first());
        lemma_pow20_pos((ts.len() - 1) as nat);
        assert(h * p >= 0) by (nonlinear_arith)
            requires
                h >= 0,
                p >= 1,
        ;
        assert(h * p + t < 20 * p) by (nonlinear_arith)
            requires
                h <= 19,
                p >= 1,
                t < p,
        ;
    }
}

proof fn lemma_radix_val_lex(ts1: Seq<int>, ts2: Seq<int>, k: int)
    requires
        ts1.len() == ts2.len(),
        forall|m: int| 0 <= m < ts1.len() ==> 0 <= #[trigger] ts1[m] <= 19,
        forall|m: int| 0 <= m < ts2.len() ==> 0 <= #[trigger] ts2[m] <= 19,
        0 <= k < ts1.len(),
        forall|m: int| 0 <= m < k ==> ts1[m] == ts2[m],
        ts1[k] < ts2[k],
    ensures
        radix_val(ts1) < radix_val(ts2),
    decreases k,
{
    let p = pow20((ts1.len() - 1) as nat);
    if k == 0 {
        lemma_radix_val_bounds(ts1.drop_first());
        lemma_radix_val_bounds(ts2.drop_first());
        let t1 = radix_val(ts1.drop_first());
        let t2 = radix_val(ts2.drop_first());
        assert(ts1[0] * p + t1 < ts2[0] * p + t2) by (nonlinear_arith)
            requires
                ts1[0] < ts2[0],
                p >= 0,
                t1 < p,
                t2 >= 0,
        ;
    } else {
        assert forall|m: int| 0 <= m < ts1.drop_first().len() implies 0 <= #[trigger] ts1.drop_first()[m]
            <= 19 by {
            assert(ts1.drop_first()[m] == ts1[m + 1]);
        }
        assert forall|m: int| 0 <= m < ts2.drop_first().len() implies 0 <= #[trigger] ts2.drop_first()[m]
            <= 19 by {
            assert(ts2.drop_first()[m] == ts2[m + 1]);
        }
        assert forall|m: int| 0 <= m < k - 1 implies ts1.drop_first()[m] == ts2.drop_first()[m] by {
            assert(ts1.drop_first()[m] == ts1[m + 1]);
            assert(ts2.drop_first()[m] == ts2[m + 1]);
        }
        assert(ts1.drop_first()[k - 1] == ts1[k]);
        assert(ts2.drop_first()[k - 1] == ts2[k]);
        lemma_radix_val_lex(ts1.drop_first(), ts2.drop_first(), k - 1);
        assert(ts1[0] == ts2[0]);
    }
}

/// The position of a search state in the traversal, as 81 base-20 digits,
/// most significant first: each recorded attempt contributes twice its
/// digit, plus one at the last attempt while unwinding (the search is
/// then already past that digit).
pub open spec fn node_digits(b: Seq<Option<Entry>>, st: Seq<int>, bt: bool) -> Seq<int> {
    Seq::new(
        81,
        |k: int|
            if 0 <= k < st.len() {
                2 * opt_value(b[st[k]]) + (if bt && k == st.len() - 1 {
                    1int
                } else {
                    0int
                })
            } else {
                0int
            },
    )
}

/// How far the search has come, as a number that every `Searching` step
/// strictly increases and that never exceeds twenty to the eighty-first
/// ([`lemma_step_progress`]): repeated stepping therefore terminates in a
/// bounded number of steps. A state about to retract past the bottom of
/// the stack sits at the very end of the traversal.
pub open spec fn search_progress(b: Seq<Option<Entry>>, st: Seq<int>, bt: bool) -> int {
    if bt && st.len() == 0 {
        pow20(81)
    } else {
        radix_val(node_digits(b, st, bt))
    }
}

proof fn lemma_node_digits_in_range(b: Seq<Option<Entry>>, st: Seq<int>, bt: bool)
    ensures
        forall|k: int| 0 <= k < 81 ==> 0 <= #[trigger] node_digits(b, st, bt)[k] <= 19,
{
    assert forall|k: int| 0 <= k < 81 implies 0 <= #[trigger] node_digits(b, st, bt)[k] <= 19 by {
        if 0 <= k < st.len() {
            match b[st[k]] {
                Some(e) => lemma_entry_value(e),
                None => {},
            }
        }
    }
}

/// An ascending stack climbs at least as fast as its positions.
proof fn lemma_ascending_lower_bound(st: Seq<int>, k: int)
    requires
        forall|k1: int, k2: int| 0 <= k1 < k2 < st.len() ==> st[k1] < st[k2],
        forall|m: int| 0 <= m < st.len() ==> #[trigger] st[m] >= 0,
        0 <= k < st.len(),
    ensures
        st[k] >= k,
    decreases k,
{
    if k > 0 {
        lemma_ascending_lower_bound(st, k - 1);
        assert(st[k - 1] < st[k]);
    }
}

/// A well-formed search state records at most 81 attempts.
proof fn lemma_stack_len_bound(b: Seq<Option<Entry>>, st: Seq<int>)
    requires
        search_wf(b, st),
    ensures
        st.len() <= 81,
{
    if st.len() > 81 {
        lemma_ascending_lower_bound(st, 81);
        assert(st[81] < 81);
    }
}

/// Every step that reports `Searching` moves the search strictly forward:
/// the progress number grows, yet never exceeds twenty to the
/// eighty-first. Stepping therefore cannot go on forever.
pub proof fn lemma_step_progress(b: Seq<Option<Entry>>, st: Seq<int>, bt: bool)
    requires
        search_inv(b, st, bt),
        step_spec(b, st, bt).3 == StepResult::Searching,
    ensures
        0 <= search_progress(b, st, bt),
        search_progress(step_spec(b, st, bt).0, step_spec(b, st, bt).1, step_spec(b, st, bt).2)
            > search_progress(b, st, bt),
        search_progress(step_spec(b, st, bt).0, step_spec(b, st, bt).1, step_spec(b, st, bt).2)
            <= pow20(81),
{
    let (b2, st2, bt2, r) = step_spec(b, st, bt);
    lemma_stack_len_bound(b, st);
    lemma_node_digits_in_range(b, st, bt);
    lemma_radix_val_bounds(node_digits(b, st, bt));
    lemma_step_preserves_inv(b, st, bt);
    lemma_stack_len_bound(b2, st2);
    lemma_node_digits_in_range(b2, st2, bt2);
    lemma_radix_val_bounds(node_digits(b2, st2, bt2));
    assert(!(bt && st.len() == 0));
    let ts1 = node_digits(b, st, bt);
    let ts2 = node_digits(b2, st2, bt2);

    if !board_valid(b) || bt {
        // a retry at the top of the stack
        let top = st.last();
        let e = b[top]->0;
        lemma_entry_value(e);
        let ld = st.len() - 1;
        if e.value() < 9 {
            // increment: the digit at the last position grows
            assert(Entry::spec_of_value(e.value() + 1).value() == e.value() + 1);
            assert(ts2[ld] == 2 * (e.value() + 1));
            assert(ts1[ld] == 2 * e.value() + (if bt {
                1int
            } else {
                0int
            }));
            assert forall|m: int| 0 <= m < ld implies ts1[m] == ts2[m] by {
                assert(st[m] < st[ld]);
                assert(b2[st[m]] == b[st[m]]);
            }
            lemma_radix_val_lex(ts1, ts2, ld);
        } else {
            // clear: the search moves past this digit, pending a retry of
            // the attempt below
            if st.len() == 1 {
                assert(search_progress(b2, st2, bt2) == pow20(81));
            } else {
                let k0 = st.len() - 2;
                assert(st2[k0] == st[k0]);
                assert(st[k0] < top);
                assert(b2[st[k0]] == b[st[k0]]);
                assert(ts2[k0] == 2 * opt_value(b[st[k0]]) + 1);
                assert(ts1[k0] == 2 * opt_value(b[st[k0]]));
                assert forall|m: int| 0 <= m < k0 implies ts1[m] == ts2[m] by {
                    assert(st2[m] == st[m]);
                    assert(st[m] < top);
                    assert(b2[st[m]] == b[st[m]]);
                }
                lemma_radix_val_lex(ts1, ts2, k0);
            }
        }
    } else {
        // advancing: a new attempt appears past every recorded one
        lemma_first_unfilled_exists(b);
        let i = first_unfilled_of(b);
        let ld = st.len() as int;
        assert(st2 == st.push(i));
        assert(st2.len() <= 81);
        assert(ld < 81);
        assert(ts1[ld] == 0);
        assert(b2[i] == Some(Entry::One));
        assert(ts2[ld] == 2);
        assert forall|m: int| 0 <= m < ld implies ts1[m] == ts2[m] by {
            assert(b[st[m]] is Some);
            assert(st[m] != i);
            assert(st2[m] == st[m]);
            assert(b2[st[m]] == b[st[m]]);
        }
        lemma_radix_val_lex(ts1, ts2, ld);
    }
}

/// A state satisfying the search invariant in particular satisfies the
/// precondition of [`Solver::step`].
pub proof fn lemma_inv_implies_coherent(s: Solver, board: Board)
    requires
        search_inv(board@, s.stack(), s.backtracking),
    ensures
        s.coherent(board),
{
}

/// Idempotence on solved boards: a complete, valid board is its own one
/// and only solution.
///
/// By the contract of [`solve`], re-solving such a board therefore
/// returns `true` and leaves the board unchanged.
pub proof fn lemma_solved_board_is_fixed(b: Seq<Option<Entry>>, sol: Seq<Option<Entry>>)
    requires
        board_wf(b),
        all_filled(b),
        board_valid(b),
        is_solution(sol, b),
    ensures
        sol == b,
        is_solution(b, b),
{
    assert(sol =~= b);
}

/// Termination on a solved board: for a board with no empty cell that is
/// valid, an advancing step reports `Solved` at once, mutating neither
/// the board nor the solver state.
pub proof fn lemma_step_on_solved_board(b: Seq<Option<Entry>>, st: Seq<int>, bt: bool)
    requires
        board_wf(b),
        board_valid(b),
        all_filled(b),
        !bt,
    ensures
        step_spec(b, st, bt) == (b, st, bt, StepResult::Solved),
{
}

/// Detectable unsolvability: in any state the search can reach on a
/// puzzle without a solution — an over-constrained board, say — a step
/// never reports `Solved`.
pub proof fn lemma_unsolvable_never_solved(b: Seq<Option<Entry>>, st: Seq<int>, bt: bool)
    requires
        search_inv(b, st, bt),
        !exists|sol: Seq<Option<Entry>>| is_solution(sol, base_board(b, st)),
    ensures
        step_spec(b, st, bt).3 != StepResult::Solved,
{
    lemma_step_preserves_inv(b, st, bt);
    if step_spec(b, st, bt).3 == StepResult::Solved {
        assert(is_solution(b, base_board(b, st)));
    }
}

/// Holds solving state.
///
/// To enable interleaved solving, this structure holds the solving state
/// so that solving can be paused and resumed. This allows a caller (for
/// instance a UI) to do other work between moves without any truly
/// asynchronous code: the entire search continuation is reified as data.
#[derive(Debug, Default)]
pub struct Solver {
    /// The path of trial assignments from the board's initial state down
    /// to the current search frontier, oldest first.
    pub attempt_stack: Vec<AttemptLocation>,
    /// Whether the search is currently retracting exhausted trial
    /// assignments rather than extending the search forward.
    pub backtracking: bool,
}

impl Solver {
    /// The attempt stack as a sequence of linear cell indices.
    pub open spec fn stack(self) -> Seq<int> {
        self.attempt_stack@.map_values(|l: AttemptLocation| l.0 as int)
    }

    /// The solver fits the board: every recorded attempt names a distinct
    /// cell of the board that is currently filled.
    ///
    /// This holds of a fresh solver with any well-formed board, and every
    /// step preserves it, so a driver that does not write to the board
    /// between steps maintains it for free.
    pub open spec fn coherent(self, board: Board) -> bool {
        &&& board_wf(board@)
        &&& forall|k: int|
            0 <= k < self.stack().len() ==> 0 <= #[trigger] self.stack()[k] < 81 && board@[self.stack()[k]] is Some
        &&& forall|k1: int, k2: int|
            0 <= k1 < k2 < self.stack().len() ==> self.stack()[k1] != self.stack()[k2]
    }

    /// Create a new solver.
    pub fn new() -> (r: Solver)
        ensures
            r.stack() == Seq::<int>::empty(),
            !r.backtracking,
    {
        let r = Solver { attempt_stack: Vec::new(), backtracking: false };
        proof {
            assert(r.stack() =~= Seq::<int>::empty());
        }
        r
    }

    /// Step the solver once: advance the board by exactly one assignment
    /// or retraction, following [`step_spec`] to the letter.
    ///
    /// An already-invalid or exhausted board is reported as
    /// [`StepResult::Unsolvable`] rather than treated as a fatal error, so
    /// an over-constrained puzzle is a legitimate input and never panics.
    ///
    /// On a state satisfying the search invariant — every state reachable
    /// by stepping a fresh solver, by [`lemma_search_inv_init`] — the
    /// invariant and the underlying puzzle are preserved, `Solved` puts
    /// the puzzle's least solution on the board, and `Unsolvable` means
    /// the puzzle has none.
    pub fn step(&mut self, board: &mut Board) -> (r: StepResult)
        requires
            old(self).coherent(*old(board)),
        ensures
            final(self).coherent(*final(board)),
            (final(board)@, final(self).stack(), final(self).backtracking, r) == step_spec(
                old(board)@,
                old(self).stack(),
                old(self).backtracking,
            ),
            search_inv(old(board)@, old(self).stack(), old(self).backtracking) ==> {
                let puzzle = base_board(old(board)@, old(self).stack());
                &&& search_inv(final(board)@, final(self).stack(), final(self).backtracking)
                &&& base_board(final(board)@, final(self).stack()) == puzzle
                &&& (r == StepResult::Solved ==> is_solution(final(board)@, puzzle) && (forall|
                    sol: Seq<Option<Entry>>,
                | is_solution(sol, puzzle) ==> lex_le(final(board)@, sol)))
                &&& (r == StepResult::Unsolvable ==> (forall|sol: Seq<Option<Entry>>|
                    !is_solution(sol, puzzle)))
            },
    {
        let r = self.step_transition(board);
        proof {
            if search_inv(old(board)@, old(self).stack(), old(self).backtracking) {
                lemma_step_preserves_inv(
                    old(board)@,
                    old(self).stack(),
                    old(self).backtracking,
                );
            }
        }
        r
    }

    /// The body of [`Solver::step`]: one transition of [`step_spec`].
    fn step_transition(&mut self, board: &mut Board) -> (r: StepResult)
        requires
            old(self).coherent(*old(board)),
        ensures
            final(self).coherent(*final(board)),
            (final(board)@, final(self).stack(), final(self).backtracking, r) == step_spec(
                old(board)@,
                old(self).stack(),
                old(self).backtracking,
            ),
    {
        if !board.is_valid() {
            // The last move was not valid: retry the most recent attempt.
            match self.attempt_stack.pop() {
                None => StepResult::Unsolvable,
                Some(loc) => {
                    let last_index = loc.0;
                    proof {
                        assert(old(self).stack()[old(self).stack().len() - 1] == loc.0 as int);
                        assert(self.stack() =~= old(self).stack().drop_last());
                    }
                    let last_entry = board.get_cell_index(last_index).unwrap();
                    match last_entry.successor() {
                        Some(next) => {
                            board.set_cell_index(last_index, Some(next));
                            self.attempt_stack.push(loc);
                            proof {
                                assert(self.stack() =~= old(self).stack());
                            }
                            StepResult::Searching
                        },
                        None => {
                            board.set_cell_index(last_index, None);
                            self.backtracking = true;
                            StepResult::Searching
                        },
                    }
                },
            }
        } else if self.backtracking {
            // The search is unwinding: retry the next attempt down.
            match self.attempt_stack.pop() {
                None => StepResult::Unsolvable,
                Some(loc) => {
                    let last_index = loc.0;
                    proof {
                        assert(old(self).stack()[old(self).stack().len() - 1] == loc.0 as int);
                        assert(self.stack() =~= old(self).stack().drop_last());
                    }
                    let last_entry = board.get_cell_index(last_index).unwrap();
                    match last_entry.successor() {
                        Some(next) => {
                            board.set_cell_index(last_index, Some(next));
                            self.attempt_stack.push(loc);
                            self.backtracking = false;
                            proof {
                                assert(self.stack() =~= old(self).stack());
                            }
                            StepResult::Searching
                        },
                        None => {
                            board.set_cell_index(last_index, None);
                            self.backtracking = true;
                            StepResult::Searching
                        },
                    }
                },
            }
        } else {
            // The last move was valid: make another one. If the board only
            // has filled cells, it must be solved, since no invalid entry
            // survives a step.
            match board.first_unfilled_index() {
                None => StepResult::Solved,
                Some(index) => {
                    proof {
                        lemma_first_unfilled_exists(old(board)@);
                        lemma_first_unfilled_unique(
                            old(board)@,
                            index as int,
                            first_unfilled_of(old(board)@),
                        );
                    }
                    board.set_cell_index(index, Some(Entry::One));
                    self.attempt_stack.push(AttemptLocation(index));
                    proof {
                        assert(self.stack() =~= old(self).stack().push(index as int));
                    }
                    StepResult::Searching
                },
            }
        }
    }
}

/// Run the stepped solver to completion on a board.
///
/// A fresh [`Solver`] is stepped until it reports [`StepResult::Solved`]
/// or [`StepResult::Unsolvable`]. The contract is exactly that of the
/// one-shot [`solve`], so the two produce the same answer and the same
/// final board on every input: the least solution in cell-by-cell order
/// when there is one, the untouched board when there is none. The loop
/// terminates because every step strictly advances the search
/// ([`lemma_step_progress`]).
pub fn solve_by_steps(board: &mut Board) -> (r: bool)
    requires
        old(board).wf(),
    ensures
        final(board).wf(),
        r == exists|sol: Seq<Option<Entry>>| is_solution(sol, old(board)@),
        r ==> is_solution(final(board)@, old(board)@),
        r ==> forall|sol: Seq<Option<Entry>>|
            is_solution(sol, old(board)@) ==> lex_le(final(board)@, sol),
        !r ==> final(board)@ == old(board)@,
{
    let mut solver = Solver::new();
    proof {
        lemma_search_inv_init(board@);
    }
    loop
        invariant
            board.wf(),
            search_inv(board@, solver.stack(), solver.backtracking),
            base_board(board@, solver.stack()) == old(board)@,
        decreases pow20(81) - search_progress(board@, solver.stack(), solver.backtracking),
    {
        let ghost ob = board@;
        let ghost ost = solver.stack();
        let ghost obt = solver.backtracking;
        proof {
            lemma_inv_implies_coherent(solver, *board);
        }
        match solver.step(board) {
            StepResult::Searching => {
                proof {
                    lemma_step_progress(ob, ost, obt);
                }
            },
            StepResult::Solved => {
                return true;
            },
            StepResult::Unsolvable => {
                proof {
                    assert(ost.len() == 0);
                    assert(base_board(ob, ost) =~= ob);
                }
                return false;
            },
        }
    }
}

} // verus!
