//! Backtracking search: the first full, valid board that keeps the given
//! digits, trying cells in row-major order and digits in ascending order.

use vstd::prelude::*;
use crate::board::Sudoku;
use crate::rules::{
    is_solution, lemma_duplicates_have_no_solution, solvable, valid, well_formed,
};

verus! {

/// `s` comes no later than `t` when boards are compared cell by cell, the
/// first cell that differs deciding.
pub open spec fn precedes(s: Seq<u8>, t: Seq<u8>) -> bool {
    s == t || exists|i: int| differs_first_at(s, t, i) && s[i] < t[i]
}

/// `s` and `t` agree before cell `i` and differ there.
pub open spec fn differs_first_at(s: Seq<u8>, t: Seq<u8>, i: int) -> bool {
    &&& 0 <= i < 81
    &&& s[i] != t[i]
    &&& forall|j: int| 0 <= j < i ==> s[j] == t[j]
}

/// `s` is the solution of `g` that the search reaches first: no solution of
/// `g` comes before it.
pub open spec fn is_first_solution(s: Seq<u8>, g: Seq<u8>) -> bool {
    &&& is_solution(s, g)
    &&& forall|t: Seq<u8>| is_solution(t, g) ==> precedes(s, t)
}

/// What the search returns on `g`: the first solution, if there is one.
pub open spec fn search_result(g: Seq<u8>) -> Option<Seq<u8>> {
    if exists|s: Seq<u8>| is_first_solution(s, g) {
        Some(choose|s: Seq<u8>| is_first_solution(s, g))
    } else {
        None
    }
}

/// The board of a search's outcome.
pub open spec fn found(r: Option<Sudoku>) -> Option<Seq<u8>> {
    match r {
        Some(s) => Some(s@),
        None => None,
    }
}

/// Two boards of which each comes no later than the other are equal.
pub proof fn lemma_precedes_antisymmetric(s: Seq<u8>, t: Seq<u8>)
    requires
        precedes(s, t),
        precedes(t, s),
    ensures
        s == t,
{
    if s != t {
        let i = choose|i: int| differs_first_at(s, t, i) && s[i] < t[i];
        let j = choose|j: int| differs_first_at(t, s, j) && t[j] < s[j];
        assert(i == j);
    }
}

/// A board has at most one first solution, and it is what the search
/// returns.
pub proof fn lemma_first_solution_unique(s: Seq<u8>, g: Seq<u8>)
    requires
        is_first_solution(s, g),
    ensures
        search_result(g) == Some(s),
{
    let t = choose|t: Seq<u8>| is_first_solution(t, g);
    lemma_precedes_antisymmetric(s, t);
}

/// A board without a solution has no search result.
pub proof fn lemma_unsolvable_no_result(g: Seq<u8>)
    requires
        !solvable(g),
    ensures
        search_result(g) is None,
{
}

/// The solutions of a board with one more digit placed are those solutions
/// of the board that have the digit in that place.
pub proof fn lemma_solutions_with_digit(t: Seq<u8>, g: Seq<u8>, cell: int, n: u8)
    requires
        g.len() == 81,
        0 <= cell < 81,
        g[cell] == 0,
        n != 0,
    ensures
        is_solution(t, g.update(cell, n)) <==> is_solution(t, g) && t[cell] == n,
{
    let h = g.update(cell, n);
    if is_solution(t, h) {
        assert(h[cell] != 0);
        assert forall|c: int| 0 <= c < 81 && #[trigger] g[c] != 0 implies t[c] == g[c] by {
            assert(h[c] == g[c]);
        }
    }
}

/// If no solution of a board has a digit smaller than `n` in an empty cell
/// that follows only filled cells, then the first solution with `n` in that
/// cell is the first solution of the board.
pub proof fn lemma_first_solution_with_digit(s: Seq<u8>, g: Seq<u8>, cell: int, n: u8)
    requires
        g.len() == 81,
        0 <= cell < 81,
        g[cell] == 0,
        n != 0,
        forall|j: int| 0 <= j < cell ==> #[trigger] g[j] != 0,
        forall|t: Seq<u8>| is_solution(t, g) ==> t[cell] >= n,
        is_first_solution(s, g.update(cell, n)),
    ensures
        is_first_solution(s, g),
{
    lemma_solutions_with_digit(s, g, cell, n);
    assert forall|t: Seq<u8>| is_solution(t, g) implies precedes(s, t) by {
        lemma_solutions_with_digit(t, g, cell, n);
        if t[cell] != n {
            assert forall|j: int| 0 <= j < cell implies s[j] == t[j] by {
                assert(g[j] != 0);
            }
            assert(differs_first_at(s, t, cell));
        }
    }
}

impl Sudoku {
    /// The first solution of this board, or `None` if it has none: the board
    /// holds a digit twice in some unit, or no way of filling it avoids that.
    pub fn bruteforce(&self) -> (r: Option<Sudoku>)
        ensures
            found(r) == search_result(self@),
            r is Some <==> solvable(self@),
            r matches Some(s) ==> is_first_solution(s@, self@),
            !valid(self@) ==> r is None,
    {
        if !self.check_validity() {
            proof {
                lemma_duplicates_have_no_solution(self@);
                lemma_unsolvable_no_result(self@);
            }
            return None;
        }
        let r = Self::recursively_attempt(*self, 0);
        proof {
            match r {
                Some(s) => lemma_first_solution_unique(s@, self@),
                None => lemma_unsolvable_no_result(self@),
            }
        }
        r
    }

    /// The first solution of `state`, a board without duplicates whose cells
    /// before `cell` are filled.
    fn recursively_attempt(state: Sudoku, cell: usize) -> (r: Option<Sudoku>)
        requires
            cell <= 81,
            valid(state@),
            forall|j: int| 0 <= j < cell ==> #[trigger] state@[j] != 0,
        ensures
            match r {
                Some(s) => is_first_solution(s@, state@),
                None => !solvable(state@),
            },
        decreases 81 - cell,
    {
        let cells = state.cells();
        if cell == 81 {
            proof {
                assert forall|t: Seq<u8>| is_solution(t, state@) implies precedes(state@, t) by {
                    assert(t =~= state@);
                }
            }
            return Some(state);
        }
        if cells[cell] != 0 {
            return Self::recursively_attempt(state, cell + 1);
        }
        let mut n: u8 = 1;
        while n <= 9
            invariant
                1 <= n <= 10,
                cell < 81,
                cells@ == state@,
                well_formed(state@),
                state@[cell as int] == 0,
                forall|j: int| 0 <= j < cell ==> #[trigger] state@[j] != 0,
                forall|t: Seq<u8>| is_solution(t, state@) ==> t[cell as int] >= n,
            decreases 10 - n,
        {
            let mut data = cells;
            data[cell] = n;
            let new_state = Sudoku::from_digits(data);
            proof {
                assert forall|t: Seq<u8>| is_solution(t, new_state@) <==> is_solution(t, state@)
                    && t[cell as int] == n by {
                    lemma_solutions_with_digit(t, state@, cell as int, n);
                }
            }
            if new_state.check_validity() {
                match Self::recursively_attempt(new_state, cell + 1) {
                    Some(s) => {
                        proof {
                            lemma_first_solution_with_digit(s@, state@, cell as int, n);
                        }
                        return Some(s);
                    },
                    None => {},
                }
            } else {
                proof {
                    lemma_duplicates_have_no_solution(new_state@);
                }
            }
            n += 1;
        }
        proof {
            assert forall|t: Seq<u8>| !is_solution(t, state@) by {
                if is_solution(t, state@) {
                    assert(t[cell as int] <= 9);
                }
            }
        }
        None
    }
}

} // verus!
