//! Propagation never guesses: whatever it writes into a cell stands there in
//! every solution of the board.

use vstd::prelude::*;
use crate::possibility::{lemma_digit_set_finite, lemma_single_digit};
use crate::propagation::{
    candidates, empty_cells, fits_at, hidden_single, hidden_single_at, hidden_singles,
    lemma_fewer_empty_cells, lemma_hidden_singles_grow, lemma_naked_singles_grow, lemma_pass_grows,
    lemma_propagated_grows, lemma_scan_in_range, naked_singles, open_digits, pass, propagated,
    scan_digit, scan_length, scan_unit, unit_digits,
};
use crate::rules::{
    extends, is_solution, lemma_extends_transitive, lemma_full_unit_holds_every_digit,
    lemma_valid_of_extension, solvable, unit_free_of_duplicates, unit_value, valid, well_formed,
};
use crate::units::{
    box_unit, column_unit, in_unit, lemma_cell_units, lemma_unit_cell, position_in, row_unit,
    unit_cell,
};

verus! {

/// A solution holds, in a cell, no digit that stands elsewhere in a unit of
/// that cell.
proof fn lemma_solution_avoids_unit_digits(s: Seq<u8>, g: Seq<u8>, c: int, u: int)
    requires
        well_formed(g),
        is_solution(s, g),
        0 <= c < 81,
        g[c] == 0,
        in_unit(u, c),
    ensures
        !unit_digits(g, u).contains(s[c] as int),
{
    lemma_cell_units(u, c);
    let d = s[c];
    if unit_digits(g, u).contains(d as int) {
        let k = choose|k: int| 0 <= k < 9 && #[trigger] unit_value(g, u, k) == d;
        lemma_unit_cell(u, k);
        let at = position_in(u, c);
        assert(unit_value(s, u, k) == d);
        assert(unit_value(s, u, at) == d);
        assert(unit_free_of_duplicates(s, u));
    }
}

/// In every cell a solution holds one of the cell's candidates.
pub proof fn lemma_solution_among_candidates(s: Seq<u8>, base: Seq<u8>, cur: Seq<u8>, c: int)
    requires
        well_formed(base),
        well_formed(cur),
        extends(cur, base),
        is_solution(s, cur),
        0 <= c < 81,
    ensures
        candidates(base, cur, c).contains(s[c] as int),
{
    if cur[c] == 0 {
        lemma_extends_transitive(s, cur, base);
        lemma_solution_avoids_unit_digits(s, base, c, row_unit(c));
        lemma_solution_avoids_unit_digits(s, base, c, column_unit(c));
        lemma_solution_avoids_unit_digits(s, base, c, box_unit(c));
    }
}

/// Every solution of a board is a solution of the board with its naked
/// singles committed.
pub proof fn lemma_naked_singles_sound(s: Seq<u8>, g: Seq<u8>)
    requires
        well_formed(g),
        is_solution(s, g),
    ensures
        is_solution(s, naked_singles(g)),
{
    let h = naked_singles(g);
    assert forall|c: int| 0 <= c < 81 && #[trigger] h[c] != 0 implies s[c] == h[c] by {
        if g[c] == 0 {
            lemma_solution_among_candidates(s, g, g, c);
            lemma_digit_set_finite(open_digits(g, c));
            lemma_single_digit(open_digits(g, c), s[c] as int);
        }
    }
}

/// Every solution of a board holds a hidden single in its place.
pub proof fn lemma_hidden_single_sound(s: Seq<u8>, base: Seq<u8>, cur: Seq<u8>, u: int, n: int)
    requires
        well_formed(base),
        well_formed(cur),
        extends(cur, base),
        is_solution(s, cur),
        0 <= u < 27,
        1 <= n <= 9,
    ensures
        is_solution(s, hidden_single(base, cur, u, n)),
{
    if exists|k: int| hidden_single_at(base, cur, u, n, k) {
        let k = choose|k: int| hidden_single_at(base, cur, u, n, k);
        let at = lemma_full_unit_holds_every_digit(s, u, n);
        lemma_unit_cell(u, at);
        lemma_unit_cell(u, k);
        lemma_solution_among_candidates(s, base, cur, unit_cell(u, at));
        assert(fits_at(base, cur, u, n, at));
        assert(at == k);
    }
}

/// Every solution of a board survives the searches for hidden singles.
pub proof fn lemma_hidden_singles_sound(s: Seq<u8>, base: Seq<u8>, cur: Seq<u8>, steps: nat)
    requires
        well_formed(base),
        well_formed(cur),
        extends(cur, base),
        is_solution(s, cur),
        steps <= scan_length(),
    ensures
        is_solution(s, hidden_singles(base, cur, steps)),
    decreases steps,
{
    if steps > 0 {
        let before = hidden_singles(base, cur, (steps - 1) as nat);
        lemma_hidden_singles_sound(s, base, cur, (steps - 1) as nat);
        lemma_hidden_singles_grow(base, cur, (steps - 1) as nat);
        lemma_extends_transitive(before, cur, base);
        lemma_scan_in_range(steps - 1);
        lemma_hidden_single_sound(s, base, before, scan_unit(steps - 1), scan_digit(steps - 1));
    }
}

/// Every solution of a board is a solution of the board after one pass.
pub proof fn lemma_pass_sound(s: Seq<u8>, g: Seq<u8>)
    requires
        well_formed(g),
        is_solution(s, g),
    ensures
        is_solution(s, pass(g)),
{
    lemma_naked_singles_sound(s, g);
    lemma_naked_singles_grow(g);
    lemma_hidden_singles_sound(s, g, naked_singles(g), scan_length());
}

/// Every solution of a board is a solution of the propagated board.
pub proof fn lemma_propagated_sound(s: Seq<u8>, g: Seq<u8>)
    requires
        well_formed(g),
        is_solution(s, g),
    ensures
        is_solution(s, propagated(g)),
    decreases empty_cells(g).len(),
{
    if pass(g) != g {
        lemma_pass_grows(g);
        lemma_pass_sound(s, g);
        lemma_fewer_empty_cells(g, pass(g));
        lemma_propagated_sound(s, pass(g));
    }
}

/// On a board that has a solution propagation places no digit twice in a
/// unit, and leaves a board that has a solution.
pub proof fn lemma_propagated_valid(g: Seq<u8>)
    requires
        well_formed(g),
        solvable(g),
    ensures
        valid(propagated(g)),
        solvable(propagated(g)),
{
    let s = choose|s: Seq<u8>| is_solution(s, g);
    lemma_propagated_sound(s, g);
    lemma_propagated_grows(g);
    lemma_valid_of_extension(s, propagated(g));
}

/// Propagation neither loses a solution nor admits a new one.
pub proof fn lemma_propagation_keeps_solutions(s: Seq<u8>, g: Seq<u8>)
    requires
        well_formed(g),
    ensures
        is_solution(s, propagated(g)) <==> is_solution(s, g),
{
    lemma_propagated_grows(g);
    if is_solution(s, g) {
        lemma_propagated_sound(s, g);
    }
    if is_solution(s, propagated(g)) {
        lemma_extends_transitive(s, propagated(g), g);
    }
}

} // verus!
