//! What holds of the engine as a whole: how propagation and search relate,
//! what a propagated board looks like, and what the validity check ignores.

use vstd::prelude::*;
use crate::propagation::{
    fits_at, hidden_single, hidden_single_at, hidden_singles, lemma_hidden_single_grows,
    lemma_hidden_singles_grow, lemma_last_open_digit, lemma_naked_singles_grow,
    lemma_propagated_grows, lemma_scan_in_range, lemma_seen_grows, naked_singles, open_digits,
    pass, propagated, scan_digit, scan_length, scan_unit,
};
use crate::rules::{
    is_solution, lemma_extends_antisymmetric, solvable, unit_free_of_duplicates, unit_value,
    valid, well_formed,
};
use crate::search::{is_first_solution, lemma_first_solution_unique, search_result};
use crate::soundness::{
    lemma_hidden_single_sound, lemma_propagated_sound, lemma_propagation_keeps_solutions,
    lemma_solution_among_candidates,
};
use crate::units::{in_unit, lemma_unit_cell, unit_cell};

verus! {

/// Searching the propagated board finds exactly what searching the given
/// board finds: the same solution, or none. Propagation only spares the
/// search work.
pub proof fn lemma_search_after_propagation(g: Seq<u8>)
    requires
        well_formed(g),
    ensures
        search_result(propagated(g)) == search_result(g),
{
    let p = propagated(g);
    assert forall|s: Seq<u8>| #[trigger] is_solution(s, p) == is_solution(s, g) by {
        lemma_propagation_keeps_solutions(s, g);
    }
    assert(forall|s: Seq<u8>| is_first_solution(s, p) == is_first_solution(s, g));
    if exists|s: Seq<u8>| is_first_solution(s, g) {
        let s = choose|s: Seq<u8>| is_first_solution(s, g);
        lemma_first_solution_unique(s, g);
        lemma_first_solution_unique(s, p);
    }
}

/// Propagating a propagated board changes nothing.
pub proof fn lemma_propagation_idempotent(g: Seq<u8>)
    requires
        well_formed(g),
    ensures
        propagated(propagated(g)) == propagated(g),
{
    lemma_propagated_grows(g);
}

/// An empty cell that elimination leaves exactly one digit ends up with that
/// digit.
pub proof fn lemma_naked_single_is_filled(g: Seq<u8>, c: int)
    requires
        well_formed(g),
        0 <= c < 81,
        g[c] == 0,
        open_digits(g, c).len() == 1,
    ensures
        propagated(g)[c] == open_digits(g, c).choose(),
{
    let d = open_digits(g, c).choose();
    lemma_last_open_digit(g, c);
    lemma_naked_singles_grow(g);
    lemma_hidden_singles_grow(g, naked_singles(g), scan_length());
    assert(naked_singles(g)[c] == d);
    assert(pass(g)[c] == d);
    lemma_propagated_grows(pass(g));
}

/// On a board that has a solution, a digit that fits into exactly one cell of
/// a unit, an empty one, ends up in that cell.
pub proof fn lemma_hidden_single_is_filled(g: Seq<u8>, u: int, n: int, k: int)
    requires
        well_formed(g),
        solvable(g),
        0 <= u < 27,
        1 <= n <= 9,
        hidden_single_at(g, g, u, n, k),
    ensures
        propagated(g)[unit_cell(u, k)] == n,
{
    let r = propagated(g);
    let c = unit_cell(u, k);
    let s = choose|s: Seq<u8>| is_solution(s, g);
    lemma_unit_cell(u, k);
    lemma_propagated_grows(g);
    lemma_propagated_sound(s, g);
    assert(s[c] == n) by {
        lemma_hidden_single_sound(s, g, g, u, n);
        let at = choose|at: int| hidden_single_at(g, g, u, n, at);
        assert(at == k) by {
            if at != k {
                assert(!fits_at(g, g, u, n, at));
            }
        }
        assert(hidden_single(g, g, u, n)[c] == n);
    }
    if r[c] == 0 {
        lemma_solution_among_candidates(s, r, r, c);
        assert forall|j: int| 0 <= j < 9 && j != k implies !#[trigger] fits_at(r, r, u, n, j) by {
            let other = unit_cell(u, j);
            lemma_unit_cell(u, j);
            if r[other] != 0 {
                assert(unit_value(s, u, j) == r[other]);
                assert(unit_value(s, u, k) == n);
                assert(unit_free_of_duplicates(s, u));
            } else {
                lemma_seen_grows(g, r, other);
                assert(!fits_at(g, g, u, n, j));
            }
        }
        assert(hidden_single_at(r, r, u, n, k));
        lemma_nothing_forced_remains(g);
    }
}

/// The place of the search for digit `n` in unit `u` within a pass.
pub open spec fn scan_index(u: int, n: int) -> int {
    if u < 9 {
        18 * u + 2 * (n - 1)
    } else if u < 18 {
        18 * (u - 9) + 2 * (n - 1) + 1
    } else {
        162 + 9 * (u - 18) + (n - 1)
    }
}

/// A pass searches every unit for every digit.
pub proof fn lemma_scan_covers(u: int, n: int)
    requires
        0 <= u < 27,
        1 <= n <= 9,
    ensures
        0 <= scan_index(u, n) < scan_length(),
        scan_unit(scan_index(u, n)) == u,
        scan_digit(scan_index(u, n)) == n,
{
}

/// If the searches for hidden singles leave a board as it was, each of them
/// did.
proof fn lemma_hidden_singles_idle(base: Seq<u8>, cur: Seq<u8>, steps: nat, i: nat)
    requires
        well_formed(cur),
        i <= steps <= scan_length(),
        hidden_singles(base, cur, steps) == cur,
    ensures
        hidden_singles(base, cur, i) == cur,
    decreases steps - i,
{
    if i < steps {
        let before = hidden_singles(base, cur, (steps - 1) as nat);
        lemma_hidden_singles_grow(base, cur, (steps - 1) as nat);
        lemma_scan_in_range(steps - 1);
        lemma_hidden_single_grows(base, before, scan_unit(steps - 1), scan_digit(steps - 1));
        lemma_extends_antisymmetric(before, cur);
        lemma_hidden_singles_idle(base, cur, (steps - 1) as nat, i);
    }
}

/// No forced cell remains on a propagated board: no empty cell has exactly
/// one digit left after elimination, and no unit has a digit that fits into
/// exactly one of its cells while that cell is empty.
pub proof fn lemma_nothing_forced_remains(g: Seq<u8>)
    requires
        well_formed(g),
    ensures
        forall|c: int|
            0 <= c < 81 && propagated(g)[c] == 0 ==> #[trigger] open_digits(propagated(g), c).len()
                != 1,
        forall|u: int, n: int, k: int|
            0 <= u < 27 && 1 <= n <= 9 ==> !#[trigger] hidden_single_at(
                propagated(g),
                propagated(g),
                u,
                n,
                k,
            ),
{
    let r = propagated(g);
    lemma_propagated_grows(g);
    lemma_naked_singles_grow(r);
    lemma_hidden_singles_grow(r, naked_singles(r), scan_length());
    lemma_extends_antisymmetric(naked_singles(r), r);
    assert forall|c: int| 0 <= c < 81 && r[c] == 0 implies #[trigger] open_digits(r, c).len()
        != 1 by {
        assert(naked_singles(r)[c] == 0);
        if open_digits(r, c).len() == 1 {
            lemma_last_open_digit(r, c);
        }
    }
    assert forall|u: int, n: int, k: int|
        0 <= u < 27 && 1 <= n <= 9 implies !#[trigger] hidden_single_at(r, r, u, n, k) by {
        let i = scan_index(u, n);
        lemma_scan_covers(u, n);
        lemma_hidden_singles_idle(r, r, scan_length(), i as nat);
        lemma_hidden_singles_idle(r, r, scan_length(), (i + 1) as nat);
        assert(hidden_single(r, r, u, n) == r);
        if hidden_single_at(r, r, u, n, k) {
            let at = choose|at: int| hidden_single_at(r, r, u, n, at);
            lemma_unit_cell(u, at);
            assert(hidden_single(r, r, u, n)[unit_cell(u, at)] == n);
        }
    }
}

/// `p` lists the nine positions of a unit in some order, none of them twice.
pub open spec fn is_rearrangement(p: Seq<int>) -> bool {
    &&& p.len() == 9
    &&& forall|k: int| 0 <= k < 9 ==> 0 <= #[trigger] p[k] < 9
    &&& forall|i: int, j: int|
        0 <= i < 9 && 0 <= j < 9 && i != j ==> #[trigger] p[i] != #[trigger] p[j]
}

/// `h` is the board `g` with the contents of unit `u` rearranged by `p`:
/// position `k` of the unit now holds what position `p[k]` held.
pub open spec fn rearranged_in_unit(g: Seq<u8>, h: Seq<u8>, u: int, p: Seq<int>) -> bool {
    &&& g.len() == 81
    &&& h.len() == 81
    &&& is_rearrangement(p)
    &&& forall|k: int| 0 <= k < 9 ==> #[trigger] unit_value(h, u, k) == unit_value(g, u, p[k])
    &&& forall|c: int| 0 <= c < 81 && !in_unit(u, c) ==> #[trigger] h[c] == g[c]
}

/// No unit other than `u` holds a digit twice.
pub open spec fn other_units_free_of_duplicates(g: Seq<u8>, u: int) -> bool {
    forall|v: int| 0 <= v < 27 && v != u ==> #[trigger] unit_free_of_duplicates(g, v)
}

/// A rearrangement reaches every position.
proof fn lemma_rearrangement_onto(p: Seq<int>, k: int) -> (i: int)
    requires
        is_rearrangement(p),
        0 <= k < 9,
    ensures
        0 <= i < 9,
        p[i] == k,
{
    let positions = vstd::set_lib::set_int_range(0, 9);
    let target = |i: int| p[i];
    let reached = positions.map(target);
    vstd::set_lib::lemma_int_range(0, 9);
    assert(vstd::relations::injective_on(target, positions));
    vstd::set_lib::lemma_map_size(positions, reached, target);
    assert(reached.subset_of(positions));
    vstd::set_lib::lemma_subset_equality(reached, positions);
    assert(reached.contains(k));
    choose|i: int| positions.contains(i) && k == target(i)
}

/// Whether a unit holds a digit twice does not depend on the order of its
/// cells: rearranging them leaves the answer as it was.
pub proof fn lemma_unit_check_ignores_order(g: Seq<u8>, h: Seq<u8>, u: int, p: Seq<int>)
    requires
        0 <= u < 27,
        rearranged_in_unit(g, h, u, p),
    ensures
        unit_free_of_duplicates(h, u) == unit_free_of_duplicates(g, u),
{
    if unit_free_of_duplicates(g, u) {
        assert forall|i: int, j: int|
            0 <= i < 9 && 0 <= j < 9 && i != j && #[trigger] unit_value(h, u, i) != 0
                implies unit_value(h, u, i) != #[trigger] unit_value(h, u, j) by {
            assert(unit_value(h, u, i) == unit_value(g, u, p[i]));
            assert(unit_value(h, u, j) == unit_value(g, u, p[j]));
            assert(p[i] != p[j]);
        }
    }
    if unit_free_of_duplicates(h, u) {
        assert forall|i: int, j: int|
            0 <= i < 9 && 0 <= j < 9 && i != j && #[trigger] unit_value(g, u, i) != 0
                implies unit_value(g, u, i) != #[trigger] unit_value(g, u, j) by {
            let a = lemma_rearrangement_onto(p, i);
            let b = lemma_rearrangement_onto(p, j);
            assert(unit_value(h, u, a) == unit_value(g, u, p[a]));
            assert(unit_value(h, u, b) == unit_value(g, u, p[b]));
        }
    }
}

/// Rearranging the cells of one unit leaves the validity of the board as it
/// was, as long as the rearrangement does not change whether the units that
/// cross it hold a digit twice.
pub proof fn lemma_validity_ignores_order(g: Seq<u8>, h: Seq<u8>, u: int, p: Seq<int>)
    requires
        0 <= u < 27,
        rearranged_in_unit(g, h, u, p),
        unit_free_of_duplicates(g, u) ==> other_units_free_of_duplicates(g, u)
            == other_units_free_of_duplicates(h, u),
    ensures
        valid(h) == valid(g),
{
    lemma_unit_check_ignores_order(g, h, u, p);
}

} // verus!
