//! Constraint propagation as mathematics: what one pass over a board does,
//! and the board that repeated passes end with.
//!
//! A pass has three steps. Elimination leaves every empty cell the digits
//! that stand nowhere in its row, column or box. Every empty cell that is
//! left exactly one digit is a naked single and gets that digit. Then every
//! unit is searched for hidden singles: a digit that is a candidate in
//! exactly one cell of the unit is written into that cell if it is empty.
//! Candidates are not struck again within a pass, so the searches work on
//! what elimination left when the pass began.

use vstd::prelude::*;
use crate::possibility::{all_digits, lemma_digit_set_finite, lemma_single_digit};
use crate::rules::{extends, lemma_extends_transitive, unit_value, well_formed};
use crate::units::{box_unit, column_unit, lemma_unit_cell, row_unit, unit_cell};

verus! {

/// The digits placed in unit `u`.
pub open spec fn unit_digits(g: Seq<u8>, u: int) -> Set<int> {
    Set::new(
        |d: int| 1 <= d <= 9 && exists|k: int| 0 <= k < 9 && #[trigger] unit_value(g, u, k) == d,
    )
}

/// The digits placed in the row, the column or the box of cell `c`.
pub open spec fn seen(g: Seq<u8>, c: int) -> Set<int> {
    unit_digits(g, row_unit(c)) + unit_digits(g, column_unit(c)) + unit_digits(g, box_unit(c))
}

/// The digits that elimination leaves for an empty cell `c`: those that
/// stand nowhere in its row, column or box.
pub open spec fn open_digits(g: Seq<u8>, c: int) -> Set<int> {
    all_digits().difference(seen(g, c))
}

/// The candidates of cell `c` in the course of a pass that began on the board
/// `base` and has reached the board `cur`: a filled cell has its digit, an
/// empty one what elimination on `base` left it.
pub open spec fn candidates(base: Seq<u8>, cur: Seq<u8>, c: int) -> Set<int> {
    if cur[c] != 0 {
        set![cur[c] as int]
    } else {
        open_digits(base, c)
    }
}

/// The board after the naked singles of `g` are committed: every empty cell
/// that elimination leaves exactly one digit gets that digit.
pub open spec fn naked_singles(g: Seq<u8>) -> Seq<u8> {
    Seq::new(
        81,
        |c: int|
            if g[c] == 0 && open_digits(g, c).len() == 1 {
                open_digits(g, c).choose() as u8
            } else {
                g[c]
            },
    )
}

/// Whether digit `n` is a candidate at position `k` of unit `u`, in a pass
/// that began on `base` and has reached `cur`.
pub open spec fn fits_at(base: Seq<u8>, cur: Seq<u8>, u: int, n: int, k: int) -> bool {
    candidates(base, cur, unit_cell(u, k)).contains(n)
}

/// Whether position `k` is the only one of unit `u` where `n` is a candidate.
pub open spec fn fits_only_at(base: Seq<u8>, cur: Seq<u8>, u: int, n: int, k: int) -> bool {
    &&& 0 <= k < 9
    &&& fits_at(base, cur, u, n, k)
    &&& forall|j: int| 0 <= j < 9 && j != k ==> !#[trigger] fits_at(base, cur, u, n, j)
}

/// Whether `n` is a hidden single of unit `u` at position `k`: the cell there
/// is empty, and it is the only cell of the unit where `n` is a candidate.
pub open spec fn hidden_single_at(base: Seq<u8>, cur: Seq<u8>, u: int, n: int, k: int) -> bool {
    fits_only_at(base, cur, u, n, k) && cur[unit_cell(u, k)] == 0
}

/// The board after unit `u` is searched for a hidden single of digit `n`, in
/// a pass that began on `base` and has reached `cur`.
pub open spec fn hidden_single(base: Seq<u8>, cur: Seq<u8>, u: int, n: int) -> Seq<u8> {
    if exists|k: int| hidden_single_at(base, cur, u, n, k) {
        let k = choose|k: int| hidden_single_at(base, cur, u, n, k);
        cur.update(unit_cell(u, k), n as u8)
    } else {
        cur
    }
}

/// The number of searches for a hidden single in one pass: each of the 27
/// units with each of the 9 digits.
pub open spec fn scan_length() -> nat {
    243
}

/// The unit of the `i`-th search of a pass. Row 0 and column 0 come first,
/// taking turns for each digit, then row 1 and column 1, and so on; the boxes
/// come last, each with all its digits.
pub open spec fn scan_unit(i: int) -> int {
    if i < 162 {
        if i % 2 == 0 {
            i / 18
        } else {
            9 + i / 18
        }
    } else {
        18 + (i - 162) / 9
    }
}

/// The digit of the `i`-th search of a pass.
pub open spec fn scan_digit(i: int) -> int {
    if i < 162 {
        (i % 18) / 2 + 1
    } else {
        (i - 162) % 9 + 1
    }
}

/// The board after the first `steps` searches for hidden singles, in a pass
/// that began on `base` and came to `cur` by its naked singles.
pub open spec fn hidden_singles(base: Seq<u8>, cur: Seq<u8>, steps: nat) -> Seq<u8>
    decreases steps,
{
    if steps == 0 {
        cur
    } else {
        hidden_single(
            base,
            hidden_singles(base, cur, (steps - 1) as nat),
            scan_unit(steps - 1),
            scan_digit(steps - 1),
        )
    }
}

/// One pass: elimination, then the naked singles, then the hidden singles.
pub open spec fn pass(g: Seq<u8>) -> Seq<u8> {
    hidden_singles(g, naked_singles(g), scan_length())
}

/// The empty cells of a board.
pub open spec fn empty_cells(g: Seq<u8>) -> Set<int> {
    Set::new(|c: int| 0 <= c < 81 && g[c] == 0)
}

/// The board that propagation ends with: passes are repeated until one
/// changes nothing.
pub open spec fn propagated(g: Seq<u8>) -> Seq<u8>
    decreases empty_cells(g).len(),
    when well_formed(g)
    via propagated_terminates
{
    if pass(g) == g {
        g
    } else {
        propagated(pass(g))
    }
}

/// A pass that changes the board fills at least one cell.
#[via_fn]
proof fn propagated_terminates(g: Seq<u8>) {
    if pass(g) != g {
        lemma_pass_grows(g);
        lemma_fewer_empty_cells(g, pass(g));
    }
}

/// What a cell sees can only grow when digits are added to the board.
pub proof fn lemma_seen_grows(base: Seq<u8>, cur: Seq<u8>, c: int)
    requires
        0 <= c < 81,
        extends(cur, base),
    ensures
        seen(base, c).subset_of(seen(cur, c)),
{
    assert forall|v: int, d: int|
        0 <= v < 27 && unit_digits(base, v).contains(d) implies unit_digits(cur, v).contains(d) by {
        let k = choose|k: int| 0 <= k < 9 && #[trigger] unit_value(base, v, k) == d;
        assert(unit_value(cur, v, k) == d);
    }
}

/// The digit of a naked single is a digit.
pub proof fn lemma_last_open_digit(g: Seq<u8>, c: int)
    requires
        open_digits(g, c).len() == 1,
    ensures
        1 <= open_digits(g, c).choose() <= 9,
        open_digits(g, c) == set![open_digits(g, c).choose()],
{
    lemma_digit_set_finite(open_digits(g, c));
    vstd::set::axiom_set_choose_len(open_digits(g, c));
    lemma_single_digit(open_digits(g, c), open_digits(g, c).choose());
}

/// Committing naked singles keeps the board well formed and keeps its digits.
pub proof fn lemma_naked_singles_grow(g: Seq<u8>)
    requires
        well_formed(g),
    ensures
        well_formed(naked_singles(g)),
        extends(naked_singles(g), g),
{
    let h = naked_singles(g);
    assert forall|c: int| 0 <= c < 81 implies #[trigger] h[c] <= 9 by {
        if g[c] == 0 && open_digits(g, c).len() == 1 {
            lemma_last_open_digit(g, c);
        }
    }
}

/// A search for a hidden single keeps the board well formed and keeps its
/// digits.
pub proof fn lemma_hidden_single_grows(base: Seq<u8>, cur: Seq<u8>, u: int, n: int)
    requires
        well_formed(cur),
        0 <= u < 27,
        1 <= n <= 9,
    ensures
        well_formed(hidden_single(base, cur, u, n)),
        extends(hidden_single(base, cur, u, n), cur),
{
    if exists|k: int| hidden_single_at(base, cur, u, n, k) {
        let k = choose|k: int| hidden_single_at(base, cur, u, n, k);
        lemma_unit_cell(u, k);
    }
}

/// The searches of a pass name a unit and a digit each.
pub proof fn lemma_scan_in_range(i: int)
    requires
        0 <= i < scan_length(),
    ensures
        0 <= scan_unit(i) < 27,
        1 <= scan_digit(i) <= 9,
{
}

/// The searches for hidden singles keep the board well formed and keep its
/// digits.
pub proof fn lemma_hidden_singles_grow(base: Seq<u8>, cur: Seq<u8>, steps: nat)
    requires
        well_formed(cur),
        steps <= scan_length(),
    ensures
        well_formed(hidden_singles(base, cur, steps)),
        extends(hidden_singles(base, cur, steps), cur),
    decreases steps,
{
    if steps > 0 {
        let before = hidden_singles(base, cur, (steps - 1) as nat);
        lemma_hidden_singles_grow(base, cur, (steps - 1) as nat);
        lemma_scan_in_range(steps - 1);
        lemma_hidden_single_grows(base, before, scan_unit(steps - 1), scan_digit(steps - 1));
    }
}

/// A pass keeps the board well formed and keeps its digits.
pub proof fn lemma_pass_grows(g: Seq<u8>)
    requires
        well_formed(g),
    ensures
        well_formed(pass(g)),
        extends(pass(g), g),
{
    lemma_naked_singles_grow(g);
    lemma_hidden_singles_grow(g, naked_singles(g), scan_length());
}

/// Propagation ends with a well-formed board that keeps the given digits and
/// that one more pass would leave as it is.
pub proof fn lemma_propagated_grows(g: Seq<u8>)
    requires
        well_formed(g),
    ensures
        well_formed(propagated(g)),
        extends(propagated(g), g),
        pass(propagated(g)) == propagated(g),
    decreases empty_cells(g).len(),
{
    if pass(g) != g {
        lemma_pass_grows(g);
        lemma_fewer_empty_cells(g, pass(g));
        lemma_propagated_grows(pass(g));
        lemma_extends_transitive(propagated(g), pass(g), g);
    }
}

/// A board that keeps the digits of another and differs from it has fewer
/// empty cells.
pub proof fn lemma_fewer_empty_cells(g: Seq<u8>, h: Seq<u8>)
    requires
        well_formed(g),
        well_formed(h),
        extends(h, g),
        h != g,
    ensures
        empty_cells(g).finite(),
        empty_cells(h).len() < empty_cells(g).len(),
{
    vstd::set_lib::lemma_int_range(0, 81);
    let all = vstd::set_lib::set_int_range(0, 81);
    assert(empty_cells(g).subset_of(all));
    vstd::set_lib::lemma_len_subset(empty_cells(g), all);
    assert(!(h =~= g));
    let c = choose|c: int| 0 <= c < 81 && h[c] != g[c];
    assert(g[c] == 0);
    let fewer = empty_cells(g).remove(c);
    assert(empty_cells(h).subset_of(fewer)) by {
        assert forall|x: int| empty_cells(h).contains(x) implies fewer.contains(x) by {
            if g[x] != 0 {
                assert(h[x] == g[x]);
            }
        }
    }
    vstd::set_lib::lemma_len_subset(empty_cells(h), fewer);
}

} // verus!
