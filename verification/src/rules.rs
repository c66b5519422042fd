//! The rules of the puzzle, stated over a board as a sequence of 81 cells in
//! row-major order. A cell holds a digit from 1 to 9, or 0 while it is empty.

use vstd::prelude::*;
use crate::possibility::{all_digits, lemma_all_digits};
use crate::units::{lemma_unit_cell, unit_cell};

verus! {

/// A board has 81 cells, each empty or a digit.
pub open spec fn well_formed(g: Seq<u8>) -> bool {
    &&& g.len() == 81
    &&& forall|c: int| 0 <= c < 81 ==> #[trigger] g[c] <= 9
}

/// What stands at position `k` of unit `u`.
pub open spec fn unit_value(g: Seq<u8>, u: int, k: int) -> u8 {
    g[unit_cell(u, k)]
}

/// No digit stands twice in unit `u`. Empty cells do not count.
pub open spec fn unit_free_of_duplicates(g: Seq<u8>, u: int) -> bool {
    forall|i: int, j: int|
        0 <= i < 9 && 0 <= j < 9 && i != j && #[trigger] unit_value(g, u, i) != 0
            ==> unit_value(g, u, i) != #[trigger] unit_value(g, u, j)
}

/// No digit stands twice in any row, column or box.
pub open spec fn valid(g: Seq<u8>) -> bool {
    forall|u: int| 0 <= u < 27 ==> #[trigger] unit_free_of_duplicates(g, u)
}

/// No cell is empty.
pub open spec fn complete(g: Seq<u8>) -> bool {
    forall|c: int| 0 <= c < 81 ==> #[trigger] g[c] != 0
}

/// `s` keeps every digit that `g` has placed.
pub open spec fn extends(s: Seq<u8>, g: Seq<u8>) -> bool {
    forall|c: int| 0 <= c < 81 && #[trigger] g[c] != 0 ==> s[c] == g[c]
}

/// `s` is a full, valid board that keeps the digits of `g`.
pub open spec fn is_solution(s: Seq<u8>, g: Seq<u8>) -> bool {
    &&& well_formed(s)
    &&& complete(s)
    &&& valid(s)
    &&& extends(s, g)
}

/// Whether any full, valid board keeps the digits of `g`.
pub open spec fn solvable(g: Seq<u8>) -> bool {
    exists|s: Seq<u8>| is_solution(s, g)
}

/// A board whose digits all stand in a board without duplicates has no
/// duplicates either: what is valid stays valid when digits are taken away.
pub proof fn lemma_valid_of_extension(s: Seq<u8>, g: Seq<u8>)
    requires
        valid(s),
        extends(s, g),
    ensures
        valid(g),
{
    assert forall|u: int| 0 <= u < 27 implies #[trigger] unit_free_of_duplicates(g, u) by {
        assert(unit_free_of_duplicates(s, u));
        assert forall|i: int, j: int|
            0 <= i < 9 && 0 <= j < 9 && i != j && #[trigger] unit_value(g, u, i) != 0
                implies unit_value(g, u, i) != #[trigger] unit_value(g, u, j) by {
            lemma_unit_cell(u, i);
            lemma_unit_cell(u, j);
            if unit_value(g, u, i) == unit_value(g, u, j) {
                assert(unit_value(s, u, i) == unit_value(g, u, i));
                assert(unit_value(s, u, j) == unit_value(g, u, j));
            }
        }
    }
}

/// A board that holds a digit twice in some unit has no solution.
pub proof fn lemma_duplicates_have_no_solution(g: Seq<u8>)
    requires
        !valid(g),
    ensures
        !solvable(g),
{
    if solvable(g) {
        let s = choose|s: Seq<u8>| is_solution(s, g);
        lemma_valid_of_extension(s, g);
    }
}

/// Keeping digits is transitive.
pub proof fn lemma_extends_transitive(a: Seq<u8>, b: Seq<u8>, c: Seq<u8>)
    requires
        extends(a, b),
        extends(b, c),
    ensures
        extends(a, c),
{
}

/// A unit that is full and holds no digit twice holds every digit.
pub proof fn lemma_full_unit_holds_every_digit(s: Seq<u8>, u: int, n: int) -> (k: int)
    requires
        well_formed(s),
        complete(s),
        unit_free_of_duplicates(s, u),
        0 <= u < 27,
        1 <= n <= 9,
    ensures
        0 <= k < 9,
        unit_value(s, u, k) == n,
{
    let positions = vstd::set_lib::set_int_range(0, 9);
    let value = |k: int| unit_value(s, u, k) as int;
    let values = positions.map(value);
    vstd::set_lib::lemma_int_range(0, 9);
    lemma_all_digits();
    assert(vstd::relations::injective_on(value, positions)) by {
        assert forall|i: int, j: int|
            positions.contains(i) && positions.contains(j) && #[trigger] value(i)
                == #[trigger] value(j) implies i == j by {
            lemma_unit_cell(u, i);
            if i != j {
                assert(unit_value(s, u, i) != unit_value(s, u, j));
            }
        }
    }
    vstd::set_lib::lemma_map_size(positions, values, value);
    assert(values.subset_of(all_digits())) by {
        assert forall|d: int| values.contains(d) implies all_digits().contains(d) by {
            let k = choose|k: int| positions.contains(k) && d == value(k);
            lemma_unit_cell(u, k);
        }
    }
    vstd::set_lib::lemma_subset_equality(values, all_digits());
    assert(values.contains(n));
    let k = choose|k: int| positions.contains(k) && n == value(k);
    k
}

/// Two boards that keep each other's digits are the same board.
pub proof fn lemma_extends_antisymmetric(a: Seq<u8>, b: Seq<u8>)
    requires
        a.len() == 81,
        b.len() == 81,
        extends(a, b),
        extends(b, a),
    ensures
        a == b,
{
    assert(a =~= b);
}

} // verus!
