//! The board, and the check that no unit holds a digit twice.

use vstd::prelude::*;
use crate::possibility::SudokuPossibility;
use crate::rules::{unit_free_of_duplicates, unit_value, valid, well_formed};
use crate::units::unit_cell_index;

verus! {

/// A 9×9 board: 81 cells in row-major order, each a digit or 0 for empty.
#[derive(Clone, Copy, Debug)]
pub struct Sudoku {
    data: [u8; 81],
}

impl View for Sudoku {
    type V = Seq<u8>;

    closed spec fn view(&self) -> Seq<u8> {
        self.data@
    }
}

impl Sudoku {
    /// Every cell is empty or a digit.
    #[verifier::type_invariant]
    pub closed spec fn holds_digits(self) -> bool {
        forall|c: int| 0 <= c < 81 ==> #[trigger] self.data[c] <= 9
    }

    /// The board with these cells, if each of them is at most 9.
    pub fn from_cells(cells: [u8; 81]) -> (r: Option<Sudoku>)
        ensures
            match r {
                Some(s) => s@ == cells@ && well_formed(cells@),
                None => !well_formed(cells@),
            },
    {
        let mut c: usize = 0;
        while c < 81
            invariant
                c <= 81,
                forall|i: int| 0 <= i < c ==> #[trigger] cells[i] <= 9,
            decreases 81 - c,
        {
            if cells[c] > 9 {
                return None;
            }
            c += 1;
        }
        Some(Sudoku { data: cells })
    }

    /// The board with these cells, for cells known to be digits or empty.
    pub(crate) fn from_digits(cells: [u8; 81]) -> (r: Sudoku)
        requires
            well_formed(cells@),
        ensures
            r@ == cells@,
    {
        Sudoku { data: cells }
    }

    /// The 81 cells, row by row.
    pub fn cells(&self) -> (r: [u8; 81])
        ensures
            r@ == self@,
            well_formed(self@),
    {
        proof {
            use_type_invariant(self);
        }
        self.data
    }

    /// Whether no digit stands twice in any row, column or box.
    pub fn check_validity(&self) -> (r: bool)
        ensures
            r == valid(self@),
    {
        proof {
            use_type_invariant(self);
        }
        let mut u: usize = 0;
        while u < 27
            invariant
                u <= 27,
                self.holds_digits(),
                forall|v: int| 0 <= v < u ==> #[trigger] unit_free_of_duplicates(self@, v),
            decreases 27 - u,
        {
            let mut remaining = SudokuPossibility::new_all();
            let mut k: usize = 0;
            while k < 9
                invariant
                    k <= 9,
                    u < 27,
                    self.holds_digits(),
                    forall|d: int|
                        remaining@.digits.contains(d) <==> (1 <= d <= 9 && forall|j: int|
                            0 <= j < k ==> #[trigger] unit_value(self@, u as int, j) != d),
                    forall|i: int, j: int|
                        0 <= i < k && 0 <= j < k && i != j && #[trigger] unit_value(
                            self@,
                            u as int,
                            i,
                        ) != 0 ==> unit_value(self@, u as int, i) != #[trigger] unit_value(
                            self@,
                            u as int,
                            j,
                        ),
                decreases 9 - k,
            {
                let digit = self.data[unit_cell_index(u, k)];
                assert(digit == unit_value(self@, u as int, k as int));
                if digit != 0 {
                    if !remaining.contains(digit) {
                        proof {
                            let j = choose|j: int|
                                0 <= j < k && #[trigger] unit_value(self@, u as int, j) == digit;
                            assert(unit_value(self@, u as int, j) == unit_value(
                                self@,
                                u as int,
                                k as int,
                            ));
                            assert(!unit_free_of_duplicates(self@, u as int));
                        }
                        return false;
                    }
                    remaining = remaining.removed(digit);
                }
                k += 1;
            }
            u += 1;
        }
        true
    }
}

} // verus!
