//! The propagation engine: a candidate set for every cell, struck and
//! committed pass after pass, and proved to compute the propagated board.

use vstd::prelude::*;
use crate::board::Sudoku;
use crate::possibility::{all_digits, Candidates, SudokuPossibility};
use crate::propagation::{
    candidates, empty_cells, fits_at, hidden_single, hidden_single_at, hidden_singles,
    lemma_fewer_empty_cells, lemma_naked_singles_grow, lemma_propagated_grows, lemma_seen_grows,
    naked_singles, open_digits, pass, propagated, scan_length, unit_digits,
};
use crate::rules::{extends, lemma_extends_antisymmetric, unit_value, well_formed};
use crate::units::{
    box_unit, column_unit, in_unit, lemma_cell_units, lemma_unit_cell, position_in, row_unit,
    unit_cell, unit_cell_index,
};

verus! {

/// The digits of unit `v` if it is among the first `m` units, else nothing.
spec fn unit_digits_below(g: Seq<u8>, v: int, m: int) -> Set<int> {
    if v < m {
        unit_digits(g, v)
    } else {
        Set::empty()
    }
}

/// What cell `c` sees in those of its units that are among the first `m`.
spec fn seen_below(g: Seq<u8>, c: int, m: int) -> Set<int> {
    unit_digits_below(g, row_unit(c), m) + unit_digits_below(g, column_unit(c), m)
        + unit_digits_below(g, box_unit(c), m)
}

/// How far elimination has come for cell `c`, when the units before `u` are
/// done and unit `u` up to position `k`.
spec fn units_done(u: int, k: int, c: int) -> int {
    if in_unit(u, c) && position_in(u, c) < k {
        u + 1
    } else {
        u
    }
}

/// The candidate array in the middle of an elimination sweep over `cur`,
/// begun from what elimination on `base` had left.
spec fn eliminated(
    cands: Seq<SudokuPossibility>,
    base: Seq<u8>,
    cur: Seq<u8>,
    u: int,
    k: int,
) -> bool {
    &&& cands.len() == 81
    &&& forall|c: int|
        0 <= c < 81 ==> {
            &&& (#[trigger] cands[c])@.solved == (cur[c] != 0)
            &&& cands[c]@.digits == if cur[c] != 0 {
                set![cur[c] as int]
            } else {
                open_digits(base, c).difference(seen_below(cur, c, units_done(u, k, c)))
            }
        }
}

/// The candidate array agrees with the pass from `base` to `cur`.
spec fn tracks(cands: Seq<SudokuPossibility>, base: Seq<u8>, cur: Seq<u8>) -> bool {
    &&& cands.len() == 81
    &&& forall|c: int|
        0 <= c < 81 ==> {
            &&& (#[trigger] cands[c])@.solved == (cur[c] != 0)
            &&& cands[c]@.digits == candidates(base, cur, c)
        }
}

/// Strikes the digits placed in unit `u` from the candidates of its empty
/// cells.
fn eliminate_in_unit(
    cands: &mut [SudokuPossibility; 81],
    u: usize,
    Ghost(base): Ghost<Seq<u8>>,
    Ghost(cur): Ghost<Seq<u8>>,
)
    requires
        u < 27,
        well_formed(cur),
        eliminated(old(cands)@, base, cur, u as int, 0),
    ensures
        eliminated(final(cands)@, base, cur, u as int, 9),
{
    let mut remaining = SudokuPossibility::new_all();
    let mut k: usize = 0;
    while k < 9
        invariant
            k <= 9,
            u < 27,
            well_formed(cur),
            eliminated(cands@, base, cur, u as int, 0),
            !remaining@.solved,
            forall|d: int|
                remaining@.digits.contains(d) <==> (1 <= d <= 9 && forall|j: int|
                    0 <= j < k ==> #[trigger] unit_value(cur, u as int, j) != d),
        decreases 9 - k,
    {
        let cell = unit_cell_index(u, k);
        assert(cur[cell as int] == unit_value(cur, u as int, k as int));
        if cands[cell].is_solved() {
            let digit = cands[cell].get();
            assert(digit == cur[cell as int]);
            remaining = remaining.removed(digit);
        }
        k += 1;
    }
    k = 0;
    while k < 9
        invariant
            k <= 9,
            u < 27,
            well_formed(cur),
            eliminated(cands@, base, cur, u as int, k as int),
            !remaining@.solved,
            remaining@.digits == all_digits().difference(unit_digits(cur, u as int)),
        decreases 9 - k,
    {
        let cell = unit_cell_index(u, k);
        if !cands[cell].is_solved() {
            cands[cell] = cands[cell].and(&remaining);
        }
        proof {
            lemma_unit_cell(u as int, k as int);
            assert forall|c: int| 0 <= c < 81 && cur[c] == 0 implies (#[trigger] cands@[c])@.digits
                == open_digits(base, c).difference(
                seen_below(cur, c, units_done(u as int, k + 1, c)),
            ) by {
                if c == cell {
                    assert(cands@[c]@.digits =~= open_digits(base, c).difference(
                        seen_below(cur, c, u + 1),
                    ));
                } else if in_unit(u as int, c) {
                    lemma_cell_units(u as int, c);
                }
            }
        }
        k += 1;
    }
}

/// One sweep of elimination over all units.
fn eliminate(
    cands: &mut [SudokuPossibility; 81],
    Ghost(base): Ghost<Seq<u8>>,
    Ghost(cur): Ghost<Seq<u8>>,
)
    requires
        well_formed(cur),
        extends(cur, base),
        tracks(old(cands)@, base, cur),
    ensures
        tracks(final(cands)@, cur, cur),
{
    proof {
        assert forall|c: int| 0 <= c < 81 implies open_digits(base, c) == open_digits(
            base,
            c,
        ).difference(seen_below(cur, c, units_done(0, 0, c))) by {
            assert(open_digits(base, c) =~= open_digits(base, c).difference(Set::empty()));
        }
    }
    let mut u: usize = 0;
    while u < 27
        invariant
            u <= 27,
            well_formed(cur),
            eliminated(cands@, base, cur, u as int, 0),
        decreases 27 - u,
    {
        eliminate_in_unit(cands, u, Ghost(base), Ghost(cur));
        assert(forall|c: int|
            0 <= c < 81 ==> seen_below(cur, c, units_done(u as int, 9, c)) == seen_below(
                cur,
                c,
                units_done(u + 1, 0, c),
            ));
        u += 1;
    }
    proof {
        assert forall|c: int| 0 <= c < 81 implies open_digits(base, c).difference(
            seen_below(cur, c, units_done(27, 0, c)),
        ) == open_digits(cur, c) by {
            lemma_seen_grows(base, cur, c);
        }
    }
}

/// Commits every empty cell that has exactly one candidate left.
fn commit_naked_singles(data: &mut [u8; 81], cands: &mut [SudokuPossibility; 81]) -> (changed:
    bool)
    requires
        well_formed(old(data)@),
        tracks(old(cands)@, old(data)@, old(data)@),
    ensures
        final(data)@ == naked_singles(old(data)@),
        tracks(final(cands)@, old(data)@, final(data)@),
        changed == (final(data)@ != old(data)@),
{
    let ghost base = data@;
    let mut changed = false;
    let mut c: usize = 0;
    while c < 81
        invariant
            c <= 81,
            well_formed(base),
            data@.len() == 81,
            forall|j: int| 0 <= j < c ==> data@[j] == #[trigger] naked_singles(base)[j],
            forall|j: int| c <= j < 81 ==> #[trigger] data@[j] == base[j],
            tracks(cands@, base, data@),
            changed == (data@ != base),
        decreases 81 - c,
    {
        if !cands[c].is_solved() && cands[c].count() == 1 {
            data[c] = cands[c].get();
            cands[c] = cands[c].marked_solved();
            changed = true;
        }
        c += 1;
    }
    changed
}

/// Looks for a hidden single of digit `n` in unit `u` and commits it.
fn commit_hidden_single(
    data: &mut [u8; 81],
    cands: &mut [SudokuPossibility; 81],
    u: usize,
    n: u8,
    Ghost(base): Ghost<Seq<u8>>,
) -> (changed: bool)
    requires
        u < 27,
        1 <= n <= 9,
        well_formed(old(data)@),
        tracks(old(cands)@, base, old(data)@),
    ensures
        final(data)@ == hidden_single(base, old(data)@, u as int, n as int),
        tracks(final(cands)@, base, final(data)@),
        changed == (final(data)@ != old(data)@),
        well_formed(final(data)@),
        extends(final(data)@, old(data)@),
{
    let ghost cur = data@;
    let mut last: Option<usize> = None;
    let mut k: usize = 0;
    while k < 9
        invariant
            k <= 9,
            u < 27,
            1 <= n <= 9,
            data@ == cur,
            well_formed(cur),
            tracks(cands@, base, cur),
            match last {
                Some(p) => {
                    &&& p < k
                    &&& fits_at(base, cur, u as int, n as int, p as int)
                    &&& cur[unit_cell(u as int, p as int)] == 0
                },
                None => true,
            },
            forall|j: int|
                0 <= j < k && last != Some(j as usize) ==> !#[trigger] fits_at(
                    base,
                    cur,
                    u as int,
                    n as int,
                    j,
                ),
        decreases 9 - k,
    {
        let cell = unit_cell_index(u, k);
        if cands[cell].contains(n) {
            if last.is_some() || cands[cell].is_solved() {
                proof {
                    assert forall|i: int| !hidden_single_at(base, cur, u as int, n as int, i) by {
                        if hidden_single_at(base, cur, u as int, n as int, i) {
                            if i != k {
                                assert(!fits_at(base, cur, u as int, n as int, k as int));
                            }
                        }
                    }
                }
                return false;
            }
            last = Some(k);
        }
        k += 1;
    }
    match last {
        Some(p) => {
            let cell = unit_cell_index(u, p);
            data[cell] = n;
            cands[cell] = SudokuPossibility::new().added(n).marked_solved();
            proof {
                assert(hidden_single_at(base, cur, u as int, n as int, p as int));
                let q = choose|q: int| hidden_single_at(base, cur, u as int, n as int, q);
                assert(q == p);
            }
            true
        },
        None => false,
    }
}

/// Whether a run of steps changed the board, from whether its last step did.
proof fn lemma_changed_so_far(start: Seq<u8>, before: Seq<u8>, after: Seq<u8>)
    requires
        start.len() == 81,
        before.len() == 81,
        after.len() == 81,
        extends(before, start),
        extends(after, before),
    ensures
        extends(after, start),
        (after != start) == (before != start || after != before),
{
    if after == start {
        lemma_extends_antisymmetric(before, start);
    }
}

/// Runs all the searches for hidden singles of one pass.
fn commit_hidden_singles(
    data: &mut [u8; 81],
    cands: &mut [SudokuPossibility; 81],
    Ghost(base): Ghost<Seq<u8>>,
) -> (changed: bool)
    requires
        well_formed(old(data)@),
        tracks(old(cands)@, base, old(data)@),
    ensures
        final(data)@ == hidden_singles(base, old(data)@, scan_length()),
        tracks(final(cands)@, base, final(data)@),
        changed == (final(data)@ != old(data)@),
        well_formed(final(data)@),
        extends(final(data)@, old(data)@),
{
    let ghost start = data@;
    let mut changed = false;
    let mut z: usize = 0;
    while z < 9
        invariant
            z <= 9,
            well_formed(start),
            well_formed(data@),
            extends(data@, start),
            tracks(cands@, base, data@),
            data@ == hidden_singles(base, start, (18 * z) as nat),
            changed == (data@ != start),
        decreases 9 - z,
    {
        let mut n: u8 = 1;
        while n <= 9
            invariant
                z < 9,
                1 <= n <= 10,
                well_formed(start),
                well_formed(data@),
                extends(data@, start),
                tracks(cands@, base, data@),
                data@ == hidden_singles(base, start, (18 * z + 2 * (n - 1)) as nat),
                changed == (data@ != start),
            decreases 10 - n,
        {
            let ghost i = 18 * z + 2 * (n - 1);
            let ghost before_row = data@;
            let in_row = commit_hidden_single(data, cands, z, n, Ghost(base));
            let ghost before_column = data@;
            let in_column = commit_hidden_single(data, cands, 9 + z, n, Ghost(base));
            proof {
                assert(before_column == hidden_singles(base, start, (i + 1) as nat));
                lemma_changed_so_far(start, before_row, before_column);
                lemma_changed_so_far(start, before_column, data@);
            }
            changed = changed || in_row || in_column;
            n += 1;
        }
        z += 1;
    }
    let mut b: usize = 0;
    while b < 9
        invariant
            b <= 9,
            well_formed(start),
            well_formed(data@),
            extends(data@, start),
            tracks(cands@, base, data@),
            data@ == hidden_singles(base, start, (162 + 9 * b) as nat),
            changed == (data@ != start),
        decreases 9 - b,
    {
        let mut n: u8 = 1;
        while n <= 9
            invariant
                b < 9,
                1 <= n <= 10,
                well_formed(start),
                well_formed(data@),
                extends(data@, start),
                tracks(cands@, base, data@),
                data@ == hidden_singles(base, start, (162 + 9 * b + (n - 1)) as nat),
                changed == (data@ != start),
            decreases 10 - n,
        {
            let ghost before = data@;
            let in_box = commit_hidden_single(data, cands, 18 + b, n, Ghost(base));
            proof {
                lemma_changed_so_far(start, before, data@);
            }
            changed = changed || in_box;
            n += 1;
        }
        b += 1;
    }
    changed
}

/// The board with no digit placed.
spec fn blank_board() -> Seq<u8> {
    Seq::new(81, |c: int| 0u8)
}

/// On the blank board elimination strikes nothing.
proof fn lemma_blank_board_sees_nothing(c: int)
    requires
        0 <= c < 81,
    ensures
        open_digits(blank_board(), c) == all_digits(),
{
    assert forall|v: int, d: int| 0 <= v < 27 implies !unit_digits(blank_board(), v).contains(
        d,
    ) by {
        if unit_digits(blank_board(), v).contains(d) {
            let k = choose|k: int| 0 <= k < 9 && #[trigger] unit_value(blank_board(), v, k) == d;
            lemma_unit_cell(v, k);
        }
    }
}

impl Sudoku {
    /// Fills every cell that elimination, naked singles and hidden singles
    /// force, pass after pass, until a pass changes nothing.
    pub fn guaranteed_completed(&self) -> (r: Sudoku)
        ensures
            r@ == propagated(self@),
            well_formed(r@),
            extends(r@, self@),
            pass(r@) == r@,
    {
        let mut data = self.cells();
        let mut cands = [SudokuPossibility::new(); 81];
        let ghost mut base = blank_board();
        let mut c: usize = 0;
        while c < 81
            invariant
                c <= 81,
                data@ == self@,
                well_formed(data@),
                cands@.len() == 81,
                forall|j: int|
                    0 <= j < c ==> {
                        &&& (#[trigger] cands@[j])@.solved == (data@[j] != 0)
                        &&& cands@[j]@.digits == candidates(base, data@, j)
                    },
                forall|j: int| c <= j < 81 ==> (#[trigger] cands@[j])@ == Candidates::empty(),
                base == blank_board(),
            decreases 81 - c,
        {
            if data[c] == 0 {
                cands[c] = SudokuPossibility::new_all();
                proof {
                    lemma_blank_board_sees_nothing(c as int);
                }
            } else {
                cands[c] = cands[c].added(data[c]).marked_solved();
            }
            c += 1;
        }
        let mut change = true;
        while change
            invariant
                well_formed(self@),
                well_formed(data@),
                extends(data@, base),
                tracks(cands@, base, data@),
                propagated(data@) == propagated(self@),
                !change ==> pass(data@) == data@,
            decreases empty_cells(data@).len() + if change { 1int } else { 0int },
        {
            let ghost before = data@;
            eliminate(&mut cands, Ghost(base), Ghost(data@));
            proof {
                base = data@;
                lemma_naked_singles_grow(before);
            }
            let by_naked = commit_naked_singles(&mut data, &mut cands);
            let ghost between = data@;
            let by_hidden = commit_hidden_singles(&mut data, &mut cands, Ghost(base));
            change = by_naked || by_hidden;
            proof {
                lemma_changed_so_far(before, between, data@);
                if change {
                    lemma_fewer_empty_cells(before, data@);
                }
            }
        }
        proof {
            lemma_propagated_grows(self@);
        }
        Sudoku::from_digits(data)
    }
}

} // verus!
