//! The per-cell candidate set: which of the digits 1 to 9 are still possible
//! for a cell, and whether the cell has been committed.

use vstd::prelude::*;

verus! {

/// The digits a cell can hold.
pub open spec fn all_digits() -> Set<int> {
    Set::new(|d: int| 1 <= d <= 9)
}

/// What a [`SudokuPossibility`] stands for: a set of digits and a flag.
#[verifier::ext_equal]
pub struct Candidates {
    /// The digits that are still possible.
    pub digits: Set<int>,
    /// Whether the cell was explicitly marked as solved.
    pub solved: bool,
}

impl Candidates {
    /// No digit is possible; not solved.
    pub open spec fn empty() -> Candidates {
        Candidates { digits: Set::empty(), solved: false }
    }

    /// Every digit is possible; not solved.
    pub open spec fn full() -> Candidates {
        Candidates { digits: all_digits(), solved: false }
    }

    /// The digits possible in both sets. The flag survives only if both sets
    /// carry it.
    pub open spec fn intersect(self, other: Candidates) -> Candidates {
        Candidates {
            digits: self.digits.intersect(other.digits),
            solved: self.solved && other.solved,
        }
    }

    pub open spec fn with_added(self, digit: int) -> Candidates {
        Candidates { digits: self.digits.insert(digit), solved: self.solved }
    }

    pub open spec fn with_removed(self, digit: int) -> Candidates {
        Candidates { digits: self.digits.remove(digit), solved: self.solved }
    }

    pub open spec fn contains(self, digit: int) -> bool {
        self.digits.contains(digit)
    }

    pub open spec fn count(self) -> nat {
        self.digits.len()
    }

    pub open spec fn marked_solved(self) -> Candidates {
        Candidates { digits: self.digits, solved: true }
    }

    /// The one digit left, for a set whose `count()` is 1.
    pub open spec fn resolved_digit(self) -> int {
        self.digits.choose()
    }

    /// Only digits 1 to 9 occur.
    pub open spec fn well_formed(self) -> bool {
        self.digits.subset_of(all_digits())
    }
}

/// The bit that stands for `digit` in the packed word: digit 1 is the most
/// significant bit, digit 9 is bit 7. Bit 0 is the solved flag.
spec fn digit_mask(digit: u8) -> u16 {
    0x8000u16 >> ((digit - 1) as u16)
}

/// Whether the bit of `digit` is set in the packed word `b`.
spec fn digit_bit(b: u16, digit: u8) -> bool {
    b & digit_mask(digit) != 0
}

/// Whether the solved flag is set in the packed word `b`.
spec fn solved_bit(b: u16) -> bool {
    b & 1 == 1
}

/// A candidate set packed into sixteen bits.
#[derive(Clone, Copy, Debug)]
pub struct SudokuPossibility {
    b: u16,
}

impl View for SudokuPossibility {
    type V = Candidates;

    closed spec fn view(&self) -> Candidates {
        Candidates {
            digits: Set::new(|d: int| 1 <= d <= 9 && digit_bit(self.b, d as u8)),
            solved: solved_bit(self.b),
        }
    }
}

/// The digits of `s` that are smaller than `bound`.
spec fn digits_below(s: Set<int>, bound: int) -> Set<int> {
    Set::new(|d: int| s.contains(d) && d < bound)
}

/// The digits 1 to 9 form a finite set of nine elements.
pub proof fn lemma_all_digits()
    ensures
        all_digits().finite(),
        all_digits().len() == 9,
{
    vstd::set_lib::lemma_int_range(1, 10);
    assert(all_digits() =~= vstd::set_lib::set_int_range(1, 10));
}

/// A set of digits is finite and has at most nine elements.
pub proof fn lemma_digit_set_finite(s: Set<int>)
    requires
        s.subset_of(all_digits()),
    ensures
        s.finite(),
        s.len() <= 9,
{
    lemma_all_digits();
    vstd::set_lib::lemma_len_subset(s, all_digits());
}

/// A set with exactly one element is the singleton of any of its elements.
pub proof fn lemma_single_digit(s: Set<int>, d: int)
    requires
        s.finite(),
        s.len() == 1,
        s.contains(d),
    ensures
        s == set![d],
        s.choose() == d,
{
    assert(s.remove(d) =~= Set::empty());
}

/// The word 0 has no bit set; the word `0xFF80` has the bits of all nine
/// digits set, and not the flag.
proof fn lemma_bits_of_constants(d: u8)
    by (bit_vector)
    requires
        1 <= d <= 9,
    ensures
        !digit_bit(0, d),
        !solved_bit(0),
        digit_bit(0xFF80, d),
        !solved_bit(0xFF80),
{
}

/// The bits of `x & y` are those set in both words.
proof fn lemma_bits_of_and(x: u16, y: u16, d: u8)
    by (bit_vector)
    requires
        1 <= d <= 9,
    ensures
        digit_bit(x & y, d) == (digit_bit(x, d) && digit_bit(y, d)),
        solved_bit(x & y) == (solved_bit(x) && solved_bit(y)),
{
}

/// Setting the bit of digit `p` changes that bit and no other.
proof fn lemma_bits_of_set(x: u16, p: u8, d: u8)
    by (bit_vector)
    requires
        1 <= p <= 9,
        1 <= d <= 9,
    ensures
        digit_bit(x | digit_mask(p), d) == (d == p || digit_bit(x, d)),
        solved_bit(x | digit_mask(p)) == solved_bit(x),
{
}

/// Clearing the bit of digit `p` changes that bit and no other.
proof fn lemma_bits_of_clear(x: u16, p: u8, d: u8)
    by (bit_vector)
    requires
        1 <= p <= 9,
        1 <= d <= 9,
    ensures
        digit_bit(x & !digit_mask(p), d) == (d != p && digit_bit(x, d)),
        solved_bit(x & !digit_mask(p)) == solved_bit(x),
{
}

/// Raising the flag changes no digit's bit.
proof fn lemma_bits_of_flag(x: u16, d: u8)
    by (bit_vector)
    requires
        1 <= d <= 9,
    ensures
        digit_bit(x | 1, d) == digit_bit(x, d),
        solved_bit(x | 1),
{
}

impl SudokuPossibility {
    /// Every packed word stands for a set of digits between 1 and 9.
    pub proof fn lemma_view_well_formed(self)
        ensures
            self@.well_formed(),
            self@.digits.finite(),
            self@.count() <= 9,
    {
        lemma_digit_set_finite(self@.digits);
    }

    /// The set with no candidate, not solved.
    pub fn new() -> (r: Self)
        ensures
            r@ == Candidates::empty(),
    {
        let r = Self { b: 0 };
        proof {
            assert forall|d: u8| 1 <= d <= 9 implies !#[trigger] digit_bit(0, d) by {
                lemma_bits_of_constants(d);
            }
            lemma_bits_of_constants(1);
        }
        r
    }

    /// The set with all nine candidates, not solved.
    pub fn new_all() -> (r: Self)
        ensures
            r@ == Candidates::full(),
    {
        let r = Self { b: 0xFF80 };
        proof {
            assert forall|d: u8| 1 <= d <= 9 implies #[trigger] digit_bit(0xFF80, d) by {
                lemma_bits_of_constants(d);
            }
            lemma_bits_of_constants(1);
        }
        r
    }

    /// The candidates common to both sets. The result is marked solved only
    /// if both sets are.
    pub fn and(&self, other: &SudokuPossibility) -> (r: SudokuPossibility)
        ensures
            r@ == self@.intersect(other@),
    {
        let r = SudokuPossibility { b: self.b & other.b };
        proof {
            assert forall|d: u8| 1 <= d <= 9 implies #[trigger] digit_bit(r.b, d) == (digit_bit(
                self.b,
                d,
            ) && digit_bit(other.b, d)) by {
                lemma_bits_of_and(self.b, other.b, d);
            }
            lemma_bits_of_and(self.b, other.b, 1);
        }
        r
    }

    /// This set with `possibility` added. The digit must not be in the set
    /// yet.
    pub fn added(&self, possibility: u8) -> (r: SudokuPossibility)
        requires
            1 <= possibility <= 9,
            !self@.contains(possibility as int),
        ensures
            r@ == self@.with_added(possibility as int),
    {
        let shift = possibility - 1;
        let mask: u16 = 0x8000u16 >> shift;
        let r = SudokuPossibility { b: self.b | mask };
        proof {
            assert forall|d: u8| 1 <= d <= 9 implies #[trigger] digit_bit(r.b, d) == (d
                == possibility || digit_bit(self.b, d)) by {
                lemma_bits_of_set(self.b, possibility, d);
            }
            lemma_bits_of_set(self.b, possibility, 1);
        }
        r
    }

    /// Whether `possibility` is a candidate.
    pub fn contains(&self, possibility: u8) -> (r: bool)
        requires
            1 <= possibility <= 9,
        ensures
            r == self@.contains(possibility as int),
    {
        let shift = possibility - 1;
        let mask: u16 = 0x8000u16 >> shift;
        (self.b & mask) != 0
    }

    /// This set without `possibility`, whether or not it was a candidate.
    pub fn removed(&self, possibility: u8) -> (r: SudokuPossibility)
        requires
            1 <= possibility <= 9,
        ensures
            r@ == self@.with_removed(possibility as int),
    {
        let shift = possibility - 1;
        let mask: u16 = !(0x8000u16 >> shift);
        let r = SudokuPossibility { b: self.b & mask };
        proof {
            assert forall|d: u8| 1 <= d <= 9 implies #[trigger] digit_bit(r.b, d) == (d
                != possibility && digit_bit(self.b, d)) by {
                lemma_bits_of_clear(self.b, possibility, d);
            }
            lemma_bits_of_clear(self.b, possibility, 1);
        }
        r
    }

/// The number of candidates.
    pub fn count(&self) -> (r: u8)
        ensures
            r == self@.count(),
            r <= 9,
    {
        let mut n: u8 = 0;
        let mut d: u8 = 1;
        proof {
            assert(digits_below(self@.digits, 1) =~= Set::empty());
        }
        while d <= 9
            invariant
                1 <= d <= 10,
                n < d,
                digits_below(self@.digits, d as int).finite(),
                n == digits_below(self@.digits, d as int).len(),
            decreases 10 - d,
        {
            let ghost before = digits_below(self@.digits, d as int);
            if self.contains(d) {
                n += 1;
                proof {
                    assert(digits_below(self@.digits, d + 1) =~= before.insert(d as int));
                }
            } else {
                proof {
                    assert(digits_below(self@.digits, d + 1) =~= before);
                }
            }
            d += 1;
        }
        proof {
            assert(digits_below(self@.digits, 10) =~= self@.digits);
        }
        n
    }

    /// The one candidate of a set that has exactly one.
    pub fn get(&self) -> (r: u8)
        requires
            self@.count() == 1,
        ensures
            1 <= r <= 9,
            self@.contains(r as int),
            self@.digits == set![r as int],
            r == self@.resolved_digit(),
    {
        let mut d: u8 = 1;
        proof {
            self.lemma_view_well_formed();
        }
        while d < 9
            invariant
                1 <= d <= 9,
                self@.well_formed(),
                self@.digits.finite(),
                self@.count() == 1,
                forall|e: int| 1 <= e < d ==> !self@.digits.contains(e),
            decreases 9 - d,
        {
            if self.contains(d) {
                proof {
                    lemma_single_digit(self@.digits, d as int);
                }
                return d;
            }
            d += 1;
        }
        proof {
            assert(self@.digits.contains(self@.digits.choose()));
            lemma_single_digit(self@.digits, 9);
        }
        9
    }

    /// The one candidate if there is exactly one, and `None` otherwise.
    pub fn try_get(&self) -> (r: Option<u8>)
        ensures
            match r {
                Some(d) => {
                    &&& 1 <= d <= 9
                    &&& self@.contains(d as int)
                    &&& self@.digits == set![d as int]
                },
                None => self@.count() != 1,
            },
    {
        if self.count() == 1 {
            Some(self.get())
        } else {
            None
        }
    }

    /// This set with the solved flag raised.
    pub fn marked_solved(&self) -> (r: SudokuPossibility)
        ensures
            r@ == self@.marked_solved(),
    {
        let r = SudokuPossibility { b: self.b | 1 };
        proof {
            assert forall|d: u8| 1 <= d <= 9 implies #[trigger] digit_bit(r.b, d) == digit_bit(
                self.b,
                d,
            ) by {
                lemma_bits_of_flag(self.b, d);
            }
            lemma_bits_of_flag(self.b, 1);
        }
        r
    }

    /// Whether the solved flag is raised.
    pub fn is_solved(&self) -> (r: bool)
        ensures
            r == self@.solved,
    {
        (self.b & 1) == 1
    }
}

/// Removing a digit from the full set makes it absent, and adding a digit to
/// the empty set makes it present.
pub proof fn lemma_added_present_removed_absent(digit: int)
    requires
        1 <= digit <= 9,
    ensures
        !Candidates::full().with_removed(digit).contains(digit),
        Candidates::empty().with_added(digit).contains(digit),
{
}

/// A set made of one digit counts one, and resolves to that digit.
pub proof fn lemma_single_candidate_resolves(digit: int)
    requires
        1 <= digit <= 9,
    ensures
        Candidates::empty().with_added(digit).count() == 1,
        Candidates::empty().with_added(digit).resolved_digit() == digit,
{
    lemma_single_digit(set![digit], digit);
}

/// Adding the nine digits one after the other to the empty set gives the
/// full set, which counts nine.
pub proof fn lemma_nine_added_make_full()
    ensures
        Candidates::empty().with_added(1).with_added(2).with_added(3).with_added(4).with_added(
            5,
        ).with_added(6).with_added(7).with_added(8).with_added(9) == Candidates::full(),
        Candidates::full().count() == 9,
{
    lemma_all_digits();
    assert(set![1int, 2, 3, 4, 5, 6, 7, 8, 9] =~= all_digits());
}

} // verus!
