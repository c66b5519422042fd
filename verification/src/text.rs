//! Boards as text: reading a board from a puzzle text and writing it out
//! as nine lines with the boxes marked off.

use vstd::prelude::*;
use vstd::string::*;
use crate::rules::well_formed;
use crate::board::Sudoku;

verus! {

/// What a character of a puzzle text stands for: a digit from `1` to `9` is a
/// given, `_` is an empty cell, and any other character is no cell at all.
pub open spec fn cell_value(ch: char) -> Option<u8> {
    if ch == '_' {
        Some(0u8)
    } else if ch == '1' {
        Some(1u8)
    } else if ch == '2' {
        Some(2u8)
    } else if ch == '3' {
        Some(3u8)
    } else if ch == '4' {
        Some(4u8)
    } else if ch == '5' {
        Some(5u8)
    } else if ch == '6' {
        Some(6u8)
    } else if ch == '7' {
        Some(7u8)
    } else if ch == '8' {
        Some(8u8)
    } else if ch == '9' {
        Some(9u8)
    } else {
        None
    }
}

/// The cells that a puzzle text names, in the order of the text.
pub open spec fn cells_in(text: Seq<char>) -> Seq<u8>
    decreases text.len(),
{
    if text.len() == 0 {
        Seq::empty()
    } else {
        match cell_value(text.last()) {
            Some(v) => cells_in(text.drop_last()).push(v),
            None => cells_in(text.drop_last()),
        }
    }
}

/// The cell that `ch` stands for, if any.
fn read_cell(ch: char) -> (r: Option<u8>)
    ensures
        r == cell_value(ch),
{
    match ch {
        '_' => Some(0),
        '1' => Some(1),
        '2' => Some(2),
        '3' => Some(3),
        '4' => Some(4),
        '5' => Some(5),
        '6' => Some(6),
        '7' => Some(7),
        '8' => Some(8),
        '9' => Some(9),
        _ => None,
    }
}

/// A longer text names at least as many cells.
pub proof fn lemma_cells_in_prefix(text: Seq<char>, n: int)
    requires
        0 <= n <= text.len(),
    ensures
        cells_in(text.take(n)).len() <= cells_in(text).len(),
    decreases text.len(),
{
    if text.len() > 0 {
        let shorter = text.drop_last();
        if n <= shorter.len() {
            lemma_cells_in_prefix(shorter, n);
            assert(shorter.take(n) =~= text.take(n));
        } else {
            assert(text.take(n) =~= text);
        }
    }
}

/// The character that shows a cell: its digit, or `0` for an empty cell.
pub open spec fn digit_char(v: u8) -> char {
    if v == 1 {
        '1'
    } else if v == 2 {
        '2'
    } else if v == 3 {
        '3'
    } else if v == 4 {
        '4'
    } else if v == 5 {
        '5'
    } else if v == 6 {
        '6'
    } else if v == 7 {
        '7'
    } else if v == 8 {
        '8'
    } else if v == 9 {
        '9'
    } else {
        '0'
    }
}

/// Three neighbouring cells of a row, beginning at cell `c`, with a blank
/// between them.
pub open spec fn rendered_triple(g: Seq<u8>, c: int) -> Seq<char> {
    seq![digit_char(g[c]), ' ', digit_char(g[c + 1]), ' ', digit_char(g[c + 2])]
}

/// The first `triples` triples of row `y`, with a bar between them.
pub open spec fn rendered_triples(g: Seq<u8>, y: int, triples: nat) -> Seq<char>
    decreases triples,
{
    if triples == 0 {
        Seq::empty()
    } else {
        let bar = if triples == 1 {
            Seq::<char>::empty()
        } else {
            seq![' ', '|', ' ']
        };
        rendered_triples(g, y, (triples - 1) as nat) + bar + rendered_triple(
            g,
            9 * y + 3 * (triples - 1),
        )
    }
}

/// What stands between row `y` and the row above it: a line break, and above
/// the fourth and the seventh row a rule of 21 dashes on a line of its own.
pub open spec fn row_lead(y: int) -> Seq<char> {
    if y == 0 {
        Seq::empty()
    } else if y % 3 == 0 {
        seq!['\n'] + Seq::new(21, |i: int| '-') + seq!['\n']
    } else {
        seq!['\n']
    }
}

/// The first `rows` rows of the board as text.
pub open spec fn rendered_rows(g: Seq<u8>, rows: nat) -> Seq<char>
    decreases rows,
{
    if rows == 0 {
        Seq::empty()
    } else {
        rendered_rows(g, (rows - 1) as nat) + row_lead(rows - 1) + rendered_triples(
            g,
            rows - 1,
            3,
        )
    }
}

/// The board as text: nine lines of nine cells, the boxes marked off by bars
/// and rules, with no line break after the last line.
pub open spec fn rendered(g: Seq<u8>) -> Seq<char> {
    rendered_rows(g, 9)
}

/// The text that shows a cell.
fn digit_text(v: u8) -> (r: &'static str)
    ensures
        r@ == seq![digit_char(v)],
{
    proof {
        reveal_strlit("0");
        reveal_strlit("1");
        reveal_strlit("2");
        reveal_strlit("3");
        reveal_strlit("4");
        reveal_strlit("5");
        reveal_strlit("6");
        reveal_strlit("7");
        reveal_strlit("8");
        reveal_strlit("9");
    }
    let r = match v {
        1 => "1",
        2 => "2",
        3 => "3",
        4 => "4",
        5 => "5",
        6 => "6",
        7 => "7",
        8 => "8",
        9 => "9",
        _ => "0",
    };
    r
}

impl Sudoku {
    /// The board as text, for people to read.
    pub fn as_string(&self) -> (s: String)
        ensures
            s@ == rendered(self@),
    {
        let cells = self.cells();
        let mut s = String::new();
        let mut y: usize = 0;
        while y < 9
            invariant
                y <= 9,
                cells@ == self@,
                s@ == rendered_rows(self@, y as nat),
            decreases 9 - y,
        {
            let ghost above = s@;
            if y != 0 {
                s.append("\n");
                if y % 3 == 0 {
                    s.append("---------------------\n");
                }
            }
            proof {
                reveal_strlit("\n");
                reveal_strlit("---------------------\n");
            }
            let mut x: usize = 0;
            while x < 3
                invariant
                    x <= 3,
                    y < 9,
                    cells@ == self@,
                    s@ == above + row_lead(y as int) + rendered_triples(self@, y as int, x as nat),
                decreases 3 - x,
            {
                if x != 0 {
                    s.append(" | ");
                }
                let c = 9 * y + 3 * x;
                s.append(digit_text(cells[c]));
                s.append(" ");
                s.append(digit_text(cells[c + 1]));
                s.append(" ");
                s.append(digit_text(cells[c + 2]));
                proof {
                    reveal_strlit(" | ");
                    reveal_strlit(" ");
                    assert(s@ =~= above + row_lead(y as int) + rendered_triples(
                        self@,
                        y as int,
                        (x + 1) as nat,
                    ));
                }
                x += 1;
            }
            y += 1;
        }
        s
    }

    /// The board that a puzzle text names, if it names exactly 81 cells.
    pub fn parse(text: &str) -> (r: Option<Sudoku>)
        ensures
            match r {
                Some(s) => s@ == cells_in(text@) && well_formed(s@),
                None => cells_in(text@).len() != 81,
            },
    {
        broadcast use vstd::string::group_string_axioms;

        let mut data = [0u8; 81];
        let mut count: usize = 0;
        for ch in it: text.chars()
            invariant
                it.seq() == text@,
                count <= 81,
                forall|c: int| 0 <= c < 81 ==> #[trigger] data@[c] <= 9,
                count == cells_in(text@.take(it.index() as int)).len(),
                forall|c: int|
                    0 <= c < count ==> #[trigger] data@[c] == cells_in(
                        text@.take(it.index() as int),
                    )[c],
        {
            assert(text@.take(it.index() + 1).drop_last() =~= text@.take(it.index() as int));
            match read_cell(ch) {
                Some(v) => {
                    if count == 81 {
                        proof {
                            lemma_cells_in_prefix(text@, it.index() + 1);
                        }
                        return None;
                    }
                    data[count] = v;
                    count += 1;
                },
                None => {},
            }
        }
        assert(text@.take(text@.len() as int) =~= text@);
        if count != 81 {
            return None;
        }
        Some(Sudoku::from_digits(data))
    }
}

} // verus!
