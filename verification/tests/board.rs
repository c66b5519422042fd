use sudoku::Sudoku;

const CLASSIC: &str = "\
53__7____\
6__195___\
_98____6_\
8___6___3\
4__8_3__1\
7___2___6\
_6____28_\
___419__5\
____8__79";

const CLASSIC_SOLVED: &str =
    "534678912672195348198342567859761423426853791713924856961537284287419635345286179";

fn read(text: &str) -> Sudoku {
    Sudoku::parse(text).expect("81 cells")
}

fn with_cell(board: &Sudoku, cell: usize, digit: u8) -> Sudoku {
    let mut cells = board.cells();
    cells[cell] = digit;
    Sudoku::from_cells(cells).expect("digits")
}

fn swapped(board: &Sudoku, a: usize, b: usize) -> Sudoku {
    let mut cells = board.cells();
    cells.swap(a, b);
    Sudoku::from_cells(cells).expect("digits")
}

#[test]
fn parse_reads_digits_and_blanks() {
    let board = read(CLASSIC);
    let cells = board.cells();
    assert_eq!(&cells[0..9], &[5, 3, 0, 0, 7, 0, 0, 0, 0]);
    assert_eq!(&cells[9..18], &[6, 0, 0, 1, 9, 5, 0, 0, 0]);
    assert_eq!(&cells[72..81], &[0, 0, 0, 0, 8, 0, 0, 7, 9]);
    assert_eq!(cells.iter().filter(|&&v| v != 0).count(), 30);
}

#[test]
fn parse_skips_everything_but_digits_and_underscores() {
    let spaced = "5 3 _ | _ 7 _ | _ _ _\n6 _ _ | 1 9 5 | _ _ _\n_ 9 8 | _ _ _ | _ 6 _\n\
                  ---------------------\n8 _ _ | _ 6 _ | _ _ 3\r\n4 _ _ | 8 _ 3 | _ _ 1\n\
                  7 _ _ | _ 2 _ | _ _ 6\n---------------------\n_ 6 _ | _ _ _ | 2 8 _\n\
                  _ _ _ | 4 1 9 | _ _ 5\n_ _ _ | _ 8 _ | _ 7 9\n";
    assert_eq!(read(spaced).cells(), read(CLASSIC).cells());
}

#[test]
fn parse_skips_zero_and_letters_and_other_scripts() {
    let mut text = String::from("0a.Z é ٣ 数 ");
    text.push_str(CLASSIC);
    text.push_str(" 0 x");
    assert_eq!(read(&text).cells(), read(CLASSIC).cells());
}

#[test]
fn parse_refuses_too_few_cells() {
    assert!(Sudoku::parse("").is_none());
    assert!(Sudoku::parse("12345").is_none());
    assert!(Sudoku::parse(&CLASSIC[..80]).is_none());
    assert!(Sudoku::parse(&"0".repeat(81)).is_none());
}

#[test]
fn parse_refuses_too_many_cells() {
    let mut text = String::from(CLASSIC);
    text.push('_');
    assert!(Sudoku::parse(&text).is_none());
    text.push_str("123");
    assert!(Sudoku::parse(&text).is_none());
    assert!(Sudoku::parse(&"7".repeat(200)).is_none());
}

#[test]
fn parse_takes_exactly_eighty_one_cells() {
    let blank = read(&"_".repeat(81));
    assert_eq!(blank.cells(), [0u8; 81]);
    let nines = read(&"9".repeat(81));
    assert_eq!(nines.cells(), [9u8; 81]);
}

#[test]
fn from_cells_takes_digits_and_blanks() {
    let mut cells = [0u8; 81];
    for (i, cell) in cells.iter_mut().enumerate() {
        *cell = (i % 10) as u8;
    }
    let board = Sudoku::from_cells(cells).expect("digits");
    assert_eq!(board.cells(), cells);
}

#[test]
fn from_cells_refuses_what_is_no_digit() {
    let mut cells = [0u8; 81];
    cells[80] = 10;
    assert!(Sudoku::from_cells(cells).is_none());
    cells[80] = 9;
    assert!(Sudoku::from_cells(cells).is_some());
    cells[0] = 255;
    assert!(Sudoku::from_cells(cells).is_none());
}

#[test]
fn as_string_marks_off_the_boxes() {
    let expected = "5 3 0 | 0 7 0 | 0 0 0\n\
                    6 0 0 | 1 9 5 | 0 0 0\n\
                    0 9 8 | 0 0 0 | 0 6 0\n\
                    ---------------------\n\
                    8 0 0 | 0 6 0 | 0 0 3\n\
                    4 0 0 | 8 0 3 | 0 0 1\n\
                    7 0 0 | 0 2 0 | 0 0 6\n\
                    ---------------------\n\
                    0 6 0 | 0 0 0 | 2 8 0\n\
                    0 0 0 | 4 1 9 | 0 0 5\n\
                    0 0 0 | 0 8 0 | 0 7 9";
    assert_eq!(read(CLASSIC).as_string(), expected);
}

#[test]
fn as_string_has_eleven_lines_of_twenty_one() {
    let text = read(CLASSIC_SOLVED).as_string();
    let lines: Vec<&str> = text.split('\n').collect();
    assert_eq!(lines.len(), 11);
    for line in &lines {
        assert_eq!(line.len(), 21);
    }
    assert_eq!(lines[0], "5 3 4 | 6 7 8 | 9 1 2");
    assert_eq!(lines[3], "---------------------");
    assert_eq!(lines[7], "---------------------");
    assert_eq!(lines[10], "3 4 5 | 2 8 6 | 1 7 9");
    assert!(!text.ends_with('\n'));
}

#[test]
fn as_string_can_be_read_back() {
    let board = read(CLASSIC_SOLVED);
    assert_eq!(read(&board.as_string()).cells(), board.cells());
}

#[test]
fn blank_board_is_valid() {
    assert!(read(&"_".repeat(81)).check_validity());
}

#[test]
fn puzzle_and_its_solution_are_valid() {
    assert!(read(CLASSIC).check_validity());
    assert!(read(CLASSIC_SOLVED).check_validity());
}

#[test]
fn two_fives_in_a_row_are_invalid() {
    let blank = read(&"_".repeat(81));
    let board = with_cell(&with_cell(&blank, 27, 5), 35, 5);
    assert!(!board.check_validity());
    let crowded = with_cell(&read(CLASSIC), 8, 5);
    assert!(!crowded.check_validity());
}

#[test]
fn a_digit_twice_in_a_column_is_invalid() {
    let blank = read(&"_".repeat(81));
    let board = with_cell(&with_cell(&blank, 4, 7), 76, 7);
    assert!(!board.check_validity());
    let last_column = with_cell(&with_cell(&blank, 8, 1), 80, 1);
    assert!(!last_column.check_validity());
}

#[test]
fn a_digit_twice_in_a_box_is_invalid() {
    let blank = read(&"_".repeat(81));
    let board = with_cell(&with_cell(&blank, 30, 2), 50, 2);
    assert!(!board.check_validity());
    let corner = with_cell(&with_cell(&blank, 60, 9), 80, 9);
    assert!(!corner.check_validity());
}

#[test]
fn the_same_digit_in_different_units_is_valid() {
    let blank = read(&"_".repeat(81));
    let board = with_cell(&with_cell(&blank, 0, 4), 40, 4);
    assert!(board.check_validity());
    let knight = with_cell(&with_cell(&blank, 0, 4), 12, 4);
    assert!(knight.check_validity());
}

#[test]
fn every_single_clash_in_a_solved_board_is_found() {
    let solved = read(CLASSIC_SOLVED);
    let cells = solved.cells();
    for cell in 0..81 {
        let other = if cells[cell] == 9 { 1 } else { cells[cell] + 1 };
        assert!(!with_cell(&solved, cell, other).check_validity());
        assert!(with_cell(&solved, cell, 0).check_validity());
    }
}

#[test]
fn rearranging_a_full_row_alone_keeps_it_valid() {
    let mut cells = [0u8; 81];
    for k in 0..9 {
        cells[36 + k] = [3, 1, 4, 5, 9, 2, 6, 8, 7][k];
    }
    let board = Sudoku::from_cells(cells).expect("digits");
    assert!(board.check_validity());
    assert!(swapped(&board, 36, 44).check_validity());
    assert!(swapped(&swapped(&board, 37, 40), 40, 43).check_validity());
}

#[test]
fn rearranging_a_row_with_a_clash_keeps_it_invalid() {
    let mut cells = [0u8; 81];
    cells[9] = 6;
    cells[13] = 6;
    cells[17] = 2;
    let board = Sudoku::from_cells(cells).expect("digits");
    assert!(!board.check_validity());
    assert!(!swapped(&board, 9, 17).check_validity());
    assert!(!swapped(&board, 13, 10).check_validity());
    assert!(!swapped(&swapped(&board, 9, 14), 13, 16).check_validity());
}

#[test]
fn rearranging_a_column_or_a_box_alone_keeps_the_answer() {
    let mut cells = [0u8; 81];
    cells[2] = 8;
    cells[29] = 3;
    cells[74] = 5;
    let column = Sudoku::from_cells(cells).expect("digits");
    assert!(column.check_validity());
    assert!(swapped(&column, 2, 74).check_validity());
    assert!(swapped(&column, 29, 11).check_validity());
    let mut cells = [0u8; 81];
    cells[60] = 1;
    cells[70] = 1;
    cells[80] = 4;
    let boxed = Sudoku::from_cells(cells).expect("digits");
    assert!(!boxed.check_validity());
    assert!(!swapped(&boxed, 60, 80).check_validity());
    assert!(!swapped(&boxed, 70, 62).check_validity());
}

#[test]
fn rearranging_a_row_can_upset_a_column() {
    let mut cells = [0u8; 81];
    cells[0] = 1;
    cells[1] = 2;
    cells[27] = 2;
    let board = Sudoku::from_cells(cells).expect("digits");
    assert!(board.check_validity());
    assert!(!swapped(&board, 0, 1).check_validity());
}
