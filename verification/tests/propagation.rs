use sudoku::Sudoku;

const CLASSIC: &str =
    "53__7____6__195____98____6_8___6___34__8_3__17___2___6_6____28____419__5____8__79";

const CLASSIC_SOLVED: &str =
    "534678912672195348198342567859761423426853791713924856961537284287419635345286179";

const SEVENTEEN: &str =
    "_______1_4_________2___________5_4_7__8___3____1_9____3__4__2___5_1________8_6___";

const SEVENTEEN_SOLVED: &str =
    "693784512487512936125963874932651487568247391741398625319475268856129743274836159";

const STUBBORN: &str =
    "1____7_9__3__2___8__96__5____53__9___1__8___26____4___3______1__4______7__7___3__";

const STUBBORN_PROPAGATED: &str =
    "1____7_9__3__2___8__96__5____53__9___1__8___26____4___3______1__41_____7__7___3__";

fn read(text: &str) -> Sudoku {
    Sudoku::parse(text).expect("81 cells")
}

fn shown(board: &Sudoku) -> String {
    board
        .cells()
        .iter()
        .map(|&v| if v == 0 { '_' } else { (b'0' + v) as char })
        .collect()
}

fn keeps_givens(after: &Sudoku, before: &Sudoku) -> bool {
    let a = after.cells();
    let b = before.cells();
    (0..81).all(|c| b[c] == 0 || a[c] == b[c])
}

#[test]
fn last_empty_cell_is_filled_with_the_missing_digit() {
    let mut text = String::from(CLASSIC_SOLVED);
    text.replace_range(40..41, "_");
    let board = read(&text);
    assert_eq!(board.cells()[40], 0);
    let done = board.guaranteed_completed();
    assert_eq!(done.cells()[40], 5);
    assert_eq!(shown(&done), CLASSIC_SOLVED);
}

#[test]
fn every_single_hole_is_filled() {
    for cell in 0..81 {
        let mut text = String::from(CLASSIC_SOLVED);
        text.replace_range(cell..cell + 1, "_");
        assert_eq!(shown(&read(&text).guaranteed_completed()), CLASSIC_SOLVED);
    }
}

#[test]
fn classic_puzzle_is_solved_by_propagation_alone() {
    let done = read(CLASSIC).guaranteed_completed();
    assert_eq!(shown(&done), CLASSIC_SOLVED);
    assert!(done.check_validity());
}

#[test]
fn seventeen_givens_are_enough_for_propagation() {
    let done = read(SEVENTEEN).guaranteed_completed();
    assert_eq!(shown(&done), SEVENTEEN_SOLVED);
}

#[test]
fn hidden_single_is_found_where_no_cell_is_down_to_one_digit() {
    let board = read(
        "_________\
         ___1_____\
         ______1__\
         _1_______\
         __1______\
         _________\
         _________\
         _________\
         _________",
    );
    let done = board.guaranteed_completed();
    let mut expected = board.cells();
    expected[0] = 1;
    assert_eq!(done.cells(), expected);
}

#[test]
fn hidden_single_in_a_column_is_found() {
    let board = read(
        "_________\
         _____5___\
         ______5__\
         _5_______\
         ____5____\
         _______5_\
         ___5_____\
         ________5\
         __5______",
    );
    let done = board.guaranteed_completed();
    let mut expected = board.cells();
    expected[0] = 5;
    assert_eq!(done.cells(), expected);
}

#[test]
fn ambiguous_cells_stay_empty() {
    let done = read(STUBBORN).guaranteed_completed();
    assert_eq!(shown(&done), STUBBORN_PROPAGATED);
    assert_eq!(done.cells().iter().filter(|&&v| v == 0).count(), 57);
}

#[test]
fn blank_board_stays_blank() {
    let blank = read(&"_".repeat(81));
    assert_eq!(blank.guaranteed_completed().cells(), [0u8; 81]);
}

#[test]
fn full_board_stays_as_it_is() {
    let full = read(CLASSIC_SOLVED);
    assert_eq!(full.guaranteed_completed().cells(), full.cells());
}

#[test]
fn two_solutions_leave_their_difference_open() {
    let text = "534678912672195348198342567859761423426853791713924856961_3728_287_1963_345286179";
    let done = read(text).guaranteed_completed();
    assert_eq!(shown(&done), text);
}

#[test]
fn propagating_twice_is_propagating_once() {
    for text in [CLASSIC, SEVENTEEN, STUBBORN, CLASSIC_SOLVED] {
        let once = read(text).guaranteed_completed();
        let twice = once.guaranteed_completed();
        assert_eq!(twice.cells(), once.cells());
    }
}

#[test]
fn givens_are_kept() {
    for text in [CLASSIC, SEVENTEEN, STUBBORN] {
        let board = read(text);
        assert!(keeps_givens(&board.guaranteed_completed(), &board));
    }
}

#[test]
fn two_cells_forced_to_one_digit_both_take_it() {
    let board = read(
        "1234567__\
         _______8_\
         _________\
         _________\
         _________\
         _________\
         _________\
         _________\
         _________",
    );
    assert!(board.check_validity());
    let done = board.guaranteed_completed();
    let mut expected = board.cells();
    expected[7] = 9;
    expected[8] = 9;
    assert_eq!(done.cells(), expected);
    assert!(!done.check_validity());
}

#[test]
fn cell_without_candidate_stays_empty() {
    let board = read(
        "_12345678\
         _________\
         _________\
         _________\
         9________\
         _________\
         _________\
         _________\
         _________",
    );
    let done = board.guaranteed_completed();
    assert_eq!(done.cells(), board.cells());
}
