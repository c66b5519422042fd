use sudoku::Sudoku;

const CLASSIC: &str =
    "53__7____6__195____98____6_8___6___34__8_3__17___2___6_6____28____419__5____8__79";

const CLASSIC_SOLVED: &str =
    "534678912672195348198342567859761423426853791713924856961537284287419635345286179";

const SEVENTEEN: &str =
    "_______1_4_________2___________5_4_7__8___3____1_9____3__4__2___5_1________8_6___";

const SEVENTEEN_SOLVED: &str =
    "693784512487512936125963874932651487568247391741398625319475268856129743274836159";

const STUBBORN: &str =
    "1____7_9__3__2___8__96__5____53__9___1__8___26____4___3______1__4______7__7___3__";

const STUBBORN_SOLVED: &str =
    "162857493534129678789643521475312986913586742628794135356478219241935867897261354";

fn parsed(text: &str) -> Sudoku {
    Sudoku::parse(text).expect("81 cells")
}

fn digits(board: &Sudoku) -> String {
    board.cells().iter().map(|&v| (b'0' + v) as char).collect()
}

fn solved(board: &Sudoku) -> Option<String> {
    board.bruteforce().map(|s| digits(&s))
}

#[test]
fn classic_puzzle_is_solved_by_search_alone() {
    assert_eq!(solved(&parsed(CLASSIC)).as_deref(), Some(CLASSIC_SOLVED));
}

#[test]
fn search_with_and_without_propagation_agree() {
    for text in [CLASSIC, STUBBORN] {
        let board = parsed(text);
        let direct = board.bruteforce().expect("a solution");
        let prepared = board.guaranteed_completed().bruteforce().expect("a solution");
        assert_eq!(direct.cells(), prepared.cells());
    }
}

#[test]
fn stubborn_puzzle_needs_the_search() {
    let board = parsed(STUBBORN);
    let propagated = board.guaranteed_completed();
    assert!(propagated.cells().contains(&0));
    assert_eq!(solved(&propagated).as_deref(), Some(STUBBORN_SOLVED));
}

#[test]
fn seventeen_givens_give_the_one_solution() {
    let board = parsed(SEVENTEEN);
    let result = board.guaranteed_completed().bruteforce().expect("a solution");
    assert_eq!(digits(&result), SEVENTEEN_SOLVED);
    assert!(result.check_validity());
    assert!(result.cells().iter().all(|&v| v != 0));
    let given = board.cells();
    let found = result.cells();
    for c in 0..81 {
        assert!(given[c] == 0 || found[c] == given[c]);
    }
}

#[test]
fn puzzle_that_propagation_cannot_touch_is_left_to_the_search() {
    let board =
        parsed("8__________36______7__9_2___5___7_______457_____1___3___1____68__85___1__9____4__");
    let propagated = board.guaranteed_completed();
    assert_eq!(propagated.cells(), board.cells());
    let result = propagated.bruteforce().expect("a solution");
    assert_eq!(
        digits(&result),
        "812753649943682175675491283154237896369845721287169534521974368438526917796318452"
    );
    assert!(result.check_validity());
}

#[test]
fn two_fives_in_a_row_have_no_solution() {
    let mut text = String::from(CLASSIC);
    text.replace_range(8..9, "5");
    let board = parsed(&text);
    assert!(!board.check_validity());
    assert!(board.bruteforce().is_none());
}

#[test]
fn two_fives_in_a_row_of_an_empty_board_have_no_solution() {
    let mut text = "_".repeat(81);
    text.replace_range(45..46, "5");
    text.replace_range(53..54, "5");
    let board = parsed(&text);
    assert!(!board.check_validity());
    assert!(board.bruteforce().is_none());
}

#[test]
fn full_board_with_two_fives_in_a_row_has_no_solution() {
    let mut text = String::from(CLASSIC_SOLVED);
    text.replace_range(1..2, "5");
    let board = parsed(&text);
    assert!(board.cells().iter().all(|&v| v != 0));
    assert!(!board.check_validity());
    assert!(board.bruteforce().is_none());
}

#[test]
fn clash_behind_the_last_empty_cell_has_no_solution() {
    let mut text = String::from(CLASSIC_SOLVED);
    text.replace_range(0..1, "_");
    text.replace_range(80..81, "7");
    let board = parsed(&text);
    assert!(!board.check_validity());
    assert!(board.bruteforce().is_none());
}

#[test]
fn full_valid_board_is_its_own_solution() {
    let board = parsed(CLASSIC_SOLVED);
    let result = board.bruteforce().expect("a solution");
    assert_eq!(result.cells(), board.cells());
}

#[test]
fn blank_board_gets_the_first_board_in_order() {
    let blank = parsed(&"_".repeat(81));
    assert_eq!(
        solved(&blank).as_deref(),
        Some("123456789456789123789123456214365897365897214897214365531642978642978531978531642")
    );
}

#[test]
fn of_two_solutions_the_one_with_the_smaller_digit_first_is_found() {
    let board =
        parsed("534678912672195348198342567859761423426853791713924856961_3728_287_1963_345286179");
    assert_eq!(
        solved(&board).as_deref(),
        Some("534678912672195348198342567859761423426853791713924856961437285287519634345286179")
    );
}

#[test]
fn valid_board_without_solution_is_reported() {
    let board = parsed(
        "_12345678\
         _________\
         _________\
         _________\
         9________\
         _________\
         _________\
         _________\
         _________",
    );
    assert!(board.check_validity());
    assert!(board.bruteforce().is_none());
}

#[test]
fn dead_end_deep_in_the_board_is_reported() {
    let board =
        parsed("5346_8_1____1__34819_3425__8__7_1_23426_5_791_1392_8_6_61537__428__14__534_2__179");
    assert!(board.check_validity());
    assert!(board.bruteforce().is_none());
    let propagated = board.guaranteed_completed();
    assert_eq!(
        digits(&propagated),
        "534678912672195348198342567859761423426853791713920856961537284287014635345286179"
    );
    assert!(propagated.bruteforce().is_none());
}

#[test]
fn search_leaves_the_board_it_was_given_untouched() {
    let board = parsed(CLASSIC);
    let before = board.cells();
    let _ = board.bruteforce();
    let _ = board.guaranteed_completed();
    assert_eq!(board.cells(), before);
}
