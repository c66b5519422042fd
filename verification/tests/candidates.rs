use sudoku::SudokuPossibility;

fn of_digits(digits: &[u8]) -> SudokuPossibility {
    let mut set = SudokuPossibility::new();
    for &d in digits {
        set = set.added(d);
    }
    set
}

fn digits_of(set: &SudokuPossibility) -> Vec<u8> {
    (1..=9).filter(|&d| set.contains(d)).collect()
}

#[test]
fn empty_set_has_no_candidate() {
    let set = SudokuPossibility::new();
    assert_eq!(set.count(), 0);
    assert!(!set.is_solved());
    assert_eq!(digits_of(&set), Vec::<u8>::new());
    assert_eq!(set.try_get(), None);
}

#[test]
fn full_set_has_all_nine() {
    let set = SudokuPossibility::new_all();
    assert_eq!(set.count(), 9);
    assert!(!set.is_solved());
    assert_eq!(digits_of(&set), vec![1, 2, 3, 4, 5, 6, 7, 8, 9]);
}

#[test]
fn removed_digit_is_absent_for_every_digit() {
    for d in 1..=9u8 {
        let set = SudokuPossibility::new_all().removed(d);
        assert!(!set.contains(d));
        assert_eq!(set.count(), 8);
        for other in 1..=9u8 {
            if other != d {
                assert!(set.contains(other));
            }
        }
    }
}

#[test]
fn added_digit_is_present_for_every_digit() {
    for d in 1..=9u8 {
        let set = SudokuPossibility::new().added(d);
        assert!(set.contains(d));
        assert_eq!(set.count(), 1);
        assert_eq!(digits_of(&set), vec![d]);
    }
}

#[test]
fn adding_all_nine_counts_nine() {
    let mut set = SudokuPossibility::new();
    for d in 1..=9u8 {
        set = set.added(d);
        assert_eq!(set.count(), d);
    }
    assert_eq!(set.count(), 9);
    assert_eq!(digits_of(&set), digits_of(&SudokuPossibility::new_all()));
}

#[test]
fn single_five_resolves_to_five() {
    let set = SudokuPossibility::new().added(5);
    assert_eq!(set.get(), 5);
    assert_eq!(set.try_get(), Some(5));
}

#[test]
fn every_single_digit_resolves_to_itself() {
    for d in 1..=9u8 {
        assert_eq!(of_digits(&[d]).get(), d);
        assert_eq!(SudokuPossibility::new_all().and(&of_digits(&[d])).get(), d);
    }
}

#[test]
fn try_get_is_none_unless_exactly_one() {
    assert_eq!(of_digits(&[]).try_get(), None);
    assert_eq!(of_digits(&[2, 7]).try_get(), None);
    assert_eq!(of_digits(&[1, 9]).try_get(), None);
    assert_eq!(SudokuPossibility::new_all().try_get(), None);
    assert_eq!(of_digits(&[7]).try_get(), Some(7));
    assert_eq!(of_digits(&[4, 9]).removed(4).try_get(), Some(9));
}

#[test]
fn and_keeps_common_digits() {
    let a = of_digits(&[1, 3, 5, 7, 9]);
    let b = of_digits(&[3, 4, 5, 6]);
    assert_eq!(digits_of(&a.and(&b)), vec![3, 5]);
    assert_eq!(digits_of(&b.and(&a)), vec![3, 5]);
    assert_eq!(a.and(&b).count(), 2);
    assert_eq!(a.and(&SudokuPossibility::new()).count(), 0);
    assert_eq!(digits_of(&a.and(&SudokuPossibility::new_all())), vec![1, 3, 5, 7, 9]);
}

#[test]
fn and_keeps_the_flag_only_if_both_have_it() {
    let plain = of_digits(&[4]);
    let marked = of_digits(&[4]).marked_solved();
    assert!(marked.and(&marked).is_solved());
    assert!(!marked.and(&plain).is_solved());
    assert!(!plain.and(&marked).is_solved());
    assert!(!plain.and(&plain).is_solved());
}

#[test]
fn removing_an_absent_digit_changes_nothing() {
    let set = of_digits(&[2, 4]);
    let same = set.removed(9);
    assert_eq!(digits_of(&same), vec![2, 4]);
    assert_eq!(same.count(), 2);
    assert_eq!(digits_of(&SudokuPossibility::new().removed(1)), Vec::<u8>::new());
}

#[test]
fn removed_then_added_restores_the_set() {
    for d in 1..=9u8 {
        let back = SudokuPossibility::new_all().removed(d).added(d);
        assert_eq!(back.count(), 9);
        assert!(back.contains(d));
    }
}

#[test]
fn marking_solved_keeps_the_digits() {
    let set = of_digits(&[6]);
    assert!(!set.is_solved());
    let marked = set.marked_solved();
    assert!(marked.is_solved());
    assert_eq!(marked.count(), 1);
    assert_eq!(marked.get(), 6);
    assert_eq!(digits_of(&marked), vec![6]);
}

#[test]
fn one_candidate_is_not_solved_until_marked() {
    let set = SudokuPossibility::new_all()
        .removed(1)
        .removed(2)
        .removed(3)
        .removed(4)
        .removed(5)
        .removed(6)
        .removed(7)
        .removed(8);
    assert_eq!(set.count(), 1);
    assert!(!set.is_solved());
    assert_eq!(set.get(), 9);
}

#[test]
fn the_flag_survives_adding_and_removing() {
    let marked = of_digits(&[3]).marked_solved();
    assert!(marked.removed(3).is_solved());
    assert!(marked.added(8).is_solved());
    assert_eq!(marked.removed(3).count(), 0);
    assert_eq!(digits_of(&marked.added(8)), vec![3, 8]);
}

#[test]
fn first_and_last_digit_do_not_touch_the_flag() {
    let set = of_digits(&[1, 9]);
    assert!(!set.is_solved());
    assert!(set.contains(1));
    assert!(set.contains(9));
    assert!(!set.contains(2));
    assert!(!set.contains(8));
    let marked = SudokuPossibility::new().marked_solved();
    assert_eq!(marked.count(), 0);
    for d in 1..=9u8 {
        assert!(!marked.contains(d));
    }
}
