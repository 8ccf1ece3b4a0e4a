use soku::candidates::Candidates;
use soku::digit::Digit;
use soku::error::SudokuError;

fn members(c: &Candidates) -> Vec<u8> {
    c.digits().iter().map(|d| d.0).collect()
}

#[test]
fn digit_new_accepts_one_to_nine() {
    for v in 1..=9u8 {
        assert_eq!(Digit::new(v), Ok(Digit(v)));
        assert!(Digit::is_valid(v));
    }
}

#[test]
fn digit_new_rejects_zero_and_ten() {
    assert_eq!(Digit::new(0), Err(SudokuError::InvalidDigit(0)));
    assert_eq!(Digit::new(10), Err(SudokuError::InvalidDigit(10)));
    assert_eq!(Digit::new(255), Err(SudokuError::InvalidDigit(255)));
    assert!(!Digit::is_valid(0));
    assert!(!Digit::is_valid(10));
}

#[test]
fn digit_try_from_agrees_with_new() {
    for v in 0..=255u8 {
        assert_eq!(Digit::try_from(v), Digit::new(v));
    }
}

#[test]
fn digit_new_unchecked_wraps_the_value() {
    assert_eq!(Digit::new_unchecked(7), Digit(7));
    assert_eq!(Digit::new_unchecked(7).0, 7);
}

#[test]
fn empty_set_has_no_digit() {
    let c = Candidates::empty();
    assert_eq!(c.count(), 0);
    assert_eq!(members(&c), Vec::<u8>::new());
    for v in 1..=9u8 {
        assert!(!c.contains(Digit(v)));
    }
    assert_eq!(Candidates::default(), c);
}

#[test]
fn full_set_has_every_digit() {
    let c = Candidates::all();
    assert_eq!(c.count(), 9);
    assert_eq!(members(&c), vec![1, 2, 3, 4, 5, 6, 7, 8, 9]);
    for v in 1..=9u8 {
        assert!(c.contains(Digit(v)));
    }
}

#[test]
fn add_and_remove_change_one_digit() {
    let mut c = Candidates::empty();
    c.add(Digit(4));
    c.add(Digit(9));
    c.add(Digit(1));
    c.add(Digit(4));
    assert_eq!(members(&c), vec![1, 4, 9]);
    assert_eq!(c.count(), 3);
    c.remove(Digit(4));
    assert_eq!(members(&c), vec![1, 9]);
    c.remove(Digit(4));
    assert_eq!(members(&c), vec![1, 9]);
    assert!(c.contains(Digit(9)));
    assert!(!c.contains(Digit(4)));
}

#[test]
fn toggle_flips_membership() {
    let mut c = Candidates::all();
    c.toggle(Digit(5));
    assert_eq!(members(&c), vec![1, 2, 3, 4, 6, 7, 8, 9]);
    c.toggle(Digit(5));
    assert_eq!(c, Candidates::all());
}

#[test]
fn digits_can_be_listed_again_and_again() {
    let mut c = Candidates::empty();
    c.add(Digit(8));
    c.add(Digit(2));
    assert_eq!(members(&c), vec![2, 8]);
    assert_eq!(members(&c), vec![2, 8]);
    assert_eq!(c.count(), c.digits().len());
}

#[test]
fn same_members_make_equal_sets() {
    let mut a = Candidates::empty();
    a.add(Digit(3));
    a.add(Digit(6));
    let mut b = Candidates::all();
    for v in [1u8, 2, 4, 5, 7, 8, 9] {
        b.remove(Digit(v));
    }
    assert_eq!(a, b);
}

#[test]
fn set_from_a_digit_holds_that_digit() {
    let c = Candidates::from(Digit(6));
    assert_eq!(members(&c), vec![6]);
    let none = Candidates::from(Digit(0));
    assert_eq!(none, Candidates::empty());
}
