use castavox_core::canon::{interlinear_book, is_deuterocanonical};

#[test]
fn resolves_the_sixty_six() {
    assert_eq!(interlinear_book("Genesis"), Some(1));
    assert_eq!(interlinear_book("John"), Some(43));
    assert_eq!(interlinear_book("Revelation"), Some(66));
}

#[test]
fn a_catholic_numbering_does_not_shift_the_interlinear() {
    assert_eq!(interlinear_book("John"), Some(43));
    assert_ne!(interlinear_book("John"), Some(50));
}

#[test]
fn the_deuterocanon_has_no_interlinear() {
    for book in ["Tobit", "Judith", "Wisdom", "Sirach", "Baruch", "1 Maccabees"] {
        assert_eq!(interlinear_book(book), None, "{book}");
        assert!(is_deuterocanonical(book));
    }
}

#[test]
fn matching_is_forgiving_about_case_and_spaces() {
    assert_eq!(interlinear_book("  song of solomon "), Some(22));
}

#[test]
fn only_what_the_deuterocanon_adds_is_deuterocanonical() {
    assert!(is_deuterocanonical(" 2 maccabees "));
    for book in ["Hezekiah", "Genesis", "Judges", ""] {
        assert!(!is_deuterocanonical(book), "{book}");
    }
}
