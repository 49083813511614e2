use docsearch::lexer::mark;
use docsearch::scan::{run_length, Class, Kind, Mark};

const LETTER: Mark = Mark { space: false, letter: true, digit: false };
const DIGIT: Mark = Mark { space: false, letter: false, digit: true };
const SPACE: Mark = Mark { space: true, letter: false, digit: false };
const OTHER: Mark = Mark { space: false, letter: false, digit: false };
const LETTER_AND_DIGIT: Mark = Mark { space: false, letter: true, digit: true };

#[test]
fn a_run_is_the_longest_prefix_of_its_class() {
    let marks = [LETTER, LETTER, SPACE, LETTER, DIGIT];
    assert_eq!(run_length(&marks, Class::Letter), 2);
    assert_eq!(run_length(&marks, Class::Space), 0);
    assert_eq!(run_length(&marks, Class::Digit), 0);
    assert_eq!(run_length(&marks[2..], Class::Space), 1);
    assert_eq!(run_length(&marks[4..], Class::Digit), 1);
}

#[test]
fn a_run_may_be_empty_or_take_everything() {
    assert_eq!(run_length(&[], Class::Letter), 0);
    assert_eq!(run_length(&[SPACE, SPACE, SPACE], Class::Space), 3);
    assert_eq!(run_length(&[OTHER], Class::Space), 0);
}

#[test]
fn a_character_of_two_classes_goes_on_either_run() {
    assert_eq!(run_length(&[LETTER, LETTER_AND_DIGIT, LETTER, DIGIT], Class::Letter), 3);
    assert_eq!(run_length(&[DIGIT, LETTER_AND_DIGIT, DIGIT, LETTER], Class::Digit), 3);
}

#[test]
fn the_first_character_decides_the_kind_of_token() {
    assert!(matches!(LETTER.kind(), Kind::Word));
    assert!(matches!(DIGIT.kind(), Kind::Number));
    assert!(matches!(OTHER.kind(), Kind::Symbol));
    assert!(matches!(SPACE.kind(), Kind::Symbol));
    assert!(matches!(LETTER_AND_DIGIT.kind(), Kind::Word));
}

#[test]
fn a_mark_says_which_classes_hold() {
    assert!(LETTER.is(Class::Letter));
    assert!(!LETTER.is(Class::Digit));
    assert!(!LETTER.is(Class::Space));
    assert!(DIGIT.is(Class::Digit));
    assert!(SPACE.is(Class::Space));
    assert!(!OTHER.is(Class::Letter) && !OTHER.is(Class::Digit) && !OTHER.is(Class::Space));
}

#[test]
fn characters_are_marked_by_their_unicode_classes() {
    let a = mark('a');
    assert!(a.letter && !a.digit && !a.space);
    let seven = mark('7');
    assert!(!seven.letter && seven.digit && !seven.space);
    let blank = mark(' ');
    assert!(!blank.letter && !blank.digit && blank.space);
    let newline = mark('\n');
    assert!(newline.space);
    let plus = mark('+');
    assert!(!plus.letter && !plus.digit && !plus.space);
    let kanji = mark('\u{4eac}');
    assert!(kanji.letter && !kanji.digit);
    let roman_eight = mark('\u{2167}');
    assert!(roman_eight.letter && roman_eight.digit);
    let no_break_space = mark('\u{a0}');
    assert!(no_break_space.space);
}
