use docsearch::lexer::Lexer;

fn chars(text: &str) -> Vec<char> {
    text.chars().collect()
}

fn terms(text: &str) -> Vec<String> {
    let content = chars(text);
    Lexer::new(&content).collect()
}

#[test]
fn empty_text_has_no_terms() {
    assert_eq!(terms(""), Vec::<String>::new());
}

#[test]
fn white_space_alone_has_no_terms() {
    assert_eq!(terms(" \t\n  \r\n"), Vec::<String>::new());
    let content = chars("   ");
    let mut lexer = Lexer::new(&content);
    assert_eq!(lexer.next_token(), None);
    assert_eq!(lexer.next_token(), None);
}

#[test]
fn words_are_split_at_white_space() {
    assert_eq!(terms("the cat sat on the mat"), vec!["the", "cat", "sat", "on", "the", "mat"]);
}

#[test]
fn words_are_lower_cased() {
    assert_eq!(terms("Hello WORLD"), vec!["hello", "world"]);
}

#[test]
fn words_are_stemmed() {
    assert_eq!(terms("fruitlessly"), vec!["fruitless"]);
    assert_eq!(terms("running cats"), vec!["run", "cat"]);
}

#[test]
fn three_spellings_of_one_word_give_one_term() {
    let found = terms("Cats CATS cats");
    assert_eq!(found.len(), 3);
    assert_eq!(found[0], found[1]);
    assert_eq!(found[1], found[2]);
    assert_eq!(found[0], "cat");
}

#[test]
fn numbers_are_kept_verbatim() {
    assert_eq!(terms("007 42"), vec!["007", "42"]);
}

#[test]
fn letters_and_digits_part_without_white_space() {
    assert_eq!(terms("abc123def"), vec!["abc", "123", "def"]);
}

#[test]
fn other_characters_stand_alone() {
    assert_eq!(terms("a+b"), vec!["a", "+", "b"]);
    assert_eq!(terms("!?"), vec!["!", "?"]);
    assert_eq!(terms("(1,2)"), vec!["(", "1", ",", "2", ")"]);
}

#[test]
fn symbols_keep_their_case_and_form() {
    assert_eq!(terms("x_Y"), vec!["x", "_", "y"]);
    assert_eq!(terms("3.14"), vec!["3", ".", "14"]);
}

#[test]
fn only_ascii_letters_are_lower_cased() {
    assert_eq!(terms("\u{c9}t\u{e9}"), vec!["\u{c9}t\u{e9}"]);
}

#[test]
fn next_token_walks_the_text() {
    let content = chars("  one 2 ;");
    let mut lexer = Lexer::new(&content);
    assert_eq!(lexer.next_token(), Some("one".to_string()));
    assert_eq!(lexer.next_token(), Some("2".to_string()));
    assert_eq!(lexer.next_token(), Some(";".to_string()));
    assert_eq!(lexer.next_token(), None);
}

#[test]
fn tokenizing_twice_gives_the_same_terms() {
    let text = "Indexing the indexed indexes, 12 times; again & again!";
    assert_eq!(terms(text), terms(text));
    let content = chars(text);
    let first = Lexer::new(&content).collect();
    let second = Lexer::new(&content).collect();
    assert_eq!(first, second);
}

#[test]
fn a_letter_number_goes_with_the_run_it_stands_in() {
    assert_eq!(terms("1\u{2167}"), vec!["1\u{2167}"]);
    assert_eq!(terms("a\u{2167}1"), vec!["a\u{2167}", "1"]);
}

#[test]
fn unicode_white_space_parts_tokens() {
    assert_eq!(terms("one\u{a0}two\u{2003}three"), vec!["one", "two", "three"]);
}

#[test]
fn words_of_any_script_are_stemmed_to_one_term() {
    let affixes = ["", "s", "ing", "ed", "ly", "ies", "ational", "fulness", "y", "eed", "sses"];
    let mut code: u32 = 0x80;
    let mut words = 0;
    while code < 0x3100 {
        if let Some(c) = char::from_u32(code) {
            if c.is_alphabetic() {
                for affix in affixes {
                    let shapes = [
                        format!("{c}{affix}"),
                        format!("{affix}{c}"),
                        format!("a{c}{affix}"),
                        format!("{c}{c}{c}{affix}"),
                    ];
                    for word in shapes {
                        assert_eq!(terms(&word).len(), 1);
                        words += 1;
                    }
                }
            }
        }
        code += 3;
    }
    assert!(words > 10000);
}
