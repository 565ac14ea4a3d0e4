use gridwords::dict::{add_all, DictError, Words};

fn chars(s: &str) -> Vec<char> {
    s.chars().collect()
}

#[test]
fn insert_marks_word_and_prefixes() {
    let mut words = Words::new();
    add_all(&mut words, chars("cat"));
    assert!(words.is_word(chars("cat")));
    assert!(words.is_prefix(chars("c")));
    assert!(words.is_prefix(chars("ca")));
    assert!(!words.is_prefix(chars("cat")));
    assert!(words.has(chars("cat")));
    assert!(words.has(chars("ca")));
    assert!(!words.has(chars("x")));
    assert!(!words.has(chars("cats")));
}

#[test]
fn word_can_also_be_prefix() {
    let mut words = Words::new();
    add_all(&mut words, chars("cat"));
    add_all(&mut words, chars("catalog"));
    assert!(words.is_word(chars("cat")));
    assert!(words.is_prefix(chars("cat")));
    assert!(words.is_word(chars("catalog")));
    assert!(!words.is_prefix(chars("catalog")));
}

#[test]
fn short_strings_are_never_words() {
    let mut words = Words::new();
    add_all(&mut words, chars("at"));
    add_all(&mut words, chars("a"));
    assert!(!words.is_word(chars("at")));
    assert!(!words.is_word(chars("a")));
    assert!(words.has(chars("at")));
    assert!(words.has(chars("a")));
}

#[test]
fn inserting_twice_equals_inserting_once() {
    let mut once = Words::new();
    add_all(&mut once, chars("cart"));
    let mut twice = Words::new();
    add_all(&mut twice, chars("cart"));
    add_all(&mut twice, chars("cart"));
    for probe in ["c", "ca", "car", "cart", "carts", "x", ""] {
        assert_eq!(once.has(chars(probe)), twice.has(chars(probe)));
        assert_eq!(once.is_word(chars(probe)), twice.is_word(chars(probe)));
        assert_eq!(once.is_prefix(chars(probe)), twice.is_prefix(chars(probe)));
    }
}

#[test]
fn pruning_query_rejects_dead_branch() {
    let mut words = Words::new();
    add_all(&mut words, chars("cat"));
    add_all(&mut words, chars("car"));
    add_all(&mut words, chars("cart"));
    assert!(!words.has(chars("cax")));
    assert!(words.has(chars("ca")));
    assert!(words.is_word(chars("car")));
    assert!(words.is_prefix(chars("car")));
    assert!(words.is_word(chars("cart")));
    assert!(!words.is_prefix(chars("cart")));
}

#[test]
fn from_lines_rejects_empty_source() {
    let lines: Vec<Vec<char>> = Vec::new();
    assert!(matches!(Words::from_lines(&lines), Err(DictError::EmptySource)));
}

#[test]
fn from_lines_builds_the_index() {
    let lines = vec![chars("cat"), chars("car")];
    let words = Words::from_lines(&lines).unwrap();
    assert!(words.is_word(chars("cat")));
    assert!(words.is_word(chars("car")));
    assert!(words.is_prefix(chars("ca")));
    assert!(!words.has(chars("dog")));
}
