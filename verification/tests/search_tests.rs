use gridwords::dict::{add_all, Words};
use gridwords::grid::{Board, Point};
use gridwords::rank::rank;

fn chars(s: &str) -> Vec<char> {
    s.chars().collect()
}

fn board(strs: &[&str]) -> Board {
    let rows: Vec<Vec<char>> = strs.iter().map(|s| s.chars().collect()).collect();
    Board::new(rows).unwrap()
}

fn dictionary(words: &[&str]) -> Words {
    let mut d = Words::new();
    for w in words {
        add_all(&mut d, chars(w));
    }
    d
}

fn spelled(b: &Board, paths: &[Vec<Point>]) -> Vec<String> {
    paths
        .iter()
        .map(|p| b.to_chars(p).into_iter().collect())
        .collect()
}

#[test]
fn end_to_end_adjacency_gates_discovery() {
    let words = dictionary(&["cat", "car", "art"]);
    let b = board(&["cat", "arx"]);
    let found = b.find_words(&words);
    let mut spellings = spelled(&b, &found);
    spellings.sort();
    // "cat" runs along the top row; "car" and "art" are each traceable two
    // ways through the adjacent 'a' cells; nothing else is reachable.
    assert_eq!(spellings, ["art", "art", "car", "car", "cat"]);
}

#[test]
fn dead_branches_yield_nothing() {
    let words = dictionary(&["cat", "car", "cart"]);
    let b = board(&["cax"]);
    let found = b.find_words(&words);
    assert!(found.is_empty());
}

#[test]
fn single_row_finds_words_along_it() {
    let words = dictionary(&["cat", "car", "cart"]);
    let b = board(&["cart"]);
    let found = b.find_words(&words);
    let ranked = rank(found);
    let spellings = spelled(&b, &ranked);
    assert_eq!(spellings, ["cart", "car"]);
}

#[test]
fn short_spellings_are_not_recorded() {
    let words = dictionary(&["ab"]);
    let b = board(&["ab"]);
    let found = b.find_words(&words);
    assert!(found.is_empty());
}

#[test]
fn paths_never_reuse_a_cell() {
    let words = dictionary(&["aaaa"]);
    let b = board(&["aaa"]);
    let found = b.find_words(&words);
    // Only three cells exist, so the four-letter word can never be traced.
    assert!(found.is_empty());
}

#[test]
fn every_start_cell_contributes() {
    let words = dictionary(&["aba", "bab"]);
    let b = board(&["ab"]);
    let found = b.find_words(&words);
    // Two cells cannot spell a three-letter word without reuse.
    assert!(found.is_empty());
    let b2 = board(&["ab", "ba"]);
    let found2 = b2.find_words(&words);
    let mut spellings = spelled(&b2, &found2);
    spellings.sort();
    assert!(spellings.contains(&"aba".to_string()));
    assert!(spellings.contains(&"bab".to_string()));
}

#[test]
fn word_walk_restores_the_path_and_records_copies() {
    let words = dictionary(&["cat"]);
    let b = board(&["cat"]);
    let seed = Point { x: 0, y: 0 };
    let mut path = vec![seed];
    let mut known: Vec<Vec<Point>> = Vec::new();
    b.word_walk(&mut path, &mut known, &seed, &words);
    // The live path is backtracked to its seed; the discovery was captured
    // by value.
    assert_eq!(path, vec![seed]);
    assert_eq!(known.len(), 1);
    assert_eq!(
        known[0],
        vec![
            Point { x: 0, y: 0 },
            Point { x: 1, y: 0 },
            Point { x: 2, y: 0 }
        ]
    );
}
