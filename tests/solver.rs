use cryptogram::solver::{encode_word, render_word, search, solve, sort_longest_first, Letter};
use cryptogram::trie::{trie_insert, Trie};

fn dict_of(words: &[&str]) -> Trie {
    let mut t = Trie::new();
    for w in words {
        trie_insert(&mut t, w).unwrap();
    }
    t
}

fn puzzle_of(tokens: &[&str]) -> Vec<Vec<usize>> {
    tokens.iter().map(|t| encode_word(t).unwrap()).collect()
}

fn texts(sols: &[Vec<String>]) -> Vec<Vec<&str>> {
    sols.iter().map(|s| s.iter().map(|w| w.as_str()).collect()).collect()
}

#[test]
fn three_distinct_symbols_find_every_three_letter_word() {
    let dict = dict_of(&["CAT", "DOG"]);
    let sols = solve(&dict, &puzzle_of(&["XYZ"]), true);
    assert_eq!(texts(&sols), vec![vec!["CAT"], vec!["DOG"]]);
}

#[test]
fn first_solution_only_when_not_enumerating() {
    let dict = dict_of(&["CAT", "DOG"]);
    let sols = solve(&dict, &puzzle_of(&["XYZ"]), false);
    assert_eq!(texts(&sols), vec![vec!["CAT"]]);
}

#[test]
fn no_word_of_the_token_length_gives_no_solution() {
    let dict = dict_of(&["CAT", "DOG"]);
    assert!(solve(&dict, &puzzle_of(&["WXYZ"]), true).is_empty());
    assert!(solve(&dict, &puzzle_of(&["XY"]), true).is_empty());
}

#[test]
fn shared_symbol_is_assigned_consistently() {
    let dict = dict_of(&["AB", "CA"]);
    let sols = solve(&dict, &puzzle_of(&["XY", "ZX"]), true);
    assert_eq!(texts(&sols), vec![vec!["AB", "CA"]]);
    for s in &sols {
        assert_eq!(s[0].chars().next(), s[1].chars().nth(1));
    }
}

#[test]
fn distinct_symbols_get_distinct_letters() {
    let dict = dict_of(&["AA", "AB"]);
    let sols = solve(&dict, &puzzle_of(&["XY"]), true);
    assert_eq!(texts(&sols), vec![vec!["AB"]]);
    let sols = solve(&dict, &puzzle_of(&["XX"]), true);
    assert_eq!(texts(&sols), vec![vec!["AA"]]);
}

#[test]
fn every_bijection_is_enumerated() {
    let dict = dict_of(&["AB", "BA", "CD"]);
    let sols = solve(&dict, &puzzle_of(&["XY"]), true);
    assert_eq!(texts(&sols), vec![vec!["AB"], vec!["BA"], vec!["CD"]]);
    let sols = solve(&dict, &puzzle_of(&["XY", "YX"]), true);
    assert_eq!(texts(&sols), vec![vec!["AB", "BA"], vec!["BA", "AB"]]);
}

#[test]
fn solutions_are_in_original_word_order() {
    let dict = dict_of(&["A", "NO", "CAT"]);
    let sols = solve(&dict, &puzzle_of(&["X", "YZ", "QXW"]), true);
    assert_eq!(texts(&sols), vec![vec!["A", "NO", "CAT"]]);
}

#[test]
fn repeated_runs_give_the_same_order() {
    let dict = dict_of(&["AB", "BA", "CD", "DC", "ABC", "CAB"]);
    let puzzle = puzzle_of(&["XY", "XYZ"]);
    let first = solve(&dict, &puzzle, true);
    let second = solve(&dict, &puzzle, true);
    assert_eq!(first, second);
    assert_eq!(texts(&first), vec![vec!["AB", "ABC"]]);
}

#[test]
fn empty_puzzle_has_one_empty_solution() {
    let dict = dict_of(&["CAT"]);
    let sols = solve(&dict, &Vec::new(), true);
    assert_eq!(sols, vec![Vec::<String>::new()]);
}

#[test]
fn render_shows_unassigned_symbols_as_question_marks() {
    let mut table = vec![Letter::Unknown; 26];
    table[0] = Letter::Known(2);
    table[2] = Letter::Known(25);
    assert_eq!(render_word(&vec![0, 1, 2, 0], &table), "C?ZC");
    assert_eq!(render_word(&vec![], &table), "");
}

#[test]
fn tokens_encode_to_symbol_indices() {
    assert_eq!(encode_word("AZX"), Some(vec![0, 25, 23]));
    assert_eq!(encode_word(""), Some(vec![]));
    assert_eq!(encode_word("A-B"), None);
    assert_eq!(encode_word("ab"), None);
}

#[test]
fn words_sort_longest_first_stably() {
    let words = vec![vec![1], vec![2, 3, 4], vec![5, 6], vec![7, 8, 9], vec![]];
    let sorted = sort_longest_first(&words);
    assert_eq!(sorted, vec![vec![2, 3, 4], vec![7, 8, 9], vec![5, 6], vec![1], vec![]]);
}

#[test]
fn search_leaves_every_symbol_unassigned() {
    let dict = dict_of(&["AB", "BA", "CD"]);
    let words = puzzle_of(&["XY", "YX"]);
    let mut table = vec![Letter::Unknown; 26];
    let mut sols: Vec<Vec<String>> = Vec::new();
    let stop = search(0, 0, &dict, &dict, &words, [false; 26], &words, &mut table, true, &mut sols);
    assert!(!stop);
    assert_eq!(sols.len(), 2);
    assert_eq!(table, vec![Letter::Unknown; 26]);
    // and with no solution at all
    let words = puzzle_of(&["XYZ"]);
    let mut sols: Vec<Vec<String>> = Vec::new();
    search(0, 0, &dict, &dict, &words, [false; 26], &words, &mut table, true, &mut sols);
    assert!(sols.is_empty());
    assert_eq!(table, vec![Letter::Unknown; 26]);
}

#[test]
fn search_stops_after_the_first_solution_when_asked() {
    let dict = dict_of(&["AB", "BA", "CD"]);
    let words = puzzle_of(&["XY"]);
    let mut table = vec![Letter::Unknown; 26];
    let mut sols: Vec<Vec<String>> = Vec::new();
    let stop = search(0, 0, &dict, &dict, &words, [false; 26], &words, &mut table, false, &mut sols);
    assert!(stop);
    assert_eq!(texts(&sols), vec![vec!["AB"]]);
    assert_eq!(table, vec![Letter::Unknown; 26]);
}
