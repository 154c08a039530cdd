use cryptogram::capacity::get_number_of_characters_per_number_count;
use cryptogram::solver::{parse_puzzle, parse_wordlist, solve, backtrack_recursive};
use cryptogram::trie::construct_tree;
use cryptogram::validator::is_valid;

fn cv(s: &str) -> Vec<char> {
    s.chars().collect()
}

fn dict(words: &[&str]) -> Vec<Vec<char>> {
    words.iter().map(|w| cv(w)).collect()
}

#[test]
fn trie_prefixes_of_inserted_words() {
    let tree = construct_tree(&dict(&["cat", "car"]));
    // every non-empty prefix of an inserted word is valid
    assert!(tree.contains_prefix(&cv("c")));
    assert!(tree.contains_prefix(&cv("ca")));
    assert!(tree.contains_prefix(&cv("cat")));
    assert!(tree.contains_prefix(&cv("car")));
    // anything that prefixes no inserted word is invalid
    assert!(!tree.contains_prefix(&cv("cz")));
    assert!(!tree.contains_prefix(&cv("x")));
    assert!(!tree.contains_prefix(&cv("cata")));
}

#[test]
fn trie_word_membership() {
    let tree = construct_tree(&dict(&["cat", "car", "ca"]));
    assert!(tree.contains_word(&cv("cat")));
    assert!(tree.contains_word(&cv("ca")));
    assert!(!tree.contains_word(&cv("c")));
    assert!(!tree.contains_word(&cv("cab")));
    let small = construct_tree(&dict(&["cat", "car"]));
    assert!(!small.contains_word(&cv("ca")));
}

#[test]
fn trie_handles_duplicates_and_empty_list() {
    let tree = construct_tree(&dict(&["cat", "cat"]));
    assert!(tree.contains_word(&cv("cat")));
    let empty = construct_tree(&dict(&[]));
    assert!(!empty.contains_prefix(&cv("a")));
    assert!(empty.contains_prefix(&cv("")));
}

#[test]
fn capacity_of_reference_puzzle() {
    let counts = get_number_of_characters_per_number_count("775237 8417415532 4831582");
    // digit 7 occurs 4 times; capacity is 4 / 7 rounded down
    assert_eq!(counts[7], 4 / 7);
    assert_eq!(counts, vec![0, 3, 1, 1, 0, 0, 0, 0, 0, 0]);
}

#[test]
fn capacity_of_empty_and_single() {
    assert_eq!(get_number_of_characters_per_number_count(""), vec![0; 10]);
    // digit 1 once: capacity 1; all others zero
    assert_eq!(
        get_number_of_characters_per_number_count("1"),
        vec![0, 1, 0, 0, 0, 0, 0, 0, 0, 0]
    );
}

#[test]
fn validator_rejects_capacity_violation() {
    let tree = construct_tree(&dict(&["ab", "aa"]));
    let nums = vec![vec![2u8, 2u8]];
    let mut caps = vec![9u8; 10];
    caps[2] = 1;
    // two occurrences of digit 2 holding different letters exceed capacity 1
    assert!(!is_valid(&vec![cv("ab")], &nums, &tree, &caps));
    // the same letter on both occurrences is accepted
    assert!(is_valid(&vec![cv("aa")], &nums, &tree, &caps));
}

#[test]
fn validator_never_consults_digit_zero_capacity() {
    let tree = construct_tree(&dict(&["ab"]));
    let nums = vec![vec![0u8, 0u8]];
    let mut caps = vec![9u8; 10];
    caps[0] = 0;
    // digit 0 cells hold two distinct letters against a zero entry: accepted
    assert!(is_valid(&vec![cv("ab")], &nums, &tree, &caps));
}

#[test]
fn validator_rejects_invalid_prefix() {
    let tree = construct_tree(&dict(&["cat", "car"]));
    let caps = vec![9u8; 10];
    let nums = vec![vec![1u8, 2u8, 3u8]];
    // "cz" prefixes no dictionary word
    assert!(!is_valid(&vec![vec!['c', 'z', ' ']], &nums, &tree, &caps));
    // "ca" does
    assert!(is_valid(&vec![vec!['c', 'a', ' ']], &nums, &tree, &caps));
}

#[test]
fn validator_rejects_incomplete_earlier_word() {
    let tree = construct_tree(&dict(&["a", "b"]));
    let caps = vec![9u8; 10];
    let nums = vec![vec![1u8], vec![2u8]];
    // the first word is still blank while the second already holds a letter
    assert!(!is_valid(&vec![vec![' '], vec!['a']], &nums, &tree, &caps));
}

#[test]
fn validator_rejects_finished_non_word() {
    let tree = construct_tree(&dict(&["cab"]));
    let caps = vec![9u8; 10];
    let nums = vec![vec![1u8, 2u8]];
    // "ca" is a valid prefix but not a dictionary word, and the word is full
    assert!(!is_valid(&vec![cv("ca")], &nums, &tree, &caps));
}

#[test]
fn validator_accepts_blank_solution() {
    let tree = construct_tree(&dict(&["cat"]));
    let caps = vec![0u8; 10];
    let nums = vec![vec![1u8, 2u8, 3u8]];
    assert!(is_valid(&vec![vec![' ', ' ', ' ']], &nums, &tree, &caps));
}

#[test]
fn backtrack_single_letter_puzzle() {
    let tree = construct_tree(&dict(&["a"]));
    let nums = vec![vec![2u8]];
    let mut caps = vec![0u8; 10];
    caps[2] = 1;
    let mut solution = vec![vec![' ']];
    let found = backtrack_recursive(&mut solution, &nums, &tree, &caps, 0, 0);
    assert!(found);
    assert_eq!(solution, vec![vec!['a']]);
}

#[test]
fn backtrack_failure_restores_solution() {
    let tree = construct_tree(&dict(&["bb"]));
    let nums = vec![vec![1u8, 2u8]];
    let mut caps = vec![9u8; 10];
    caps[1] = 0; // digit 1 may take no letter at all
    let mut solution = vec![vec![' ', ' ']];
    let found = backtrack_recursive(&mut solution, &nums, &tree, &caps, 0, 0);
    assert!(!found);
    assert_eq!(solution, vec![vec![' ', ' ']]);
}

#[test]
fn solve_two_words_shared_digit() {
    let outcome = solve("12 21", "no\non\n");
    assert_eq!(outcome, Some(vec![cv("no"), cv("on")]));
}

#[test]
fn solve_single_token_capacity_bound() {
    // digit 2 occurs once, so its capacity is 1 / 2 = 0: no letter fits
    assert_eq!(solve("2", "a\n"), None);
    // digit 1 occurs once with capacity 1 / 1 = 1: the single word fits
    assert_eq!(solve("1", "a\n"), Some(vec![cv("a")]));
}

#[test]
fn solve_is_deterministic() {
    let first = solve("12 21", "no\non\nat\nta\n");
    let second = solve("12 21", "no\non\nat\nta\n");
    assert_eq!(first, second);
    let third = solve("111", "zzz\n");
    let fourth = solve("111", "zzz\n");
    assert_eq!(third, fourth);
}

#[test]
fn solve_no_word_of_token_length() {
    // the dictionary holds no three-letter word
    assert_eq!(solve("111", "ab\ncd\nabcd\n"), None);
}

#[test]
fn solve_rejects_malformed_puzzle() {
    assert_eq!(solve("12x", "ab\n"), None);
    assert_eq!(solve("", "ab\n"), None);
    assert_eq!(solve("   ", "ab\n"), None);
}

#[test]
fn parse_puzzle_tokens() {
    assert_eq!(
        parse_puzzle(" 12  7 "),
        Some(vec![vec![1u8, 2u8], vec![7u8]])
    );
    assert_eq!(parse_puzzle("1a"), None);
    assert_eq!(parse_puzzle(""), None);
    assert_eq!(parse_puzzle("905"), Some(vec![vec![9u8, 0u8, 5u8]]));
}

#[test]
fn solve_accepts_tab_and_newline_separators() {
    assert_eq!(solve("11\t11\n", "ab\ncd\n"), Some(vec![cv("ab"), cv("ab")]));
}

#[test]
fn solve_backtracks_over_dead_ends() {
    // the first completion of the first token ("aa") leaves no way to finish
    // the second token, so the search must back up into the first word
    let outcome = solve("12 112", "aa\nab\ncdb\n");
    assert_eq!(outcome, Some(vec![cv("ab"), cv("cdb")]));
}

#[test]
fn parse_wordlist_filters_and_lowercases() {
    let words = parse_wordlist("Cat\ndog-\n\nBIRD\nax");
    assert_eq!(words, vec![cv("cat"), cv("bird"), cv("ax")]);
}
