use cryptogram::filtering::{
    filter_words_globally, further_refine_possible_words, refine_possible_words,
    update_possible_letters, Word,
};

fn cv(s: &str) -> Vec<char> {
    s.chars().collect()
}

fn all_letters() -> Vec<char> {
    "abcdefghijklmnopqrstuvwxyz".chars().collect()
}

#[test]
fn global_filter_keeps_matching_lowercase_words() {
    let nums = vec![vec![1u8, 2u8]];
    let mut words = vec![cv("ab"), cv("abc"), cv("aB"), cv("xy")];
    filter_words_globally(&nums, &mut words);
    assert_eq!(words, vec![cv("ab"), cv("xy")]);
}

#[test]
fn global_filter_empty_tokens_drop_everything() {
    let nums: Vec<Vec<u8>> = Vec::new();
    let mut words = vec![cv("ab")];
    filter_words_globally(&nums, &mut words);
    assert!(words.is_empty());
}

#[test]
fn refine_enforces_seven_consistency() {
    let poss = vec![all_letters(); 10];
    let mut input = vec![Word {
        numbers: vec![7u8, 7u8],
        possible_words: vec![cv("aa"), cv("ab")],
    }];
    refine_possible_words(&mut input, &poss);
    assert_eq!(input[0].possible_words, vec![cv("aa")]);
}

#[test]
fn refine_enforces_one_distinctness() {
    let poss = vec![all_letters(); 10];
    let mut input = vec![Word {
        numbers: vec![1u8, 1u8],
        possible_words: vec![cv("aa"), cv("ab")],
    }];
    refine_possible_words(&mut input, &poss);
    assert_eq!(input[0].possible_words, vec![cv("ab")]);
}

#[test]
fn refine_checks_allowed_letters() {
    let mut poss = vec![all_letters(); 10];
    poss[3] = vec!['x'];
    let mut input = vec![Word {
        numbers: vec![3u8],
        possible_words: vec![cv("x"), cv("y")],
    }];
    refine_possible_words(&mut input, &poss);
    assert_eq!(input[0].possible_words, vec![cv("x")]);
}

#[test]
fn update_collects_letters_per_digit() {
    let input = vec![Word {
        numbers: vec![7u8, 2u8],
        possible_words: vec![cv("ab"), cv("cd"), cv("ad")],
    }];
    let mut poss: Vec<Vec<char>> = vec![Vec::new(); 10];
    update_possible_letters(&input, &mut poss);
    assert_eq!(poss.len(), 10);
    // each digit's letters come back sorted ascending and duplicate-free
    assert_eq!(poss[7], vec!['a', 'c']);
    assert_eq!(poss[2], vec!['b', 'd']);
    assert!(poss[5].is_empty());
}

#[test]
fn further_refine_drops_disallowed_letters() {
    let mut poss = vec![all_letters(); 10];
    poss[4] = vec!['p', 'q'];
    let mut input = vec![Word {
        numbers: vec![4u8, 4u8],
        possible_words: vec![cv("pq"), cv("pz"), cv("qq")],
    }];
    further_refine_possible_words(&mut input, &poss);
    assert_eq!(input[0].possible_words, vec![cv("pq"), cv("qq")]);
}
