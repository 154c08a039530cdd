//! Backtracking search over letter assignments, and the `solve` entry point
//! that parses the puzzle and dictionary texts and drives the search.

use vstd::prelude::*;
use crate::capacity::{count_digit, digit_val, get_number_of_characters_per_number_count,
    is_digit_char, is_ws_char};
use crate::trie::{construct_tree, represents, Node};
use crate::validator::{aligned, counts_ok, first_blank_from, fully_placed, has_placed, is_valid,
    lemma_first_blank_at, lemma_observed_contains, lemma_observed_elim, observed, placed_prefix,
    spec_is_valid, staircase, word_ok, words_ok};

verus! {

/// Tokens accumulated after scanning the first `k` puzzle characters:
/// finished tokens, and the token still open.
pub open spec fn scan_tokens(s: Seq<char>, k: int) -> (Seq<Seq<u8>>, Seq<u8>)
    decreases k,
{
    if k <= 0 || k > s.len() {
        (Seq::<Seq<u8>>::empty(), Seq::<u8>::empty())
    } else {
        let prev = scan_tokens(s, k - 1);
        let c = s[k - 1];
        if is_ws_char(c) {
            if prev.1.len() > 0 {
                (prev.0.push(prev.1), Seq::<u8>::empty())
            } else {
                prev
            }
        } else {
            (prev.0, prev.1.push(digit_val(c)))
        }
    }
}

/// The whitespace-separated digit tokens of the puzzle text.
pub open spec fn puzzle_tokens(s: Seq<char>) -> Seq<Seq<u8>> {
    let st = scan_tokens(s, s.len() as int);
    if st.1.len() > 0 {
        st.0.push(st.1)
    } else {
        st.0
    }
}

/// A puzzle text holds only digits and whitespace, and at least one digit.
pub open spec fn puzzle_well_formed(s: Seq<char>) -> bool {
    &&& forall|i: int| 0 <= i < s.len() ==> is_digit_char(#[trigger] s[i]) || is_ws_char(s[i])
    &&& exists|i: int| 0 <= i < s.len() && is_digit_char(#[trigger] s[i])
}

/// The capacity table derived from the puzzle text: occurrences of each
/// digit 1 to 9 divided by the digit itself, and zero for digit 0.
pub open spec fn spec_capacities(s: Seq<char>) -> Seq<u8> {
    Seq::new(10, |d: int| if d == 0 { 0u8 } else { (count_digit(s, d as u8) / (d as nat)) as u8 })
}

/// Parses the puzzle text into its digit tokens; fails exactly when the text
/// holds a character that is neither a digit nor whitespace, or no digit.
pub fn parse_puzzle(input: &str) -> (r: Option<Vec<Vec<u8>>>)
    ensures
        match r {
            Some(words) => puzzle_well_formed(input@) && words.deep_view() == puzzle_tokens(
                input@,
            ),
            None => !puzzle_well_formed(input@),
        },
{
    let n = input.unicode_len();
    let mut words: Vec<Vec<u8>> = Vec::new();
    let mut cur: Vec<u8> = Vec::new();
    let mut seen: bool = false;
    let mut i: usize = 0;
    while i < n
        invariant
            i <= n,
            n == input@.len(),
            words.deep_view() == scan_tokens(input@, i as int).0,
            cur@ == scan_tokens(input@, i as int).1,
            forall|m: int| 0 <= m < i
                ==> is_digit_char(#[trigger] input@[m]) || is_ws_char(input@[m]),
            seen <==> exists|m: int| 0 <= m < i && is_digit_char(#[trigger] input@[m]),
        decreases n - i,
    {
        let c = input.get_char(i);
        let u = c as u32;
        if 48 <= u && u <= 57 {
            cur.push((u - 48) as u8);
            seen = true;
            proof {
                assert(is_digit_char(input@[i as int]));
            }
        } else if c == ' ' || c == '\t' || c == '\n' || c == '\r' {
            if cur.len() > 0 {
                let done = cur;
                cur = Vec::new();
                words.push(done);
                proof {
                    assert(words.deep_view() =~~= scan_tokens(input@, i as int).0.push(done@));
                }
            }
        } else {
            proof {
                assert(!is_digit_char(input@[i as int]) && !is_ws_char(input@[i as int]));
            }
            return None;
        }
        proof {
            if seen {
                let m = choose|m: int| 0 <= m <= i && is_digit_char(#[trigger] input@[m]);
            }
        }
        i = i + 1;
    }
    if !seen {
        proof {
            assert(forall|m: int| 0 <= m < n ==> !is_digit_char(#[trigger] input@[m]));
        }
        return None;
    }
    if cur.len() > 0 {
        let done = cur;
        words.push(done);
        proof {
            assert(words.deep_view() =~~= scan_tokens(input@, n as int).0.push(done@));
        }
    }
    proof {
        let m = choose|m: int| 0 <= m < n && is_digit_char(#[trigger] input@[m]);
        assert(puzzle_well_formed(input@));
    }
    Some(words)
}

/// Line break characters separating dictionary entries.
pub open spec fn is_line_break(c: char) -> bool {
    c == '\n' || c == '\r'
}

/// ASCII letter.
pub open spec fn is_alpha_char(c: char) -> bool {
    (65 <= c as u32 <= 90) || (97 <= c as u32 <= 122)
}

/// Lower-case image of an ASCII character.
pub open spec fn to_lower_char(c: char) -> char {
    if 65 <= c as u32 <= 90 {
        ((c as u32) + 32) as char
    } else {
        c
    }
}

/// A word made only of ASCII letters.
pub open spec fn all_alpha(w: Seq<char>) -> bool {
    forall|i: int| 0 <= i < w.len() ==> is_alpha_char(#[trigger] w[i])
}

/// The word lower-cased character by character.
pub open spec fn lower_word(w: Seq<char>) -> Seq<char> {
    w.map_values(|c: char| to_lower_char(c))
}

/// Lines accumulated after scanning the first `k` dictionary characters:
/// finished non-empty lines, and the line still open.
pub open spec fn scan_lines(s: Seq<char>, k: int) -> (Seq<Seq<char>>, Seq<char>)
    decreases k,
{
    if k <= 0 || k > s.len() {
        (Seq::<Seq<char>>::empty(), Seq::<char>::empty())
    } else {
        let prev = scan_lines(s, k - 1);
        let c = s[k - 1];
        if is_line_break(c) {
            if prev.1.len() > 0 {
                (prev.0.push(prev.1), Seq::<char>::empty())
            } else {
                prev
            }
        } else {
            (prev.0, prev.1.push(c))
        }
    }
}

/// The non-empty lines of the dictionary text.
pub open spec fn text_lines(s: Seq<char>) -> Seq<Seq<char>> {
    let st = scan_lines(s, s.len() as int);
    if st.1.len() > 0 {
        st.0.push(st.1)
    } else {
        st.0
    }
}

/// The retained dictionary: purely alphabetic lines, lower-cased.
pub open spec fn kept_words(ls: Seq<Seq<char>>) -> Seq<Seq<char>> {
    ls.filter(|w: Seq<char>| all_alpha(w)).map_values(|w: Seq<char>| lower_word(w))
}

/// The dictionary derived from the raw text: its non-empty purely alphabetic
/// lines, lower-cased.
pub open spec fn dictionary_words(s: Seq<char>) -> Seq<Seq<char>> {
    kept_words(text_lines(s))
}

/// Appending a line to the scanned prefix extends the kept dictionary by its
/// lower-cased form exactly when it is purely alphabetic.
proof fn lemma_kept_push(ls: Seq<Seq<char>>, t: Seq<char>)
    ensures
        all_alpha(t) ==> kept_words(ls.push(t)) == kept_words(ls).push(lower_word(t)),
        !all_alpha(t) ==> kept_words(ls.push(t)) == kept_words(ls),
{
    broadcast use Seq::lemma_filter_push;

    let p = |w: Seq<char>| all_alpha(w);
    let f = |w: Seq<char>| lower_word(w);
    if p(t) {
        assert(ls.push(t).filter(p) == ls.filter(p).push(t));
        assert(ls.filter(p).push(t).map_values(f) =~= ls.filter(p).map_values(f).push(f(t)));
    } else {
        assert(ls.push(t).filter(p) == ls.filter(p));
    }
}

/// Parses and filters the dictionary text: keeps each non-empty line made
/// only of ASCII letters, lower-cased.
pub fn parse_wordlist(wordlist: &str) -> (words: Vec<Vec<char>>)
    ensures
        words.deep_view() == dictionary_words(wordlist@),
{
    let n = wordlist.unicode_len();
    let mut words: Vec<Vec<char>> = Vec::new();
    let mut cur: Vec<char> = Vec::new();
    let mut low: Vec<char> = Vec::new();
    let mut alpha: bool = true;
    let mut i: usize = 0;
    while i < n
        invariant
            i <= n,
            n == wordlist@.len(),
            words.deep_view() == kept_words(scan_lines(wordlist@, i as int).0),
            cur@ == scan_lines(wordlist@, i as int).1,
            low@ == lower_word(cur@),
            alpha == all_alpha(cur@),
        decreases n - i,
    {
        let c = wordlist.get_char(i);
        if c == '\n' || c == '\r' {
            if cur.len() > 0 {
                proof {
                    lemma_kept_push(scan_lines(wordlist@, i as int).0, cur@);
                }
                if alpha {
                    words.push(low);
                    proof {
                        assert(words.deep_view() =~~= kept_words(
                            scan_lines(wordlist@, i as int).0,
                        ).push(lower_word(cur@)));
                    }
                } else {
                }
                cur = Vec::new();
                low = Vec::new();
                alpha = true;
            }
        } else {
            let u = c as u32;
            let isup = 65 <= u && u <= 90;
            let islow = 97 <= u && u <= 122;
            let lc = if isup { ((u + 32) as u8) as char } else { c };
            proof {
                assert(lc == to_lower_char(c));
            }
            cur.push(c);
            low.push(lc);
            alpha = alpha && (isup || islow);
            proof {
                assert(low@ =~= lower_word(cur@)) by {
                    assert(lower_word(scan_lines(wordlist@, i as int).1).push(to_lower_char(c))
                        =~= lower_word(scan_lines(wordlist@, i as int).1.push(c)));
                }
                assert(alpha == all_alpha(cur@)) by {
                    let prev = scan_lines(wordlist@, i as int).1;
                    if all_alpha(prev) && is_alpha_char(c) {
                        assert forall|m: int| 0 <= m < prev.push(c).len()
                            implies is_alpha_char(#[trigger] prev.push(c)[m]) by {
                            if m < prev.len() {
                                assert(prev.push(c)[m] == prev[m]);
                            }
                        }
                    }
                    if !all_alpha(prev) {
                        let m = choose|m: int| 0 <= m < prev.len() && !is_alpha_char(
                            #[trigger] prev[m],
                        );
                        assert(prev.push(c)[m] == prev[m]);
                    }
                    if !is_alpha_char(c) {
                        assert(prev.push(c)[prev.len() as int] == c);
                    }
                }
            }
        }
        i = i + 1;
    }
    if cur.len() > 0 {
        proof {
            lemma_kept_push(scan_lines(wordlist@, n as int).0, cur@);
        }
        if alpha {
            words.push(low);
            proof {
                assert(words.deep_view() =~~= kept_words(scan_lines(wordlist@, n as int).0).push(
                    lower_word(cur@),
                ));
            }
        }
    }
    words
}

/// What `solve` guarantees of its outcome: a returned solution answers the
/// puzzle, and no solution is returned exactly when the puzzle text is
/// malformed or nothing answers it.
pub open spec fn outcome_ok(o: Option<Seq<Seq<char>>>, inp: Seq<char>, wl: Seq<char>) -> bool {
    match o {
        Some(sol) => puzzle_well_formed(inp) && solves(
            sol,
            puzzle_tokens(inp),
            dictionary_words(wl),
            spec_capacities(inp),
        ),
        None => !puzzle_well_formed(inp) || (forall|c: Seq<Seq<char>>|
            !solves(c, puzzle_tokens(inp), dictionary_words(wl), spec_capacities(inp))),
    }
}

/// Whether a puzzle is solved is a function of the puzzle and dictionary
/// texts alone: any two outcomes meeting `solve`'s contract on the same
/// inputs either both carry a solution or both report none.
pub proof fn lemma_outcome_agreement(
    o1: Option<Seq<Seq<char>>>,
    o2: Option<Seq<Seq<char>>>,
    inp: Seq<char>,
    wl: Seq<char>,
)
    requires
        outcome_ok(o1, inp, wl),
        outcome_ok(o2, inp, wl),
    ensures
        o1 is Some <==> o2 is Some,
{
    if o1 is Some && o2 is None {
        assert(!solves(
            o1->Some_0,
            puzzle_tokens(inp),
            dictionary_words(wl),
            spec_capacities(inp),
        ));
    }
    if o2 is Some && o1 is None {
        assert(!solves(
            o2->Some_0,
            puzzle_tokens(inp),
            dictionary_words(wl),
            spec_capacities(inp),
        ));
    }
}

/// Running the solver twice on byte-identical puzzle and dictionary texts
/// gives the identical outcome: `solve` promises its result equals
/// `canonical_outcome` of the two texts, a function of the inputs alone, so
/// any two outcomes meeting that contract on the same inputs are equal.
pub proof fn lemma_solve_deterministic(
    o1: Option<Seq<Seq<char>>>,
    o2: Option<Seq<Seq<char>>>,
    inp: Seq<char>,
    wl: Seq<char>,
)
    requires
        o1 == canonical_outcome(inp, wl),
        o2 == canonical_outcome(inp, wl),
    ensures
        o1 == o2,
{
}

/// A puzzle with a token length for which the dictionary holds no word has
/// no solution at all, so `solve` always reports no solution on it.
pub proof fn lemma_no_word_of_token_length(
    toks: Seq<Seq<u8>>,
    dict: Seq<Seq<char>>,
    caps: Seq<u8>,
    i: int,
)
    requires
        0 <= i < toks.len(),
        forall|j: int| 0 <= j < dict.len() ==> (#[trigger] dict[j]).len() != toks[i].len(),
    ensures
        forall|c: Seq<Seq<char>>| !solves(c, toks, dict, caps),
{
    assert forall|c: Seq<Seq<char>>| !solves(c, toks, dict, caps) by {
        if solves(c, toks, dict, caps) {
            let w = c[i];
            assert(dict.contains(w));
            let j = choose|j: int| 0 <= j < dict.len() && dict[j] == w;
            assert(dict[j].len() == toks[i].len());
        }
    }
}

/// Two distinct characters have distinct 32-bit codes.
pub proof fn lemma_char_code_injective_neq(c1: char, c2: char)
    requires
        c1 != c2,
    ensures
        c1 as u32 != c2 as u32,
{
    if c1 as u32 == c2 as u32 {
        lemma_char_code_injective(c1, c2);
    }
}

/// Two characters with the same 32-bit code are the same character.
proof fn lemma_char_code_injective(c1: char, c2: char)
    requires
        c1 as u32 == c2 as u32,
    ensures
        c1 == c2,
{
    assert(0 <= c1 as int <= 0x10FFFF);
    assert(0 <= c2 as int <= 0x10FFFF);
    assert(c1 as u32 == c1 as int);
    assert(c2 as u32 == c2 as int);
    assert((c1 as int) as char == c1);
    assert((c2 as int) as char == c2);
}

/// A word made only of lower-case ASCII letters.
pub open spec fn lowercase_word(w: Seq<char>) -> bool {
    forall|k: int| 0 <= k < w.len() ==> 97 <= (#[trigger] w[k]) as u32 <= 122
}

/// Every word held by the trie is made only of lower-case ASCII letters.
pub open spec fn words_lowercase(root: Node) -> bool {
    forall|w: Seq<char>| #[trigger] root.has_word(w) ==> lowercase_word(w)
}

/// Every word of the parsed dictionary is lower-case ASCII.
proof fn lemma_dict_words_lowercase(s: Seq<char>)
    ensures
        forall|j: int| 0 <= j < dictionary_words(s).len()
            ==> lowercase_word(#[trigger] dictionary_words(s)[j]),
{
    broadcast use vstd::seq_lib::group_filter_ensures;

    let ls = text_lines(s);
    let p = |w: Seq<char>| all_alpha(w);
    let f = |w: Seq<char>| lower_word(w);
    assert forall|j: int| 0 <= j < dictionary_words(s).len()
        implies lowercase_word(#[trigger] dictionary_words(s)[j]) by {
        let t = ls.filter(p)[j];
        assert(all_alpha(t));
        assert(dictionary_words(s)[j] == lower_word(t));
        assert forall|k: int| 0 <= k < lower_word(t).len()
            implies 97 <= (#[trigger] lower_word(t)[k]) as u32 <= 122 by {
            assert(is_alpha_char(t[k]));
            assert(lower_word(t)[k] == to_lower_char(t[k]));
        }
    }
}

/// A trie that indexes a lower-case dictionary holds only lower-case words.
proof fn lemma_trie_lowercase(root: Node, words: Seq<Seq<char>>)
    requires
        represents(root, words),
        forall|j: int| 0 <= j < words.len() ==> lowercase_word(#[trigger] words[j]),
    ensures
        words_lowercase(root),
{
    assert forall|w: Seq<char>| #[trigger] root.has_word(w) implies lowercase_word(w) by {
        let j = choose|j: int| 0 <= j < words.len() && words[j] == w;
    }
}

/// A complete assignment that answers the puzzle: aligned with the tokens,
/// every cell placed, every word drawn from the dictionary, and every
/// digit's distinct letters within its capacity.
pub open spec fn solves(
    c: Seq<Seq<char>>,
    toks: Seq<Seq<u8>>,
    dict: Seq<Seq<char>>,
    caps: Seq<u8>,
) -> bool {
    &&& aligned(c, toks)
    &&& forall|i: int| 0 <= i < c.len() ==> fully_placed(#[trigger] c[i])
    &&& forall|i: int| 0 <= i < c.len() ==> dict.contains(#[trigger] c[i])
    &&& counts_ok(toks, c, caps)
}

/// A fully placed solution that the validator accepts.
pub open spec fn complete_valid(
    c: Seq<Seq<char>>,
    nums: Seq<Seq<u8>>,
    root: Node,
    caps: Seq<u8>,
) -> bool {
    &&& aligned(c, nums)
    &&& forall|i: int| 0 <= i < c.len() ==> fully_placed(#[trigger] c[i])
    &&& spec_is_valid(c, nums, root, caps)
}

/// `c` agrees with `s` on every cell strictly before the cursor.
pub open spec fn extends_cursor(c: Seq<Seq<char>>, s: Seq<Seq<char>>, cw: int, cc: int) -> bool {
    &&& c.len() == s.len()
    &&& forall|i: int| 0 <= i < s.len() ==> (#[trigger] c[i]).len() == (#[trigger] s[i]).len()
    &&& forall|i: int, k: int|
        0 <= i < s.len() && 0 <= k < s[i].len() && (i < cw || (i == cw && k < cc))
            ==> #[trigger] c[i][k] == #[trigger] s[i][k]
}

/// No complete valid solution extends the cells placed before the cursor.
pub open spec fn no_completion(
    s: Seq<Seq<char>>,
    nums: Seq<Seq<u8>>,
    root: Node,
    caps: Seq<u8>,
    cw: int,
    cc: int,
) -> bool {
    forall|c: Seq<Seq<char>>|
        #[trigger] extends_cursor(c, s, cw, cc) ==> !complete_valid(c, nums, root, caps)
}

/// An assignment that answers the puzzle is a complete solution the
/// validator accepts, once the trie indexes the dictionary.
proof fn lemma_solves_complete(
    c: Seq<Seq<char>>,
    toks: Seq<Seq<u8>>,
    dict: Seq<Seq<char>>,
    caps: Seq<u8>,
    root: Node,
)
    requires
        represents(root, dict),
        solves(c, toks, dict, caps),
    ensures
        complete_valid(c, toks, root, caps),
{
    assert forall|i: int| 0 <= i < c.len() implies word_ok(root, #[trigger] c[i]) by {
        assert(dict.contains(c[i]));
        assert(root.has_word(c[i]));
        assert(fully_placed(c[i]));
        assert(c[i].take(c[i].len() as int) =~= c[i]);
        crate::trie::lemma_has_word_prefix(root, c[i], c[i].len() as int);
    }
}

/// Truncating a complete valid solution at a cursor leaves a partial
/// solution that the validator still accepts: the constraints only ever
/// shrink when cells are blanked.
proof fn lemma_truncation_valid(
    c: Seq<Seq<char>>,
    s: Seq<Seq<char>>,
    nums: Seq<Seq<u8>>,
    root: Node,
    caps: Seq<u8>,
    cw: int,
    cc: int,
)
    requires
        aligned(s, nums),
        caps.len() == 10,
        cursor_ok(s, cw, cc),
        extends_cursor(c, s, cw, cc),
        complete_valid(c, nums, root, caps),
    ensures
        spec_is_valid(s, nums, root, caps),
{
    broadcast use vstd::seq_lib::seq_to_set_is_finite;

    assert forall|i: int, j: int|
        0 <= i < j < s.len() && has_placed(#[trigger] s[j]) implies fully_placed(#[trigger] s[i])
        by {
        let k = choose|k: int| 0 <= k < s[j].len() && s[j][k] != ' ';
        assert(j < cw || (j == cw && k < cc));
        assert(i < cw);
        assert forall|m: int| 0 <= m < s[i].len() implies (#[trigger] s[i][m]) != ' ' by {}
        lemma_no_blanks_from(s[i], 0);
    }
    assert forall|i: int| 0 <= i < s.len() implies word_ok(root, #[trigger] s[i]) by {
        assert(word_ok(root, c[i]));
        assert(fully_placed(c[i]));
        assert(root.has_word(c[i]));
        if i < cw {
            assert(s[i] =~= c[i]);
            assert(root.has_word(s[i]));
            assert forall|m: int| 0 <= m < s[i].len() implies (#[trigger] s[i][m]) != ' ' by {}
            lemma_no_blanks_from(s[i], 0);
            crate::trie::lemma_has_word_prefix(root, s[i], s[i].len() as int);
            assert(placed_prefix(s[i]) =~= s[i].take(s[i].len() as int));
        } else if i == cw {
            lemma_first_blank_at(s[i], cc);
            assert(s[i].take(cc) =~= c[i].take(cc));
            crate::trie::lemma_has_word_prefix(root, c[i], cc);
            if fully_placed(s[i]) {
                assert(cc == s[i].len());
                assert(s[i] =~= c[i]);
            }
        } else {
            assert forall|m: int| 0 <= m < s[i].len() implies (#[trigger] s[i][m]) == ' ' by {}
            lemma_first_blank_at(s[i], 0);
            assert(placed_prefix(s[i]) =~= c[i].take(0));
            crate::trie::lemma_has_word_prefix(root, c[i], 0);
            if fully_placed(s[i]) {
                assert(s[i].len() == 0);
                assert(s[i] =~= c[i]);
            }
        }
    }
    assert forall|d: int| 1 <= d < 10 implies observed(nums, s, d as u8).len() <= #[trigger]
        caps[d] by {
        let du = d as u8;
        assert forall|x: char| observed(nums, s, du).contains(x)
            implies observed(nums, c, du).contains(x) by {
            lemma_observed_elim(nums, s, du, x, nums.len() as int);
            let (i, k): (int, int) = choose|i: int, k: int|
                0 <= i < nums.len() && 0 <= k < nums[i].len() && k < s[i].len()
                    && #[trigger] nums[i][k] == du && #[trigger] s[i][k] != ' ' && s[i][k] == x;
            assert(i < cw || (i == cw && k < cc));
            assert(c[i][k] == s[i][k]);
            lemma_observed_contains(nums, c, du, i, k);
        }
        assert(observed(nums, s, du).subset_of(observed(nums, c, du)));
        vstd::set_lib::lemma_len_subset(observed(nums, s, du), observed(nums, c, du));
        assert(observed(nums, c, du).len() <= caps[d]);
    }
}

/// The letter tried in round `l` of a cell: 'a' for round 0 up to 'z' for
/// round 25.
pub open spec fn letter_of(l: int) -> char {
    ((97 + l) as u8) as char
}

/// The canonical search from a cursor: what the backtracking search returns,
/// as a function of its inputs. Tokens are filled left to right, words in
/// order, and each cell tries the letters 'a' to 'z' in that fixed order,
/// keeping a placement exactly when the validator accepts it.
pub open spec fn spec_search(
    s: Seq<Seq<char>>,
    nums: Seq<Seq<u8>>,
    root: Node,
    caps: Seq<u8>,
    cw: int,
    cc: int,
) -> Option<Seq<Seq<char>>>
    decreases
            nums.len() - cw,
            (if cw < nums.len() {
                nums[cw].len() + 1 - cc
            } else {
                0int
            }),
            27int,
{
    if cw < 0 || cw >= nums.len() {
        Some(s)
    } else if cc >= nums[cw].len() {
        spec_search(s, nums, root, caps, cw + 1, 0)
    } else {
        spec_try(s, nums, root, caps, cw, cc, 0)
    }
}

/// The canonical search trying the letters of rounds `l` to 25 at the cursor
/// cell, in order.
pub open spec fn spec_try(
    s: Seq<Seq<char>>,
    nums: Seq<Seq<u8>>,
    root: Node,
    caps: Seq<u8>,
    cw: int,
    cc: int,
    l: int,
) -> Option<Seq<Seq<char>>>
    decreases
            nums.len() - cw,
            (if cw < nums.len() {
                nums[cw].len() + 1 - cc
            } else {
                0int
            }),
            26 - l,
{
    if l < 0 || l >= 26 || cw < 0 || cw >= nums.len() || cc < 0 || cc >= nums[cw].len() {
        None
    } else {
        let placed = s.update(cw, s[cw].update(cc, letter_of(l)));
        let sub = if spec_is_valid(placed, nums, root, caps) {
            spec_search(placed, nums, root, caps, cw, cc + 1)
        } else {
            None
        };
        match sub {
            Some(r) => Some(r),
            None => spec_try(s, nums, root, caps, cw, cc, l + 1),
        }
    }
}

/// One word of the solution is consistent with the dictionary, stated over
/// the word list itself: its decided prefix is a prefix of some dictionary
/// word, and once every cell is placed it is a dictionary word.
pub open spec fn dict_word_ok(dict: Seq<Seq<char>>, w: Seq<char>) -> bool {
    &&& (placed_prefix(w).len() == 0 || exists|i: int|
        0 <= i < dict.len() && placed_prefix(w).is_prefix_of(#[trigger] dict[i]))
    &&& (fully_placed(w) ==> dict.contains(w))
}

/// The validator's condition, stated over the word list instead of the trie.
pub open spec fn spec_valid_dict(
    sol: Seq<Seq<char>>,
    nums: Seq<Seq<u8>>,
    dict: Seq<Seq<char>>,
    caps: Seq<u8>,
) -> bool {
    &&& staircase(sol)
    &&& forall|i: int| 0 <= i < sol.len() ==> dict_word_ok(dict, #[trigger] sol[i])
    &&& counts_ok(nums, sol, caps)
}

/// Against a trie that indexes the dictionary, the two statements of the
/// validator's condition agree.
proof fn lemma_valid_dict_equiv(
    sol: Seq<Seq<char>>,
    nums: Seq<Seq<u8>>,
    root: Node,
    dict: Seq<Seq<char>>,
    caps: Seq<u8>,
)
    requires
        represents(root, dict),
    ensures
        spec_is_valid(sol, nums, root, caps) == spec_valid_dict(sol, nums, dict, caps),
{
    assert forall|i: int| 0 <= i < sol.len()
        implies (word_ok(root, #[trigger] sol[i]) == dict_word_ok(dict, sol[i])) by {
        assert(root.has_prefix(placed_prefix(sol[i])) <==> (placed_prefix(sol[i]).len() == 0
            || exists|j: int|
                0 <= j < dict.len() && placed_prefix(sol[i]).is_prefix_of(#[trigger] dict[j])));
        assert(root.has_word(sol[i]) <==> dict.contains(sol[i]));
    }
}

/// The canonical search, stated over the word list instead of the trie.
pub open spec fn spec_search_dict(
    s: Seq<Seq<char>>,
    nums: Seq<Seq<u8>>,
    dict: Seq<Seq<char>>,
    caps: Seq<u8>,
    cw: int,
    cc: int,
) -> Option<Seq<Seq<char>>>
    decreases
            nums.len() - cw,
            (if cw < nums.len() {
                nums[cw].len() + 1 - cc
            } else {
                0int
            }),
            27int,
{
    if cw < 0 || cw >= nums.len() {
        Some(s)
    } else if cc >= nums[cw].len() {
        spec_search_dict(s, nums, dict, caps, cw + 1, 0)
    } else {
        spec_try_dict(s, nums, dict, caps, cw, cc, 0)
    }
}

/// The letter rounds of `spec_search_dict`.
pub open spec fn spec_try_dict(
    s: Seq<Seq<char>>,
    nums: Seq<Seq<u8>>,
    dict: Seq<Seq<char>>,
    caps: Seq<u8>,
    cw: int,
    cc: int,
    l: int,
) -> Option<Seq<Seq<char>>>
    decreases
            nums.len() - cw,
            (if cw < nums.len() {
                nums[cw].len() + 1 - cc
            } else {
                0int
            }),
            26 - l,
{
    if l < 0 || l >= 26 || cw < 0 || cw >= nums.len() || cc < 0 || cc >= nums[cw].len() {
        None
    } else {
        let placed = s.update(cw, s[cw].update(cc, letter_of(l)));
        let sub = if spec_valid_dict(placed, nums, dict, caps) {
            spec_search_dict(placed, nums, dict, caps, cw, cc + 1)
        } else {
            None
        };
        match sub {
            Some(r) => Some(r),
            None => spec_try_dict(s, nums, dict, caps, cw, cc, l + 1),
        }
    }
}

/// Against a trie that indexes the dictionary, the two statements of the
/// canonical search agree.
proof fn lemma_search_dict_equiv(
    s: Seq<Seq<char>>,
    nums: Seq<Seq<u8>>,
    root: Node,
    dict: Seq<Seq<char>>,
    caps: Seq<u8>,
    cw: int,
    cc: int,
)
    requires
        represents(root, dict),
    ensures
        spec_search(s, nums, root, caps, cw, cc) == spec_search_dict(s, nums, dict, caps, cw, cc),
    decreases
            nums.len() - cw,
            (if cw < nums.len() {
                nums[cw].len() + 1 - cc
            } else {
                0int
            }),
            27int,
{
    if cw < 0 || cw >= nums.len() {
    } else if cc >= nums[cw].len() {
        lemma_search_dict_equiv(s, nums, root, dict, caps, cw + 1, 0);
    } else {
        lemma_try_dict_equiv(s, nums, root, dict, caps, cw, cc, 0);
    }
}

/// The letter-round half of `lemma_search_dict_equiv`.
proof fn lemma_try_dict_equiv(
    s: Seq<Seq<char>>,
    nums: Seq<Seq<u8>>,
    root: Node,
    dict: Seq<Seq<char>>,
    caps: Seq<u8>,
    cw: int,
    cc: int,
    l: int,
)
    requires
        represents(root, dict),
    ensures
        spec_try(s, nums, root, caps, cw, cc, l) == spec_try_dict(s, nums, dict, caps, cw, cc, l),
    decreases
            nums.len() - cw,
            (if cw < nums.len() {
                nums[cw].len() + 1 - cc
            } else {
                0int
            }),
            26 - l,
{
    if l < 0 || l >= 26 || cw < 0 || cw >= nums.len() || cc < 0 || cc >= nums[cw].len() {
    } else {
        let placed = s.update(cw, s[cw].update(cc, letter_of(l)));
        lemma_valid_dict_equiv(placed, nums, root, dict, caps);
        if spec_is_valid(placed, nums, root, caps) {
            lemma_search_dict_equiv(placed, nums, root, dict, caps, cw, cc + 1);
        }
        lemma_try_dict_equiv(s, nums, root, dict, caps, cw, cc, l + 1);
    }
}

/// The all-blank solution buffer aligned with the tokens.
pub open spec fn blank_solution(nums: Seq<Seq<u8>>) -> Seq<Seq<char>> {
    Seq::new(nums.len(), |i: int| Seq::new(nums[i].len(), |k: int| ' '))
}

/// The one outcome `solve` may produce, as a function of the puzzle and
/// dictionary texts alone: no solution on a malformed puzzle or when the
/// blank buffer already fails validation, else whatever the canonical
/// search finds.
pub open spec fn canonical_outcome(inp: Seq<char>, wl: Seq<char>) -> Option<Seq<Seq<char>>> {
    if !puzzle_well_formed(inp) {
        None
    } else {
        let toks = puzzle_tokens(inp);
        let dict = dictionary_words(wl);
        let caps = spec_capacities(inp);
        if spec_valid_dict(blank_solution(toks), toks, dict, caps) {
            spec_search_dict(blank_solution(toks), toks, dict, caps, 0, 0)
        } else {
            None
        }
    }
}

/// Cells strictly before the cursor hold letters; cells at or after it are
/// blank. The cursor itself is in range.
pub open spec fn cursor_ok(sol: Seq<Seq<char>>, cw: int, cc: int) -> bool {
    &&& 0 <= cw <= sol.len()
    &&& (cw < sol.len() ==> 0 <= cc <= sol[cw].len())
    &&& (cw == sol.len() ==> cc == 0)
    &&& forall|i: int, k: int|
        0 <= i < sol.len() && 0 <= k < (#[trigger] sol[i]).len()
            ==> ((#[trigger] sol[i][k]) != ' ' <==> (i < cw || (i == cw && k < cc)))
}

/// A word with no blank cell is fully placed.
proof fn lemma_no_blanks_from(w: Seq<char>, k: int)
    requires
        0 <= k,
        forall|m: int| k <= m < w.len() ==> (#[trigger] w[m]) != ' ',
    ensures
        first_blank_from(w, k) == w.len(),
    decreases w.len() - k,
{
    if k < w.len() {
        lemma_no_blanks_from(w, k + 1);
    }
}

/// Writes `c` into cell `k` of word `i` of the solution.
fn set_cell(solution: &mut Vec<Vec<char>>, i: usize, k: usize, c: char)
    requires
        (i as int) < old(solution)@.len(),
        (k as int) < old(solution)@[i as int]@.len(),
    ensures
        final(solution)@.len() == old(solution)@.len(),
        forall|j: int| 0 <= j < old(solution)@.len() && j != i
            ==> final(solution).deep_view()[j] == old(solution).deep_view()[j],
        final(solution).deep_view()[i as int] == old(solution).deep_view()[i as int].update(
            k as int,
            c,
        ),
        final(solution).deep_view()[i as int].len() == old(solution).deep_view()[i as int].len(),
    {
    let ghost before = solution.deep_view();
    let mut word = solution.remove(i);
    word.remove(k);
    word.insert(k, c);
    proof {
        assert(word@ =~= before[i as int].update(k as int, c));
    }
    solution.insert(i, word);
    proof {
        assert forall|j: int| 0 <= j < before.len() && j != i
            implies solution.deep_view()[j] == before[j] by {
            if j < i {
                assert(solution@[j] == old(solution)@[j]);
            } else {
                assert(solution@[j] == old(solution)@.remove(i as int).insert(i as int, word)[j]);
                assert(solution@[j] == old(solution)@[j]);
            }
        }
        assert(solution@[i as int] == word);
    }
}

/// Backtracking search from the cursor `(current_word, current_character)`:
/// tries the letters a to z in order at each cell, keeps a placement exactly
/// when the validator accepts it, and restores every touched cell on failure.
/// On success the solution is completely placed and valid.
pub fn backtrack_recursive(
    solution: &mut Vec<Vec<char>>,
    input_numbers: &Vec<Vec<u8>>,
    wordlist_tree: &Node,
    number_letter_counts: &Vec<u8>,
    current_word: usize,
    current_character: usize,
) -> (found: bool)
    requires
        aligned(old(solution).deep_view(), input_numbers.deep_view()),
        number_letter_counts@.len() == 10,
        cursor_ok(old(solution).deep_view(), current_word as int, current_character as int),
        spec_is_valid(
            old(solution).deep_view(),
            input_numbers.deep_view(),
            *wordlist_tree,
            number_letter_counts@,
        ),
        words_lowercase(*wordlist_tree),
    ensures
        aligned(final(solution).deep_view(), input_numbers.deep_view()),
        found ==> spec_is_valid(
            final(solution).deep_view(),
            input_numbers.deep_view(),
            *wordlist_tree,
            number_letter_counts@,
        ),
        found ==> forall|i: int| 0 <= i < final(solution).deep_view().len()
            ==> fully_placed(#[trigger] final(solution).deep_view()[i]),
        found ==> extends_cursor(
            final(solution).deep_view(),
            old(solution).deep_view(),
            current_word as int,
            current_character as int,
        ),
        !found ==> final(solution).deep_view() == old(solution).deep_view(),
        !found ==> no_completion(
            old(solution).deep_view(),
            input_numbers.deep_view(),
            *wordlist_tree,
            number_letter_counts@,
            current_word as int,
            current_character as int,
        ),
        found <==> spec_search(
            old(solution).deep_view(),
            input_numbers.deep_view(),
            *wordlist_tree,
            number_letter_counts@,
            current_word as int,
            current_character as int,
        ) is Some,
        found ==> final(solution).deep_view() == spec_search(
            old(solution).deep_view(),
            input_numbers.deep_view(),
            *wordlist_tree,
            number_letter_counts@,
            current_word as int,
            current_character as int,
        )->Some_0,
    decreases
        input_numbers@.len() - current_word,
        (if (current_word as int) < input_numbers@.len() {
            input_numbers@[current_word as int]@.len() + 1 - current_character
        } else {
            0int
        }),
{
    let ghost sol0 = solution.deep_view();
    let ghost nums = input_numbers.deep_view();
    let n = solution.len();
    proof {
        assert(sol0.len() == n);
    }
    if current_word == n {
        proof {
            assert forall|i: int| 0 <= i < sol0.len()
                implies fully_placed(#[trigger] sol0[i]) by {
                assert forall|m: int| 0 <= m < sol0[i].len()
                    implies (#[trigger] sol0[i][m]) != ' ' by {}
                lemma_no_blanks_from(sol0[i], 0);
            }
        }
        return true;
    }
    let wordlen = solution[current_word].len();
    proof {
        assert(sol0[current_word as int].len() == wordlen);
        assert(nums[current_word as int].len() == wordlen);
    }
    if current_character == wordlen {
        proof {
            assert(cursor_ok(sol0, current_word as int + 1, 0));
        }
        let r = backtrack_recursive(
            solution,
            input_numbers,
            wordlist_tree,
            number_letter_counts,
            current_word + 1,
            0,
        );
        proof {
            if !r {
                assert forall|c: Seq<Seq<char>>|
                    #[trigger] extends_cursor(c, sol0, current_word as int, wordlen as int)
                    implies !complete_valid(c, nums, *wordlist_tree, number_letter_counts@) by {
                    assert(extends_cursor(c, sol0, current_word as int + 1, 0)) by {
                        assert forall|i: int, k: int|
                            0 <= i < sol0.len() && 0 <= k < sol0[i].len() && (i < current_word + 1
                                || (i == current_word + 1 && k < 0))
                            implies #[trigger] c[i][k] == #[trigger] sol0[i][k] by {
                            if i == current_word {
                                assert(k < wordlen);
                            }
                        }
                    }
                }
            }
        }
        return r;
    }
    // try each letter at the cursor cell
    proof {
        assert forall|c: Seq<Seq<char>>|
            #[trigger] extends_cursor(c, sol0, current_word as int, current_character as int)
                && complete_valid(c, nums, *wordlist_tree, number_letter_counts@)
            implies (c[current_word as int][current_character as int] as u32) > 96 by {
            assert(word_ok(*wordlist_tree, c[current_word as int]));
            assert(fully_placed(c[current_word as int]));
            assert(wordlist_tree.has_word(c[current_word as int]));
            assert(lowercase_word(c[current_word as int]));
            assert(c[current_word as int].len() == sol0[current_word as int].len());
            assert(97 <= c[current_word as int][current_character as int] as u32);
        }
    }
    proof {
        assert(spec_search(sol0, nums, *wordlist_tree, number_letter_counts@,
            current_word as int, current_character as int) == spec_try(sol0, nums,
            *wordlist_tree, number_letter_counts@, current_word as int,
            current_character as int, 0));
    }
    let mut l: u8 = 0;
    while l < 26
        invariant
            l <= 26,
            n == sol0.len(),
            sol0 == old(solution).deep_view(),
            spec_search(sol0, nums, *wordlist_tree, number_letter_counts@,
                current_word as int, current_character as int) == spec_try(sol0, nums,
                *wordlist_tree, number_letter_counts@, current_word as int,
                current_character as int, l as int),
            nums == input_numbers.deep_view(),
            number_letter_counts@.len() == 10,
            (current_word as int) < sol0.len(),
            (current_character as int) < sol0[current_word as int].len(),
            current_character < wordlen,
            wordlen == sol0[current_word as int].len(),
            wordlen == input_numbers@[current_word as int]@.len(),
            aligned(sol0, nums),
            cursor_ok(sol0, current_word as int, current_character as int),
            spec_is_valid(sol0, nums, *wordlist_tree, number_letter_counts@),
            words_lowercase(*wordlist_tree),
            forall|c: Seq<Seq<char>>|
                #[trigger] extends_cursor(c, sol0, current_word as int, current_character as int)
                    && complete_valid(c, nums, *wordlist_tree, number_letter_counts@)
                    ==> (c[current_word as int][current_character as int] as u32) > 96 + l,
            solution.deep_view().len() == sol0.len(),
            forall|j: int| 0 <= j < sol0.len() && j != current_word
                ==> #[trigger] solution.deep_view()[j] == sol0[j],
            solution.deep_view()[current_word as int] == sol0[current_word as int]
                || solution.deep_view()[current_word as int] =~= sol0[current_word as int]
                    .update(current_character as int, solution.deep_view()[
                        current_word as int][current_character as int]),
            solution.deep_view()[current_word as int].len() == sol0[current_word as int].len(),
        decreases 26 - l,
    {
        let cl = ((97 + l) as u8) as char;
        proof {
            assert(cl as u32 == 97 + l);
            assert(cl != ' ');
        }
        set_cell(solution, current_word, current_character, cl);
        let ghost placed = solution.deep_view();
        proof {
            assert(placed[current_word as int] =~= sol0[current_word as int].update(
                current_character as int,
                cl,
            ));
            assert(aligned(placed, nums)) by {
                assert forall|i: int| 0 <= i < placed.len()
                    implies (#[trigger] placed[i]).len() == (#[trigger] nums[i]).len() by {
                    if i != current_word {
                        assert(placed[i] == sol0[i]);
                    }
                }
            }
        }
        proof {
            assert(cl == letter_of(l as int));
            assert(placed =~~= sol0.update(
                current_word as int,
                sol0[current_word as int].update(current_character as int, cl),
            ));
            assert(cursor_ok(placed, current_word as int, current_character as int + 1)) by {
                assert forall|i: int, k: int|
                    0 <= i < placed.len() && 0 <= k < (#[trigger] placed[i]).len()
                    implies ((#[trigger] placed[i][k]) != ' ' <==> (i < current_word || (i
                        == current_word && k < current_character + 1))) by {
                    if i != current_word {
                        assert(placed[i] == sol0[i]);
                        assert(sol0[i][k] == placed[i][k]);
                    } else {
                        if k != current_character {
                            assert(placed[i][k] == sol0[i][k]);
                        }
                    }
                }
            }
        }
        if is_valid(solution, input_numbers, wordlist_tree, number_letter_counts) {
            let r = backtrack_recursive(
                solution,
                input_numbers,
                wordlist_tree,
                number_letter_counts,
                current_word,
                current_character + 1,
            );
            if r {
                proof {
                    let fin = solution.deep_view();
                    assert(extends_cursor(fin, placed, current_word as int,
                        current_character as int + 1));
                    assert(extends_cursor(fin, sol0, current_word as int,
                        current_character as int)) by {
                        assert(fin.len() == sol0.len());
                        assert forall|i: int| 0 <= i < sol0.len()
                            implies (#[trigger] fin[i]).len() == (#[trigger] sol0[i]).len() by {
                            assert(fin[i].len() == placed[i].len());
                            if i != current_word {
                                assert(placed[i] == sol0[i]);
                            }
                        }
                        assert forall|i: int, k: int|
                            0 <= i < sol0.len() && 0 <= k < sol0[i].len() && (i < current_word
                                || (i == current_word && k < current_character))
                            implies #[trigger] fin[i][k] == #[trigger] sol0[i][k] by {
                            assert(fin[i][k] == placed[i][k]);
                            if i != current_word {
                                assert(placed[i] == sol0[i]);
                            } else {
                                assert(placed[i][k] == sol0[i][k]);
                            }
                        }
                    }
                    assert(spec_search(placed, nums, *wordlist_tree, number_letter_counts@,
                        current_word as int, current_character as int + 1) == Some(fin));
                    assert(spec_try(sol0, nums, *wordlist_tree, number_letter_counts@,
                        current_word as int, current_character as int, l as int) == Some(fin));
                }
                return true;
            }
            proof {
                assert(solution.deep_view() == placed);
                assert(spec_search(placed, nums, *wordlist_tree, number_letter_counts@,
                    current_word as int, current_character as int + 1) is None);
                assert(spec_try(sol0, nums, *wordlist_tree, number_letter_counts@,
                    current_word as int, current_character as int, l as int) == spec_try(
                    sol0, nums, *wordlist_tree, number_letter_counts@, current_word as int,
                    current_character as int, l as int + 1));
                assert(no_completion(
                    placed,
                    nums,
                    *wordlist_tree,
                    number_letter_counts@,
                    current_word as int,
                    current_character as int + 1,
                ));
            }
        } else {
            proof {
                assert forall|c: Seq<Seq<char>>|
                    #[trigger] extends_cursor(
                        c,
                        placed,
                        current_word as int,
                        current_character as int + 1,
                    ) implies !complete_valid(c, nums, *wordlist_tree, number_letter_counts@) by {
                    if complete_valid(c, nums, *wordlist_tree, number_letter_counts@) {
                        lemma_truncation_valid(
                            c,
                            placed,
                            nums,
                            *wordlist_tree,
                            number_letter_counts@,
                            current_word as int,
                            current_character as int + 1,
                        );
                    }
                }
                assert(no_completion(
                    placed,
                    nums,
                    *wordlist_tree,
                    number_letter_counts@,
                    current_word as int,
                    current_character as int + 1,
                ));
                assert(spec_try(sol0, nums, *wordlist_tree, number_letter_counts@,
                    current_word as int, current_character as int, l as int) == spec_try(
                    sol0, nums, *wordlist_tree, number_letter_counts@, current_word as int,
                    current_character as int, l as int + 1));
            }
        }
        proof {
            // the letter just tried is now ruled out for every completion
            assert forall|c: Seq<Seq<char>>|
                #[trigger] extends_cursor(c, sol0, current_word as int, current_character as int)
                    && complete_valid(c, nums, *wordlist_tree, number_letter_counts@)
                implies (c[current_word as int][current_character as int] as u32) > 96 + l + 1 by {
                let code = c[current_word as int][current_character as int] as u32;
                assert(code > 96 + l);
                if code == 97 + l {
                    assert(c.len() == sol0.len());
                    assert(c[current_word as int].len() == sol0[current_word as int].len());
                    let ch = c[current_word as int][current_character as int];
                    lemma_char_code_injective(ch, cl);
                    assert(c[current_word as int][current_character as int] == cl);
                    assert(extends_cursor(
                        c,
                        placed,
                        current_word as int,
                        current_character as int + 1,
                    )) by {
                        assert forall|i: int, k: int|
                            0 <= i < placed.len() && 0 <= k < placed[i].len() && (i < current_word
                                || (i == current_word && k < current_character + 1))
                            implies #[trigger] c[i][k] == #[trigger] placed[i][k] by {
                            if i != current_word {
                                assert(placed[i] == sol0[i]);
                                assert(c[i][k] == sol0[i][k]);
                            } else if k < current_character {
                                assert(placed[i][k] == sol0[i][k]);
                                assert(c[i][k] == sol0[i][k]);
                            } else {
                                assert(placed[i][k] == cl);
                            }
                        }
                    }
                    assert(!complete_valid(c, nums, *wordlist_tree, number_letter_counts@));
                }
            }
        }
        l = l + 1;
    }
    proof {
        assert forall|c: Seq<Seq<char>>|
            #[trigger] extends_cursor(c, sol0, current_word as int, current_character as int)
            implies !complete_valid(c, nums, *wordlist_tree, number_letter_counts@) by {
            if complete_valid(c, nums, *wordlist_tree, number_letter_counts@) {
                assert((c[current_word as int][current_character as int] as u32) > 122);
                assert(word_ok(*wordlist_tree, c[current_word as int]));
                assert(wordlist_tree.has_word(c[current_word as int]));
                assert(lowercase_word(c[current_word as int]));
                assert(c[current_word as int].len() == sol0[current_word as int].len());
                assert((c[current_word as int][current_character as int] as u32) <= 122);
            }
        }
    }
    set_cell(solution, current_word, current_character, ' ');
    proof {
        assert(solution.deep_view() =~~= sol0) by {
            assert(solution.deep_view()[current_word as int] =~= sol0[current_word as int]) by {
                assert(sol0[current_word as int][current_character as int] == ' ');
            }
            assert forall|j: int| 0 <= j < sol0.len()
                implies #[trigger] solution.deep_view()[j] =~= sol0[j] by {
                if j != current_word {
                }
            }
        }
    }
    false
}

/// Solves the puzzle: parses the digit tokens, builds the capacity table and
/// the dictionary trie, and searches for a complete assignment. A returned
/// solution decodes every token to a dictionary word under the per-digit
/// capacity bounds; no solution is returned exactly when the puzzle text is
/// malformed or no such assignment exists at all.
pub fn solve(input: &str, wordlist: &str) -> (outcome: Option<Vec<Vec<char>>>)
    requires
        forall|d: u8| 1 <= d < 10 ==> count_digit(input@, d) <= 255,
    ensures
        outcome_ok(
            match outcome {
                Some(sol) => Some(sol.deep_view()),
                None => None,
            },
            input@,
            wordlist@,
        ),
        (match outcome {
            Some(sol) => Some(sol.deep_view()),
            None => None,
        }) == canonical_outcome(input@, wordlist@),
{
    let words = parse_wordlist(wordlist);
    let wordlist_tree = construct_tree(&words);
    let ghost dict = dictionary_words(wordlist@);
    proof {
        lemma_dict_words_lowercase(wordlist@);
        lemma_trie_lowercase(wordlist_tree, dict);
    }

    let number_letter_counts = get_number_of_characters_per_number_count(input);
    proof {
        assert(number_letter_counts@ =~= spec_capacities(input@));
    }

    let input_numbers = match parse_puzzle(input) {
        Some(ws) => ws,
        None => {
            return None;
        },
    };
    let ghost nums = input_numbers.deep_view();

    // blank solution aligned with the tokens
    let mut solution: Vec<Vec<char>> = Vec::new();
    let mut i: usize = 0;
    let n = input_numbers.len();
    while i < n
        invariant
            i <= n,
            n == nums.len(),
            nums == input_numbers.deep_view(),
            solution.deep_view().len() == i as int,
            forall|j: int| 0 <= j < i ==> (#[trigger] solution.deep_view()[j]).len()
                == nums[j].len(),
            forall|j: int, k: int| 0 <= j < i && 0 <= k < solution.deep_view()[j].len()
                ==> #[trigger] solution.deep_view()[j][k] == ' ',
        decreases n - i,
    {
        let m = input_numbers[i].len();
        let mut word_vec: Vec<char> = Vec::new();
        let mut k: usize = 0;
        while k < m
            invariant
                k <= m,
                word_vec@.len() == k as int,
                forall|q: int| 0 <= q < k ==> word_vec@[q] == ' ',
            decreases m - k,
        {
            word_vec.push(' ');
            k = k + 1;
        }
        let ghost before_v = solution@;
        let ghost before_dv = solution.deep_view();
        solution.push(word_vec);
        proof {
            assert(solution@[i as int] == word_vec);
            assert(solution.deep_view()[i as int] =~= word_vec@);
            assert(nums[i as int].len() == m);
            assert forall|j: int| 0 <= j < i implies #[trigger] solution.deep_view()[j]
                == before_dv[j] by {
                assert(solution@[j] == before_v[j]);
                assert(solution.deep_view()[j] == solution@[j].deep_view());
                assert(before_dv[j] == before_v[j].deep_view());
            }
        }
        i = i + 1;
    }
    proof {
        assert(aligned(solution.deep_view(), nums));
        assert(cursor_ok(solution.deep_view(), 0, 0));
        assert(solution.deep_view() =~~= blank_solution(nums));
    }

    let ghost blank = solution.deep_view();
    let ghost caps = number_letter_counts@;

    // the blank solution must itself pass validation
    if !is_valid(&solution, &input_numbers, &wordlist_tree, &number_letter_counts) {
        proof {
            lemma_valid_dict_equiv(blank, nums, wordlist_tree, dict, caps);
            assert(canonical_outcome(input@, wordlist@) is None);
            assert forall|c: Seq<Seq<char>>| !solves(c, nums, dict, caps) by {
                if solves(c, nums, dict, caps) {
                    lemma_solves_complete(c, nums, dict, caps, wordlist_tree);
                    assert(extends_cursor(c, blank, 0, 0));
                    lemma_truncation_valid(c, blank, nums, wordlist_tree, caps, 0, 0);
                }
            }
        }
        return None;
    }

    let found = backtrack_recursive(
        &mut solution,
        &input_numbers,
        &wordlist_tree,
        &number_letter_counts,
        0,
        0,
    );
    proof {
        lemma_valid_dict_equiv(blank, nums, wordlist_tree, dict, caps);
        lemma_search_dict_equiv(blank, nums, wordlist_tree, dict, caps, 0, 0);
    }
    if found {
        proof {
            let sol = solution.deep_view();
            assert(canonical_outcome(input@, wordlist@) == Some(sol));
            assert(words_ok(wordlist_tree, sol));
            assert forall|i2: int| 0 <= i2 < sol.len()
                implies dict.contains(#[trigger] sol[i2]) by {
                assert(word_ok(wordlist_tree, sol[i2]));
                assert(fully_placed(sol[i2]));
                assert(wordlist_tree.has_word(sol[i2]));
                assert(represents(wordlist_tree, words.deep_view()));
            }
            assert(solves(sol, nums, dict, caps));
        }
        Some(solution)
    } else {
        proof {
            assert(canonical_outcome(input@, wordlist@) is None);
            assert forall|c: Seq<Seq<char>>| !solves(c, nums, dict, caps) by {
                if solves(c, nums, dict, caps) {
                    lemma_solves_complete(c, nums, dict, caps, wordlist_tree);
                    assert(extends_cursor(c, blank, 0, 0));
                    assert(!complete_valid(c, nums, wordlist_tree, caps));
                }
            }
        }
        None
    }
}

} // verus!
