//! Assignment validator: checks a (possibly partial) solution against the
//! dictionary trie and the per-digit letter-capacity table.

use vstd::prelude::*;
use crate::trie::Node;

verus! {

/// Position of the first blank cell at or after `k`, or the word length.
pub open spec fn first_blank_from(w: Seq<char>, k: int) -> int
    decreases w.len() - k,
{
    if k < 0 || k >= w.len() {
        w.len() as int
    } else if w[k] == ' ' {
        k
    } else {
        first_blank_from(w, k + 1)
    }
}

/// Position of the first blank cell of a word, or its length.
pub open spec fn first_blank(w: Seq<char>) -> int {
    first_blank_from(w, 0)
}

/// The decided prefix of a word: its cells before the first blank.
pub open spec fn placed_prefix(w: Seq<char>) -> Seq<char> {
    w.take(first_blank(w))
}

/// Every cell of the word holds a letter.
pub open spec fn fully_placed(w: Seq<char>) -> bool {
    first_blank(w) == w.len()
}

/// Some cell of the word holds a letter.
pub open spec fn has_placed(w: Seq<char>) -> bool {
    exists|k: int| 0 <= k < w.len() && w[k] != ' '
}

/// The solution rows are aligned one-to-one with the puzzle's digit rows.
pub open spec fn aligned(sol: Seq<Seq<char>>, nums: Seq<Seq<u8>>) -> bool {
    &&& sol.len() == nums.len()
    &&& forall|i: int| 0 <= i < sol.len() ==> (#[trigger] sol[i]).len() == (#[trigger] nums[i]).len()
}

/// One word of the solution is consistent with the dictionary: its decided
/// prefix is a prefix of some dictionary word, and once every cell is placed
/// it is a dictionary word itself.
pub open spec fn word_ok(root: Node, w: Seq<char>) -> bool {
    &&& root.has_prefix(placed_prefix(w))
    &&& (fully_placed(w) ==> root.has_word(w))
}

/// All words of the solution are consistent with the dictionary.
pub open spec fn words_ok(root: Node, sol: Seq<Seq<char>>) -> bool {
    forall|i: int| 0 <= i < sol.len() ==> word_ok(root, #[trigger] sol[i])
}

/// No word may be left incomplete while a later word is being worked on.
pub open spec fn staircase(sol: Seq<Seq<char>>) -> bool {
    forall|i: int, j: int|
        0 <= i < j < sol.len() && has_placed(#[trigger] sol[j]) ==> fully_placed(#[trigger] sol[i])
}

/// Letters sitting on cells of digit `d` among the first `k` cells of one
/// word, in cell order.
pub open spec fn word_letters(wn: Seq<u8>, wc: Seq<char>, d: u8, k: int) -> Seq<char>
    decreases k,
{
    if k <= 0 {
        Seq::empty()
    } else {
        word_letters(wn, wc, d, k - 1) + (if 0 <= k - 1 < wn.len() && k - 1 < wc.len()
            && wn[k - 1] == d && wc[k - 1] != ' ' {
            seq![wc[k - 1]]
        } else {
            Seq::empty()
        })
    }
}

/// Letters sitting on cells of digit `d` in the first `i` words.
pub open spec fn sol_letters(nums: Seq<Seq<u8>>, sol: Seq<Seq<char>>, d: u8, i: int) -> Seq<char>
    decreases i,
{
    if i <= 0 {
        Seq::empty()
    } else {
        sol_letters(nums, sol, d, i - 1) + word_letters(
            nums[i - 1],
            sol[i - 1],
            d,
            nums[i - 1].len() as int,
        )
    }
}

/// The distinct letters currently assigned to cells carrying digit `d`.
pub open spec fn observed(nums: Seq<Seq<u8>>, sol: Seq<Seq<char>>, d: u8) -> Set<char> {
    sol_letters(nums, sol, d, nums.len() as int).to_set()
}

/// For every digit 1 to 9, its distinct observed letters stay within its
/// capacity. Digit 0 is never consulted.
pub open spec fn counts_ok(nums: Seq<Seq<u8>>, sol: Seq<Seq<char>>, caps: Seq<u8>) -> bool {
    forall|d: int| 1 <= d < 10 ==> observed(nums, sol, d as u8).len() <= #[trigger] caps[d]
}

/// The condition the validator decides: the partial solution keeps every
/// constraint.
pub open spec fn spec_is_valid(
    sol: Seq<Seq<char>>,
    nums: Seq<Seq<u8>>,
    root: Node,
    caps: Seq<u8>,
) -> bool {
    &&& staircase(sol)
    &&& words_ok(root, sol)
    &&& counts_ok(nums, sol, caps)
}

/// Pushing a letter extends the letter set by exactly that letter.
proof fn lemma_to_set_push(s: Seq<char>, c: char)
    ensures
        s.push(c).to_set() == s.to_set().insert(c),
{
    assert forall|x: char| s.push(c).to_set().contains(x) <==> s.to_set().insert(c).contains(x) by {
        if s.push(c).contains(x) {
            let idx = choose|idx: int| 0 <= idx < s.push(c).len() && s.push(c)[idx] == x;
            if idx < s.len() {
                assert(s[idx] == x);
            } else {
                assert(x == c);
            }
        }
        if s.contains(x) {
            let idx = choose|idx: int| 0 <= idx < s.len() && s[idx] == x;
            assert(s.push(c)[idx] == x);
        }
        if x == c {
            assert(s.push(c)[s.len() as int] == x);
        }
    }
    assert(s.push(c).to_set() =~= s.to_set().insert(c));
}

/// Pushing a letter not yet present keeps the list free of duplicates.
proof fn lemma_no_dup_push(s: Seq<char>, c: char)
    requires
        s.no_duplicates(),
        !s.contains(c),
    ensures
        s.push(c).no_duplicates(),
{
    assert forall|i: int, j: int|
        0 <= i < s.push(c).len() && 0 <= j < s.push(c).len() && i != j
        implies s.push(c)[i] != s.push(c)[j] by {
        if i < s.len() && j < s.len() {
        } else if i < s.len() {
            assert(s[i] == s.push(c)[i]);
            assert(!s.contains(s[i]) ==> false);
        } else if j < s.len() {
            assert(s[j] == s.push(c)[j]);
        }
    }
}

/// The first blank sits at `j` when everything before `j` is placed and `j`
/// is blank or the end.
proof fn lemma_fbf_at(w: Seq<char>, k: int, j: int)
    requires
        0 <= k <= j <= w.len(),
        forall|m: int| k <= m < j ==> (#[trigger] w[m]) != ' ',
        j == w.len() || w[j] == ' ',
    ensures
        first_blank_from(w, k) == j,
    decreases j - k,
{
    if k < j {
        lemma_fbf_at(w, k + 1, j);
    }
}

/// The first blank sits at `j` when everything before `j` is placed and `j`
/// is blank or the end.
pub proof fn lemma_first_blank_at(w: Seq<char>, j: int)
    requires
        0 <= j <= w.len(),
        forall|m: int| 0 <= m < j ==> (#[trigger] w[m]) != ' ',
        j == w.len() || w[j] == ' ',
    ensures
        first_blank(w) == j,
{
    lemma_fbf_at(w, 0, j);
}

/// A letter in a word's letter run comes from some placed cell of digit `d`.
proof fn lemma_word_letters_elim(wn: Seq<u8>, wc: Seq<char>, d: u8, m: int, x: char)
    requires
        word_letters(wn, wc, d, m).contains(x),
    ensures
        exists|k: int|
            0 <= k < m && k < wn.len() && k < wc.len() && (#[trigger] wn[k]) == d && wc[k] != ' '
                && wc[k] == x,
    decreases m,
{
    if m <= 0 {
        assert(false);
    } else {
        let a = word_letters(wn, wc, d, m - 1);
        let idx = choose|idx: int|
            0 <= idx < word_letters(wn, wc, d, m).len() && word_letters(wn, wc, d, m)[idx] == x;
        if idx < a.len() {
            assert(a[idx] == x);
            lemma_word_letters_elim(wn, wc, d, m - 1, x);
            let k = choose|k: int|
                0 <= k < m - 1 && k < wn.len() && k < wc.len() && (#[trigger] wn[k]) == d
                    && wc[k] != ' ' && wc[k] == x;
            assert(0 <= k < m && k < wn.len() && k < wc.len() && wn[k] == d && wc[k] != ' '
                && wc[k] == x);
        } else {
            assert(0 <= m - 1 < wn.len() && m - 1 < wc.len() && wn[m - 1] == d && wc[m - 1] != ' ');
            assert(wc[m - 1] == x);
        }
    }
}

/// An observed letter of digit `d` comes from some placed cell of digit `d`.
pub proof fn lemma_observed_elim(nums: Seq<Seq<u8>>, sol: Seq<Seq<char>>, d: u8, x: char, n: int)
    requires
        sol_letters(nums, sol, d, n).contains(x),
        n <= nums.len(),
    ensures
        exists|i: int, k: int|
            0 <= i < nums.len() && 0 <= k < nums[i].len() && k < sol[i].len()
                && #[trigger] nums[i][k] == d && #[trigger] sol[i][k] != ' ' && sol[i][k] == x,
    decreases n,
{
    if n <= 0 {
        assert(false);
    } else {
        let a = sol_letters(nums, sol, d, n - 1);
        let b = word_letters(nums[n - 1], sol[n - 1], d, nums[n - 1].len() as int);
        let idx = choose|idx: int|
            0 <= idx < sol_letters(nums, sol, d, n).len() && sol_letters(nums, sol, d, n)[idx]
                == x;
        if idx < a.len() {
            assert(a[idx] == x);
            lemma_observed_elim(nums, sol, d, x, n - 1);
        } else {
            assert(b[idx - a.len()] == x);
            lemma_word_letters_elim(nums[n - 1], sol[n - 1], d, nums[n - 1].len() as int, x);
            let k = choose|k: int|
                0 <= k < nums[n - 1].len() && k < nums[n - 1].len() && k < sol[n - 1].len() && (
                #[trigger] nums[n - 1][k]) == d && sol[n - 1][k] != ' ' && sol[n - 1][k] == x;
            assert(0 <= k < nums[n - 1 as int].len() && k < sol[n - 1].len()
                && nums[n - 1][k] == d && sol[n - 1][k] != ' ' && sol[n - 1][k] == x);
        }
    }
}

/// A cell of digit `d` holding a letter contributes that letter to the
/// word's letter run.
proof fn lemma_cell_in_word_letters(wn: Seq<u8>, wc: Seq<char>, d: u8, k: int, m: int)
    requires
        0 <= k < m,
        k < wn.len(),
        k < wc.len(),
        wn[k] == d,
        wc[k] != ' ',
    ensures
        word_letters(wn, wc, d, m).contains(wc[k]),
    decreases m,
{
    if k == m - 1 {
        let a = word_letters(wn, wc, d, m - 1);
        assert(word_letters(wn, wc, d, m) == a + seq![wc[k]]);
        assert((a + seq![wc[k]])[a.len() as int] == wc[k]);
    } else {
        lemma_cell_in_word_letters(wn, wc, d, k, m - 1);
        let a = word_letters(wn, wc, d, m - 1);
        let idx = choose|idx: int| 0 <= idx < a.len() && a[idx] == wc[k];
        assert(word_letters(wn, wc, d, m)[idx] == wc[k]);
    }
}

/// A letter contributed by one word is contributed by the whole solution.
proof fn lemma_word_in_sol_letters(
    nums: Seq<Seq<u8>>,
    sol: Seq<Seq<char>>,
    d: u8,
    i: int,
    n: int,
    x: char,
)
    requires
        0 <= i < n,
        n <= nums.len(),
        word_letters(nums[i], sol[i], d, nums[i].len() as int).contains(x),
    ensures
        sol_letters(nums, sol, d, n).contains(x),
    decreases n,
{
    if i == n - 1 {
        let a = sol_letters(nums, sol, d, n - 1);
        let b = word_letters(nums[i], sol[i], d, nums[i].len() as int);
        let idx = choose|idx: int| 0 <= idx < b.len() && b[idx] == x;
        assert(sol_letters(nums, sol, d, n)[a.len() + idx] == x);
    } else {
        lemma_word_in_sol_letters(nums, sol, d, i, n - 1, x);
        let a = sol_letters(nums, sol, d, n - 1);
        let idx = choose|idx: int| 0 <= idx < a.len() && a[idx] == x;
        assert(sol_letters(nums, sol, d, n)[idx] == x);
    }
}

/// A placed cell's letter belongs to the observed letters of its digit.
pub proof fn lemma_observed_contains(
    nums: Seq<Seq<u8>>,
    sol: Seq<Seq<char>>,
    d: u8,
    i: int,
    k: int,
)
    requires
        aligned(sol, nums),
        0 <= i < nums.len(),
        0 <= k < nums[i].len(),
        nums[i][k] == d,
        sol[i][k] != ' ',
    ensures
        observed(nums, sol, d).contains(sol[i][k]),
{
    lemma_cell_in_word_letters(nums[i], sol[i], d, k, nums[i].len() as int);
    lemma_word_in_sol_letters(nums, sol, d, i, nums.len() as int, sol[i][k]);
}

/// A solution in which two cells of the same digit hold different letters is
/// rejected whenever that digit's capacity admits at most one letter; more
/// generally, exceeding the capacity bound is rejected through `counts_ok`.
pub proof fn lemma_validator_rejects_inconsistency(
    sol: Seq<Seq<char>>,
    nums: Seq<Seq<u8>>,
    root: Node,
    caps: Seq<u8>,
    d: u8,
    i1: int,
    k1: int,
    i2: int,
    k2: int,
)
    requires
        aligned(sol, nums),
        caps.len() == 10,
        1 <= d < 10,
        caps[d as int] < 2,
        0 <= i1 < nums.len(),
        0 <= k1 < nums[i1].len(),
        nums[i1][k1] == d,
        0 <= i2 < nums.len(),
        0 <= k2 < nums[i2].len(),
        nums[i2][k2] == d,
        sol[i1][k1] != ' ',
        sol[i2][k2] != ' ',
        sol[i1][k1] != sol[i2][k2],
    ensures
        !spec_is_valid(sol, nums, root, caps),
{
    let c1 = sol[i1][k1];
    let c2 = sol[i2][k2];
    lemma_observed_contains(nums, sol, d, i1, k1);
    lemma_observed_contains(nums, sol, d, i2, k2);
    let obs = observed(nums, sol, d);
    assert(obs.finite()) by {
        broadcast use vstd::seq_lib::seq_to_set_is_finite;

    }
    let pair = Set::<char>::empty().insert(c1).insert(c2);
    assert(pair.subset_of(obs));
    vstd::set_lib::lemma_len_subset(pair, obs);
    assert(pair.len() == 2) by {
        assert(Set::<char>::empty().insert(c1).contains(c1));
        assert(!Set::<char>::empty().insert(c1).contains(c2));
        assert(pair.len() == Set::<char>::empty().insert(c1).len() + 1);
        assert(Set::<char>::empty().insert(c1).len() == Set::<char>::empty().len() + 1);
    }
    assert(obs.len() >= 2);
    assert(!counts_ok(nums, sol, caps));
}

/// The validator never consults the capacity entry of digit 0: its result
/// is the same under any two tables that agree on digits 1 to 9.
pub proof fn lemma_capacity_zero_not_consulted(
    sol: Seq<Seq<char>>,
    nums: Seq<Seq<u8>>,
    root: Node,
    caps1: Seq<u8>,
    caps2: Seq<u8>,
)
    requires
        caps1.len() == 10,
        caps2.len() == 10,
        forall|d: int| 1 <= d < 10 ==> #[trigger] caps1[d] == caps2[d],
    ensures
        spec_is_valid(sol, nums, root, caps1) == spec_is_valid(sol, nums, root, caps2),
{
    assert(counts_ok(nums, sol, caps1) == counts_ok(nums, sol, caps2)) by {
        if counts_ok(nums, sol, caps1) {
            assert forall|d: int| 1 <= d < 10
                implies observed(nums, sol, d as u8).len() <= #[trigger] caps2[d] by {
                assert(observed(nums, sol, d as u8).len() <= caps1[d]);
            }
        }
        if counts_ok(nums, sol, caps2) {
            assert forall|d: int| 1 <= d < 10
                implies observed(nums, sol, d as u8).len() <= #[trigger] caps1[d] by {
                assert(observed(nums, sol, d as u8).len() <= caps2[d]);
            }
        }
    }
}

/// A solution whose decided prefix for some word is non-empty yet prefixes
/// no dictionary word is rejected.
pub proof fn lemma_validator_rejects_bad_prefix(
    sol: Seq<Seq<char>>,
    nums: Seq<Seq<u8>>,
    root: Node,
    caps: Seq<u8>,
    words: Seq<Seq<char>>,
    i: int,
)
    requires
        crate::trie::represents(root, words),
        0 <= i < sol.len(),
        placed_prefix(sol[i]).len() > 0,
        forall|j: int| 0 <= j < words.len()
            ==> !placed_prefix(sol[i]).is_prefix_of(#[trigger] words[j]),
    ensures
        !spec_is_valid(sol, nums, root, caps),
{
    crate::trie::lemma_prefix_of_no_word(root, words, placed_prefix(sol[i]));
    assert(!word_ok(root, sol[i]));
}

/// Builds the decided prefix of a word: its cells before the first blank.
pub fn placed_prefix_vec(word: &Vec<char>) -> (p: Vec<char>)
    ensures
        p@ == placed_prefix(word@),
        p@.len() == first_blank(word@),
        p@.len() <= word@.len(),
{
    let n = word.len();
    let mut p: Vec<char> = Vec::new();
    let mut j: usize = 0;
    while j < n
        invariant
            j <= n,
            n == word@.len(),
            p@ == word@.take(j as int),
            first_blank(word@) == first_blank_from(word@, j as int),
        decreases n - j,
    {
        if word[j] == ' ' {
            proof {
                assert(first_blank_from(word@, j as int) == j);
            }
            return p;
        }
        p.push(word[j]);
        proof {
            assert(p@ =~= word@.take(j as int + 1));
        }
        j = j + 1;
    }
    proof {
        assert(first_blank_from(word@, n as int) == n);
        assert(p@ =~= word@.take(first_blank(word@)));
    }
    p
}

/// True when some cell of the word already holds a letter.
pub fn has_placed_cell(word: &Vec<char>) -> (b: bool)
    ensures
        b == has_placed(word@),
{
    let n = word.len();
    let mut j: usize = 0;
    while j < n
        invariant
            j <= n,
            n == word@.len(),
            forall|m: int| 0 <= m < j ==> word@[m] == ' ',
        decreases n - j,
    {
        if word[j] != ' ' {
            return true;
        }
        j = j + 1;
    }
    false
}

/// True when the letter list already holds `c`.
fn contains_char(letters: &Vec<char>, c: char) -> (b: bool)
    ensures
        b == letters@.contains(c),
{
    let n = letters.len();
    let mut j: usize = 0;
    while j < n
        invariant
            j <= n,
            n == letters@.len(),
            forall|m: int| 0 <= m < j ==> letters@[m] != c,
        decreases n - j,
    {
        if letters[j] == c {
            return true;
        }
        j = j + 1;
    }
    false
}

/// Validator: true exactly when the partial solution still satisfies every
/// constraint — no word abandoned incomplete, every decided prefix valid in
/// the trie, every finished word a dictionary word, and every digit's
/// distinct letters within its capacity.
pub fn is_valid(
    solution: &Vec<Vec<char>>,
    input_numbers: &Vec<Vec<u8>>,
    wordlist_tree: &Node,
    number_letter_counts: &Vec<u8>,
) -> (r: bool)
    requires
        aligned(solution.deep_view(), input_numbers.deep_view()),
        number_letter_counts@.len() == 10,
    ensures
        r == spec_is_valid(
            solution.deep_view(),
            input_numbers.deep_view(),
            *wordlist_tree,
            number_letter_counts@,
        ),
{
    let ghost sol = solution.deep_view();
    let ghost nums = input_numbers.deep_view();
    let n = solution.len();
    proof {
        assert(sol.len() == n);
        assert(forall|i: int| 0 <= i < n ==> sol[i] == #[trigger] solution@[i]@);
        assert(forall|i: int| 0 <= i < n ==> nums[i] == #[trigger] input_numbers@[i]@);
    }

    // word structure: staircase, prefix validity, completed words
    let mut seen_nonfull: bool = false;
    let ghost mut nf_idx: int = 0;
    let mut i: usize = 0;
    while i < n
        invariant
            i <= n,
            n == sol.len(),
            sol == solution.deep_view(),
            nums == input_numbers.deep_view(),
            aligned(sol, nums),
            forall|i0: int| 0 <= i0 < n ==> sol[i0] == #[trigger] solution@[i0]@,
            forall|i0: int, j0: int|
                0 <= i0 < j0 < i && has_placed(#[trigger] sol[j0])
                    ==> fully_placed(#[trigger] sol[i0]),
            forall|i0: int| 0 <= i0 < i ==> word_ok(*wordlist_tree, #[trigger] sol[i0]),
            seen_nonfull ==> 0 <= nf_idx < i && !fully_placed(sol[nf_idx]),
            !seen_nonfull ==> forall|i0: int| 0 <= i0 < i ==> fully_placed(#[trigger] sol[i0]),
        decreases n - i,
    {
        let word = &solution[i];
        proof {
            assert(word@ == sol[i as int]);
        }
        let placed = has_placed_cell(word);
        if placed && seen_nonfull {
            proof {
                assert(!staircase(sol));
            }
            return false;
        }
        let p = placed_prefix_vec(word);
        if !wordlist_tree.contains_prefix(&p) {
            proof {
                assert(!word_ok(*wordlist_tree, sol[i as int]));
            }
            return false;
        }
        let fully = p.len() == word.len();
        proof {
            assert(fully == fully_placed(sol[i as int]));
        }
        if fully {
            if !wordlist_tree.contains_word(word) {
                proof {
                    assert(!word_ok(*wordlist_tree, sol[i as int]));
                }
                return false;
            }
        } else {
            seen_nonfull = true;
            proof {
                nf_idx = i as int;
            }
        }
        i = i + 1;
    }

    // per-digit distinct-letter capacities
    let mut d: u8 = 1;
    while d < 10
        invariant
            1 <= d <= 10,
            n == sol.len(),
            sol == solution.deep_view(),
            nums == input_numbers.deep_view(),
            aligned(sol, nums),
            number_letter_counts@.len() == 10,
            forall|i0: int| 0 <= i0 < n ==> sol[i0] == #[trigger] solution@[i0]@,
            forall|i0: int| 0 <= i0 < n ==> nums[i0] == #[trigger] input_numbers@[i0]@,
            staircase(sol),
            words_ok(*wordlist_tree, sol),
            forall|e: int| 1 <= e < d as int
                ==> observed(nums, sol, e as u8).len() <= #[trigger] number_letter_counts@[e],
        decreases 10 - d,
    {
        let mut letters: Vec<char> = Vec::new();
        let mut i: usize = 0;
        while i < n
            invariant
                i <= n,
                n == sol.len(),
                sol == solution.deep_view(),
                nums == input_numbers.deep_view(),
                aligned(sol, nums),
                forall|i0: int| 0 <= i0 < n ==> sol[i0] == #[trigger] solution@[i0]@,
                forall|i0: int| 0 <= i0 < n ==> nums[i0] == #[trigger] input_numbers@[i0]@,
                letters@.no_duplicates(),
                letters@.to_set() == sol_letters(nums, sol, d, i as int).to_set(),
            decreases n - i,
        {
            let word = &solution[i];
            let nword = &input_numbers[i];
            let m = word.len();
            proof {
                assert(word@ == sol[i as int]);
                assert(nword@ == nums[i as int]);
                assert(nword@.len() == m);
            }
            let mut k: usize = 0;
            while k < m
                invariant
                    k <= m,
                    m == sol[i as int].len(),
                    m == nums[i as int].len(),
                    (i as int) < sol.len(),
                    sol == solution.deep_view(),
                    nums == input_numbers.deep_view(),
                    word@ == sol[i as int],
                    nword@ == nums[i as int],
                    letters@.no_duplicates(),
                    letters@.to_set() == (sol_letters(nums, sol, d, i as int) + word_letters(
                        nums[i as int],
                        sol[i as int],
                        d,
                        k as int,
                    )).to_set(),
                decreases m - k,
            {
                let ghost before = sol_letters(nums, sol, d, i as int) + word_letters(
                    nums[i as int],
                    sol[i as int],
                    d,
                    k as int,
                );
                let ghost after = sol_letters(nums, sol, d, i as int) + word_letters(
                    nums[i as int],
                    sol[i as int],
                    d,
                    k as int + 1,
                );
                let c = word[k];
                let dv = nword[k];
                if dv == d && c != ' ' {
                    proof {
                        assert(after =~= before.push(c)) by {
                            assert(word_letters(nums[i as int], sol[i as int], d, k as int + 1)
                                =~= word_letters(nums[i as int], sol[i as int], d, k as int)
                                    .push(c));
                        }
                        lemma_to_set_push(before, c);
                    }
                    if !contains_char(&letters, c) {
                        proof {
                            lemma_no_dup_push(letters@, c);
                            assert(letters@.push(c).to_set() == letters@.to_set().insert(c)) by {
                                lemma_to_set_push(letters@, c);
                            }
                        }
                        letters.push(c);
                    } else {
                        proof {
                            assert(letters@.to_set().contains(c));
                            assert(letters@.to_set() =~= letters@.to_set().insert(c));
                        }
                    }
                } else {
                    proof {
                        assert(after =~= before) by {
                            assert(word_letters(nums[i as int], sol[i as int], d, k as int + 1)
                                =~= word_letters(nums[i as int], sol[i as int], d, k as int));
                        }
                    }
                }
                k = k + 1;
            }
            proof {
                assert(sol_letters(nums, sol, d, i as int) + word_letters(
                    nums[i as int],
                    sol[i as int],
                    d,
                    nums[i as int].len() as int,
                ) =~= sol_letters(nums, sol, d, i as int + 1));
            }
            i = i + 1;
        }
        proof {
            letters@.unique_seq_to_set();
            assert(observed(nums, sol, d).len() == letters@.len());
        }
        if letters.len() > number_letter_counts[d as usize] as usize {
            proof {
                assert(observed(nums, sol, d).len() > number_letter_counts@[d as int]);
                assert(!counts_ok(nums, sol, number_letter_counts@));
            }
            return false;
        }
        d = d + 1;
    }
    proof {
        assert(counts_ok(nums, sol, number_letter_counts@));
    }
    true
}

} // verus!
