//! Per-word local filtering: an alternative strategy that narrows each
//! puzzle token's candidate words and each digit's candidate letters by
//! mutual refinement, without the backtracking search.

use vstd::prelude::*;

verus! {

/// One puzzle token together with the dictionary words still considered
/// possible for it.
pub struct Word {
    pub numbers: Vec<u8>,
    pub possible_words: Vec<Vec<char>>,
}

/// A candidate word survives the global filter when its length matches some
/// token and it is made only of lower-case ASCII letters.
pub open spec fn keep_global(nums: Seq<Seq<u8>>, w: Seq<char>) -> bool {
    &&& exists|i: int| 0 <= i < nums.len() && (#[trigger] nums[i]).len() == w.len()
    &&& forall|k: int| 0 <= k < w.len() ==> 97 <= (#[trigger] w[k]) as u32 <= 122
}

/// The word list after the global filter.
pub open spec fn global_filtered(nums: Seq<Seq<u8>>, ws: Seq<Seq<char>>) -> Seq<Seq<char>> {
    ws.filter(|w: Seq<char>| keep_global(nums, w))
}

/// The global filter treats an appended word independently.
proof fn lemma_global_push(nums: Seq<Seq<u8>>, ws: Seq<Seq<char>>, t: Seq<char>)
    ensures
        keep_global(nums, t) ==> global_filtered(nums, ws.push(t)) == global_filtered(
            nums,
            ws,
        ).push(t),
        !keep_global(nums, t) ==> global_filtered(nums, ws.push(t)) == global_filtered(nums, ws),
{
    broadcast use Seq::lemma_filter_push;

    let p = |w: Seq<char>| keep_global(nums, w);
    if p(t) {
        assert(ws.push(t).filter(p) == ws.filter(p).push(t));
    } else {
        assert(ws.push(t).filter(p) == ws.filter(p));
    }
}

/// Checks the global filter's condition for one candidate word.
fn keep_global_check(input_numbers: &Vec<Vec<u8>>, w: &Vec<char>) -> (b: bool)
    ensures
        b == keep_global(input_numbers.deep_view(), w@),
{
    let ghost nums = input_numbers.deep_view();
    let mut lenok: bool = false;
    let mut i: usize = 0;
    let n = input_numbers.len();
    while i < n
        invariant
            i <= n,
            n == nums.len(),
            nums == input_numbers.deep_view(),
            lenok <==> exists|m: int| 0 <= m < i && (#[trigger] nums[m]).len() == w@.len(),
        decreases n - i,
    {
        if input_numbers[i].len() == w.len() {
            lenok = true;
            proof {
                assert(nums[i as int].len() == w@.len());
            }
        }
        proof {
            if lenok {
                let m = choose|m: int| 0 <= m <= i && (#[trigger] nums[m]).len() == w@.len();
            }
        }
        i = i + 1;
    }
    if !lenok {
        return false;
    }
    let mut k: usize = 0;
    let m = w.len();
    while k < m
        invariant
            k <= m,
            m == w@.len(),
            forall|q: int| 0 <= q < k ==> 97 <= (#[trigger] w@[q]) as u32 <= 122,
        decreases m - k,
    {
        let u = w[k] as u32;
        if !(97 <= u && u <= 122) {
            return false;
        }
        k = k + 1;
    }
    true
}

/// Removes from the candidate list every word whose length matches no token
/// or that holds anything besides lower-case ASCII letters.
pub fn filter_words_globally(input_numbers: &Vec<Vec<u8>>, possible_words: &mut Vec<Vec<char>>)
    ensures
        final(possible_words).deep_view() == global_filtered(
            input_numbers.deep_view(),
            old(possible_words).deep_view(),
        ),
{
    let ghost nums = input_numbers.deep_view();
    let ghost ws0 = old(possible_words).deep_view();
    let mut out: Vec<Vec<char>> = Vec::new();
    let n = possible_words.len();
    let mut i: usize = 0;
    while i < n
        invariant
            i <= n,
            n == ws0.len(),
            ws0 == possible_words.deep_view(),
            nums == input_numbers.deep_view(),
            out.deep_view() == global_filtered(nums, ws0.take(i as int)),
        decreases n - i,
    {
        proof {
            assert(ws0.take(i as int + 1) =~= ws0.take(i as int).push(ws0[i as int]));
            lemma_global_push(nums, ws0.take(i as int), ws0[i as int]);
        }
        let w = possible_words[i].clone();
        proof {
            assert(w@ =~= ws0[i as int]);
        }
        if keep_global_check(input_numbers, &w) {
            out.push(w);
            proof {
                assert(out.deep_view() =~~= global_filtered(nums, ws0.take(i as int)).push(
                    ws0[i as int],
                ));
            }
        }
        i = i + 1;
    }
    proof {
        assert(ws0.take(n as int) =~= ws0);
    }
    *possible_words = out;
}

/// Condition placed by the refinement pass on cell `k` of a candidate word:
/// digits 7 and 8 must take an allowed letter and the same letter at every
/// occurrence, every occurrence of digit 1 must take a distinct letter, and
/// any other digit must take an allowed letter.
pub open spec fn refine_cell_ok(nums: Seq<u8>, w: Seq<char>, poss: Seq<Seq<char>>, k: int) -> bool {
    let d = nums[k] as int;
    if d == 7 || d == 8 {
        &&& poss[d].contains(w[k])
        &&& forall|k2: int|
            0 <= k2 < nums.len() && k2 < w.len() && (#[trigger] nums[k2]) == nums[k]
                ==> w[k2] == w[k]
    } else if d == 1 {
        forall|k2: int|
            0 <= k2 < nums.len() && k2 < w.len() && k2 != k && (#[trigger] nums[k2]) == 1
                ==> w[k2] != w[k]
    } else {
        poss[d].contains(w[k])
    }
}

/// A candidate word survives the refinement pass when every cell meets its
/// condition.
pub open spec fn refine_keep(nums: Seq<u8>, w: Seq<char>, poss: Seq<Seq<char>>) -> bool {
    forall|k: int| 0 <= k < nums.len() && k < w.len() ==> #[trigger] refine_cell_ok(nums, w, poss, k)
}

/// The candidate list of one token after the refinement pass.
pub open spec fn refine_filtered(nums: Seq<u8>, ws: Seq<Seq<char>>, poss: Seq<Seq<char>>)
    -> Seq<Seq<char>> {
    ws.filter(|w: Seq<char>| refine_keep(nums, w, poss))
}

/// The refinement filter treats an appended word independently.
proof fn lemma_refine_push(nums: Seq<u8>, ws: Seq<Seq<char>>, poss: Seq<Seq<char>>, t: Seq<char>)
    ensures
        refine_keep(nums, t, poss) ==> refine_filtered(nums, ws.push(t), poss) == refine_filtered(
            nums,
            ws,
            poss,
        ).push(t),
        !refine_keep(nums, t, poss) ==> refine_filtered(nums, ws.push(t), poss) == refine_filtered(
            nums,
            ws,
            poss,
        ),
{
    broadcast use Seq::lemma_filter_push;

    let p = |w: Seq<char>| refine_keep(nums, w, poss);
    if p(t) {
        assert(ws.push(t).filter(p) == ws.filter(p).push(t));
    } else {
        assert(ws.push(t).filter(p) == ws.filter(p));
    }
}

/// True when the letter list already holds `c`.
fn holds_char(letters: &Vec<char>, c: char) -> (b: bool)
    ensures
        b == letters@.contains(c),
{
    let n = letters.len();
    let mut j: usize = 0;
    while j < n
        invariant
            j <= n,
            n == letters@.len(),
            forall|m: int| 0 <= m < j ==> letters@[m] != c,
        decreases n - j,
    {
        if letters[j] == c {
            return true;
        }
        j = j + 1;
    }
    false
}

/// Checks the refinement condition for one candidate word.
fn refine_check(nums: &Vec<u8>, w: &Vec<char>, poss: &Vec<Vec<char>>) -> (b: bool)
    requires
        poss@.len() == 10,
        forall|k: int| 0 <= k < nums@.len() ==> (#[trigger] nums@[k]) < 10,
    ensures
        b == refine_keep(nums@, w@, poss.deep_view()),
{
    let ghost pv = poss.deep_view();
    let n = nums.len();
    let wl = w.len();
    let mut k: usize = 0;
    while k < n
        invariant
            k <= n,
            n == nums@.len(),
            wl == w@.len(),
            pv == poss.deep_view(),
            pv.len() == 10,
            forall|q: int| 0 <= q < nums@.len() ==> (#[trigger] nums@[q]) < 10,
            forall|q: int| 0 <= q < k && q < wl ==> #[trigger] refine_cell_ok(nums@, w@, pv, q),
        decreases n - k,
    {
        if k < wl {
            let d = nums[k];
            let letter = w[k];
            proof {
                assert(pv[d as int] == poss@[d as int]@);
            }
            if d == 7 || d == 8 {
                if !holds_char(&poss[d as usize], letter) {
                    proof {
                        assert(!refine_cell_ok(nums@, w@, pv, k as int));
                    }
                    return false;
                }
                let mut k2: usize = 0;
                while k2 < n
                    invariant
                        k2 <= n,
                        n == nums@.len(),
                        wl == w@.len(),
                        pv == poss.deep_view(),
                        (k as int) < nums@.len(),
                        (k as int) < w@.len(),
                        d == nums@[k as int],
                        d == 7 || d == 8,
                        letter == w@[k as int],
                        forall|q: int| 0 <= q < k2 && q < wl && (#[trigger] nums@[q]) == d
                            ==> w@[q] == letter,
                    decreases n - k2,
                {
                    if k2 < wl && nums[k2] == d && w[k2] != letter {
                        proof {
                            assert(!refine_cell_ok(nums@, w@, pv, k as int)) by {
                                if refine_cell_ok(nums@, w@, pv, k as int) {
                                    assert(w@[k2 as int] == w@[k as int]);
                                }
                            }
                            assert(!refine_keep(nums@, w@, pv)) by {
                                if refine_keep(nums@, w@, pv) {
                                    assert(refine_cell_ok(nums@, w@, pv, k as int));
                                }
                            }
                        }
                        return false;
                    }
                    k2 = k2 + 1;
                }
            } else if d == 1 {
                let mut k2: usize = 0;
                while k2 < n
                    invariant
                        k2 <= n,
                        n == nums@.len(),
                        wl == w@.len(),
                        pv == poss.deep_view(),
                        (k as int) < nums@.len(),
                        (k as int) < w@.len(),
                        1 == nums@[k as int],
                        d == 1,
                        letter == w@[k as int],
                        forall|q: int| 0 <= q < k2 && q < wl && q != k as int
                            && (#[trigger] nums@[q]) == 1 ==> w@[q] != letter,
                    decreases n - k2,
                {
                    if k2 != k && k2 < wl && nums[k2] == 1 && w[k2] == letter {
                        proof {
                            assert(!refine_cell_ok(nums@, w@, pv, k as int)) by {
                                if refine_cell_ok(nums@, w@, pv, k as int) {
                                    assert(w@[k2 as int] != w@[k as int]);
                                }
                            }
                            assert(!refine_keep(nums@, w@, pv)) by {
                                if refine_keep(nums@, w@, pv) {
                                    assert(refine_cell_ok(nums@, w@, pv, k as int));
                                }
                            }
                        }
                        return false;
                    }
                    k2 = k2 + 1;
                }
            } else {
                if !holds_char(&poss[d as usize], letter) {
                    proof {
                        assert(!refine_cell_ok(nums@, w@, pv, k as int));
                    }
                    return false;
                }
            }
            proof {
                assert(refine_cell_ok(nums@, w@, pv, k as int));
            }
        }
        k = k + 1;
    }
    true
}

/// Applies the refinement pass: for every token, keeps only the candidate
/// words meeting the per-cell conditions on digits 7, 8 and 1 and the
/// allowed-letter table.
pub fn refine_possible_words(input_words: &mut Vec<Word>, possible_letters: &Vec<Vec<char>>)
    requires
        possible_letters@.len() == 10,
        forall|i: int, k: int|
            0 <= i < old(input_words)@.len() && 0 <= k < old(input_words)@[i].numbers@.len()
                ==> #[trigger] old(input_words)@[i].numbers@[k] < 10,
    ensures
        final(input_words)@.len() == old(input_words)@.len(),
        forall|i: int| 0 <= i < old(input_words)@.len()
            ==> (#[trigger] final(input_words)@[i].numbers)@ == old(input_words)@[i].numbers@,
        forall|i: int| 0 <= i < old(input_words)@.len()
            ==> (#[trigger] final(input_words)@[i].possible_words).deep_view() == refine_filtered(
                old(input_words)@[i].numbers@,
                old(input_words)@[i].possible_words.deep_view(),
                possible_letters.deep_view(),
            ),
{
    let ghost pv = possible_letters.deep_view();
    let ghost ws0 = input_words@;
    let n = input_words.len();
    let mut out: Vec<Word> = Vec::new();
    let mut i: usize = 0;
    while i < n
        invariant
            i <= n,
            n == ws0.len(),
            ws0 == input_words@,
            pv == possible_letters.deep_view(),
            pv.len() == 10,
            possible_letters@.len() == 10,
            forall|i0: int, k: int|
                0 <= i0 < ws0.len() && 0 <= k < ws0[i0].numbers@.len()
                    ==> #[trigger] ws0[i0].numbers@[k] < 10,
            out@.len() == i as int,
            forall|i0: int| 0 <= i0 < i
                ==> (#[trigger] out@[i0].numbers)@ == ws0[i0].numbers@,
            forall|i0: int| 0 <= i0 < i
                ==> (#[trigger] out@[i0].possible_words).deep_view() == refine_filtered(
                    ws0[i0].numbers@,
                    ws0[i0].possible_words.deep_view(),
                    pv,
                ),
        decreases n - i,
    {
        let wd = &input_words[i];
        let ghost cand0 = wd.possible_words.deep_view();
        let m = wd.possible_words.len();
        let mut kept: Vec<Vec<char>> = Vec::new();
        let mut j: usize = 0;
        while j < m
            invariant
                j <= m,
                (i as int) < ws0.len(),
                ws0 == input_words@,
                wd == ws0[i as int],
                m == cand0.len(),
                cand0 == wd.possible_words.deep_view(),
                pv == possible_letters.deep_view(),
                pv.len() == 10,
                possible_letters@.len() == 10,
                forall|k: int| 0 <= k < wd.numbers@.len() ==> (#[trigger] wd.numbers@[k]) < 10,
                kept.deep_view() == refine_filtered(wd.numbers@, cand0.take(j as int), pv),
            decreases m - j,
        {
            proof {
                assert(cand0.take(j as int + 1) =~= cand0.take(j as int).push(cand0[j as int]));
                lemma_refine_push(wd.numbers@, cand0.take(j as int), pv, cand0[j as int]);
            }
            let w = wd.possible_words[j].clone();
            proof {
                assert(w@ =~= cand0[j as int]);
            }
            if refine_check(&wd.numbers, &w, possible_letters) {
                kept.push(w);
                proof {
                    assert(kept.deep_view() =~~= refine_filtered(
                        wd.numbers@,
                        cand0.take(j as int),
                        pv,
                    ).push(cand0[j as int]));
                }
            }
            j = j + 1;
        }
        proof {
            assert(cand0.take(m as int) =~= cand0);
        }
        let numbers = wd.numbers.clone();
        proof {
            assert(numbers@ =~= wd.numbers@);
        }
        out.push(Word { numbers, possible_words: kept });
        i = i + 1;
    }
    *input_words = out;
}

/// The letter `x` appears on a cell of digit `d` in one of the candidate
/// words of this token, at a position carrying `d`.
pub open spec fn word_has_letter(wd: Word, d: u8, x: char) -> bool {
    exists|j: int, k: int|
        0 <= j < wd.possible_words@.len() && 0 <= k < wd.numbers@.len() && wd.numbers@[k] == d && k
            < wd.possible_words@[j]@.len() && wd.possible_words@[j]@[k] == x
}

/// The letter `x` appears for digit `d` somewhere among the tokens.
pub open spec fn some_word_has_letter(ws: Seq<Word>, d: u8, x: char) -> bool {
    exists|i: int| 0 <= i < ws.len() && word_has_letter(#[trigger] ws[i], d, x)
}

/// Strictly ascending by character code: sorted with no repeats.
pub open spec fn sorted_letters(s: Seq<char>) -> bool {
    forall|i: int, j: int| 0 <= i < j < s.len() ==> ((#[trigger] s[i]) as u32) < ((#[trigger] s[j]) as u32)
}

/// A strictly ascending letter list holds no duplicates.
proof fn lemma_sorted_no_dup(s: Seq<char>)
    requires
        sorted_letters(s),
    ensures
        s.no_duplicates(),
{
    assert forall|i: int, j: int| 0 <= i < s.len() && 0 <= j < s.len() && i != j
        implies s[i] != s[j] by {
        if i < j {
            assert((s[i] as u32) < (s[j] as u32));
        } else {
            assert((s[j] as u32) < (s[i] as u32));
        }
    }
}

/// Inserts a letter not yet present at its place in an ascending list.
fn insert_sorted(letters: &mut Vec<char>, c: char)
    requires
        sorted_letters(old(letters)@),
        !old(letters)@.contains(c),
    ensures
        sorted_letters(final(letters)@),
        final(letters)@.len() == old(letters)@.len() + 1,
        forall|x: char| final(letters)@.contains(x) <==> (old(letters)@.contains(x) || x == c),
{
    let ghost lets0 = letters@;
    let cu = c as u32;
    let n = letters.len();
    let mut j: usize = 0;
    while j < n && (letters[j] as u32) < cu
        invariant
            j <= n,
            n == letters@.len(),
            letters@ == lets0,
            cu == c as u32,
            forall|m: int| 0 <= m < j ==> ((#[trigger] letters@[m]) as u32) < cu,
        decreases n - j,
    {
        j = j + 1;
    }
    proof {
        if (j as int) < lets0.len() {
            assert(!((lets0[j as int] as u32) < cu));
            assert(lets0[j as int] != c);
            crate::solver::lemma_char_code_injective_neq(lets0[j as int], c);
        }
    }
    letters.insert(j, c);
    proof {
        let q = letters@;
        assert(q == lets0.insert(j as int, c));
        assert forall|i1: int, i2: int| 0 <= i1 < i2 < q.len()
            implies ((#[trigger] q[i1]) as u32) < ((#[trigger] q[i2]) as u32) by {
            let m1: int = if i1 < j { i1 } else { i1 - 1 };
            let m2: int = if i2 <= j { i2 } else { i2 - 1 };
            if i1 == j {
                assert(q[i1] == c);
                assert(q[i2] == lets0[m2]);
                assert(!((lets0[j as int] as u32) < cu));
                if m2 > j {
                    assert((lets0[j as int] as u32) < (lets0[m2] as u32));
                }
            } else if i2 == j {
                assert(q[i2] == c);
                assert(q[i1] == lets0[m1]);
            } else {
                assert(q[i1] == lets0[m1]);
                assert(q[i2] == lets0[m2]);
                if m1 < m2 {
                } else {
                    assert(m1 == m2);
                    assert(i1 < j && i2 > j);
                    assert(false);
                }
            }
        }
        assert forall|x: char| q.contains(x) <==> (lets0.contains(x) || x == c) by {
            if q.contains(x) {
                let idx = choose|idx: int| 0 <= idx < q.len() && q[idx] == x;
                if idx < j {
                    assert(lets0[idx] == x);
                } else if idx == j {
                    assert(x == c);
                } else {
                    assert(lets0[idx - 1] == x);
                }
            }
            if lets0.contains(x) {
                let idx = choose|idx: int| 0 <= idx < lets0.len() && lets0[idx] == x;
                if idx < j {
                    assert(q[idx] == x);
                } else {
                    assert(q[idx + 1] == x);
                }
            }
            if x == c {
                assert(q[j as int] == x);
            }
        }
    }
}

/// Like `word_has_letter`, restricted to candidate words before `j`, plus
/// positions before `k` of candidate word `j` itself.
pub open spec fn word_letter_upto(wd: Word, d: u8, x: char, j: int, k: int) -> bool {
    exists|j2: int, k2: int|
        0 <= j2 < wd.possible_words@.len() && 0 <= k2 < wd.numbers@.len() && (j2 < j || (j2 == j
            && k2 < k)) && wd.numbers@[k2] == d && k2 < wd.possible_words@[j2]@.len()
            && wd.possible_words@[j2]@[k2] == x
}

/// Like `some_word_has_letter`, restricted to the first `i` tokens.
pub open spec fn some_word_letter_upto(ws: Seq<Word>, d: u8, x: char, i: int) -> bool {
    exists|i2: int| 0 <= i2 < i && i2 < ws.len() && word_has_letter(#[trigger] ws[i2], d, x)
}

/// Recomputes, for every digit 0 to 9, the distinct letters that appear on
/// cells of that digit across all candidate words of all tokens, listed in
/// ascending order.
pub fn update_possible_letters(input_words: &Vec<Word>, possible_letters: &mut Vec<Vec<char>>)
    ensures
        final(possible_letters)@.len() == 10,
        forall|d: int| 0 <= d < 10 ==> sorted_letters(#[trigger] final(possible_letters)@[d]@),
        forall|d: int| 0 <= d < 10
            ==> (#[trigger] final(possible_letters)@[d]@).no_duplicates(),
        forall|d: int, x: char|
            0 <= d < 10 ==> ((#[trigger] final(possible_letters)@[d]@.contains(x))
                <==> some_word_has_letter(input_words@, d as u8, x)),
{
    let ghost ws = input_words@;
    let n = input_words.len();
    let mut out: Vec<Vec<char>> = Vec::new();
    let mut d: u8 = 0;
    while d < 10
        invariant
            d <= 10,
            n == ws.len(),
            ws == input_words@,
            out@.len() == d as int,
            forall|e: int| 0 <= e < d as int ==> sorted_letters(#[trigger] out@[e]@),
            forall|e: int| 0 <= e < d as int ==> (#[trigger] out@[e]@).no_duplicates(),
            forall|e: int, x: char|
                0 <= e < d as int ==> ((#[trigger] out@[e]@.contains(x)) <==> some_word_has_letter(
                    ws,
                    e as u8,
                    x,
                )),
        decreases 10 - d,
    {
        let mut letters: Vec<char> = Vec::new();
        let mut i: usize = 0;
        while i < n
            invariant
                i <= n,
                n == ws.len(),
                ws == input_words@,
                sorted_letters(letters@),
                forall|x: char| #[trigger] letters@.contains(x) <==> some_word_letter_upto(
                    ws,
                    d,
                    x,
                    i as int,
                ),
            decreases n - i,
        {
            let wd = &input_words[i];
            let m = wd.possible_words.len();
            let mut j: usize = 0;
            while j < m
                invariant
                    j <= m,
                    (i as int) < ws.len(),
                    ws == input_words@,
                    wd == ws[i as int],
                    m == wd.possible_words@.len(),
                    sorted_letters(letters@),
                    forall|x: char| #[trigger] letters@.contains(x) <==> (some_word_letter_upto(
                        ws,
                        d,
                        x,
                        i as int,
                    ) || word_letter_upto(ws[i as int], d, x, j as int, 0)),
                decreases m - j,
            {
                let nl = wd.numbers.len();
                let mut k: usize = 0;
                while k < nl
                    invariant
                        k <= nl,
                        (i as int) < ws.len(),
                        (j as int) < ws[i as int].possible_words@.len(),
                        ws == input_words@,
                        wd == ws[i as int],
                        nl == wd.numbers@.len(),
                        sorted_letters(letters@),
                        forall|x: char| #[trigger] letters@.contains(x) <==> (
                            some_word_letter_upto(ws, d, x, i as int) || word_letter_upto(
                                ws[i as int],
                                d,
                                x,
                                j as int,
                                k as int,
                            )),
                    decreases nl - k,
                {
                    if wd.numbers[k] == d && k < wd.possible_words[j].len() {
                        let c = wd.possible_words[j][k];
                        proof {
                            assert(word_letter_upto(ws[i as int], d, c, j as int, k as int + 1));
                        }
                        if !holds_char(&letters, c) {
                            let ghost lets0 = letters@;
                            insert_sorted(&mut letters, c);
                            proof {
                                assert forall|x: char| #[trigger] letters@.contains(x) <==> (
                                    some_word_letter_upto(ws, d, x, i as int) || word_letter_upto(
                                        ws[i as int],
                                        d,
                                        x,
                                        j as int,
                                        k as int + 1,
                                    )) by {
                                    assert(letters@.contains(x) <==> (lets0.contains(x) || x
                                        == c));
                                    if lets0.contains(x) && word_letter_upto(
                                        ws[i as int],
                                        d,
                                        x,
                                        j as int,
                                        k as int,
                                    ) {
                                        let (j2, k2): (int, int) = choose|j2: int, k2: int|
                                            0 <= j2 < ws[i as int].possible_words@.len() && 0 <= k2
                                                < ws[i as int].numbers@.len() && (j2 < j as int || (
                                            j2 == j as int && k2 < k as int))
                                                && ws[i as int].numbers@[k2] == d && k2
                                                < ws[i as int].possible_words@[j2]@.len()
                                                && ws[i as int].possible_words@[j2]@[k2] == x;
                                        assert(word_letter_upto(
                                            ws[i as int],
                                            d,
                                            x,
                                            j as int,
                                            k as int + 1,
                                        ));
                                    }
                                    if word_letter_upto(ws[i as int], d, x, j as int, k as int + 1) {
                                        let (j2, k2): (int, int) = choose|j2: int, k2: int|
                                            0 <= j2 < ws[i as int].possible_words@.len() && 0 <= k2
                                                < ws[i as int].numbers@.len() && (j2 < j as int || (
                                            j2 == j as int && k2 < k as int + 1))
                                                && ws[i as int].numbers@[k2] == d && k2
                                                < ws[i as int].possible_words@[j2]@.len()
                                                && ws[i as int].possible_words@[j2]@[k2] == x;
                                        if j2 < j as int || (j2 == j as int && k2 < k as int) {
                                            assert(word_letter_upto(
                                                ws[i as int],
                                                d,
                                                x,
                                                j as int,
                                                k as int,
                                            ));
                                            assert(lets0.contains(x));
                                        } else {
                                            assert(x == c);
                                        }
                                    }
                                }
                            }
                        } else {
                            proof {
                                assert forall|x: char| #[trigger] letters@.contains(x) <==> (
                                    some_word_letter_upto(ws, d, x, i as int) || word_letter_upto(
                                        ws[i as int],
                                        d,
                                        x,
                                        j as int,
                                        k as int + 1,
                                    )) by {
                                    if word_letter_upto(ws[i as int], d, x, j as int, k as int + 1)
                                        && !word_letter_upto(
                                        ws[i as int],
                                        d,
                                        x,
                                        j as int,
                                        k as int,
                                    ) {
                                        let (j2, k2): (int, int) = choose|j2: int, k2: int|
                                            0 <= j2 < ws[i as int].possible_words@.len() && 0 <= k2
                                                < ws[i as int].numbers@.len() && (j2 < j as int || (
                                            j2 == j as int && k2 < k as int + 1))
                                                && ws[i as int].numbers@[k2] == d && k2
                                                < ws[i as int].possible_words@[j2]@.len()
                                                && ws[i as int].possible_words@[j2]@[k2] == x;
                                        assert(x == c);
                                    }
                                }
                            }
                        }
                    } else {
                        proof {
                            assert forall|x: char| word_letter_upto(
                                ws[i as int],
                                d,
                                x,
                                j as int,
                                k as int + 1,
                            ) implies (#[trigger] letters@.contains(x) || word_letter_upto(
                                ws[i as int],
                                d,
                                x,
                                j as int,
                                k as int,
                            )) by {
                                let (j2, k2): (int, int) = choose|j2: int, k2: int|
                                    0 <= j2 < ws[i as int].possible_words@.len() && 0 <= k2
                                        < ws[i as int].numbers@.len() && (j2 < j as int || (j2 == j
                                        as int && k2 < k as int + 1)) && ws[i as int].numbers@[k2]
                                        == d && k2 < ws[i as int].possible_words@[j2]@.len()
                                        && ws[i as int].possible_words@[j2]@[k2] == x;
                                if !(j2 < j as int || (j2 == j as int && k2 < k as int)) {
                                    assert(j2 == j as int && k2 == k as int);
                                    assert(false);
                                }
                            }
                        }
                    }
                    k = k + 1;
                }
                proof {
                    assert forall|x: char| word_letter_upto(
                        ws[i as int],
                        d,
                        x,
                        j as int + 1,
                        0,
                    ) implies word_letter_upto(ws[i as int], d, x, j as int, nl as int) by {
                        let (j2, k2): (int, int) = choose|j2: int, k2: int|
                            0 <= j2 < ws[i as int].possible_words@.len() && 0 <= k2
                                < ws[i as int].numbers@.len() && (j2 < j as int + 1 || (j2 == j
                                as int + 1 && k2 < 0)) && ws[i as int].numbers@[k2] == d && k2
                                < ws[i as int].possible_words@[j2]@.len()
                                && ws[i as int].possible_words@[j2]@[k2] == x;
                        assert(j2 < j as int || (j2 == j as int && k2 < nl as int));
                    }
                    assert forall|x: char| word_letter_upto(
                        ws[i as int],
                        d,
                        x,
                        j as int,
                        nl as int,
                    ) implies word_letter_upto(ws[i as int], d, x, j as int + 1, 0) by {
                        let (j2, k2): (int, int) = choose|j2: int, k2: int|
                            0 <= j2 < ws[i as int].possible_words@.len() && 0 <= k2
                                < ws[i as int].numbers@.len() && (j2 < j as int || (j2 == j as int
                                && k2 < nl as int)) && ws[i as int].numbers@[k2] == d && k2
                                < ws[i as int].possible_words@[j2]@.len()
                                && ws[i as int].possible_words@[j2]@[k2] == x;
                        assert(j2 < j as int + 1);
                    }
                }
                j = j + 1;
            }
            proof {
                assert forall|x: char| (some_word_letter_upto(ws, d, x, i as int)
                    || word_letter_upto(ws[i as int], d, x, m as int, 0)) implies
                    some_word_letter_upto(ws, d, x, i as int + 1) by {
                    if word_letter_upto(ws[i as int], d, x, m as int, 0) {
                        let (j2, k2): (int, int) = choose|j2: int, k2: int|
                            0 <= j2 < ws[i as int].possible_words@.len() && 0 <= k2
                                < ws[i as int].numbers@.len() && (j2 < m as int || (j2 == m as int
                                && k2 < 0)) && ws[i as int].numbers@[k2] == d && k2
                                < ws[i as int].possible_words@[j2]@.len()
                                && ws[i as int].possible_words@[j2]@[k2] == x;
                        assert(word_has_letter(ws[i as int], d, x));
                    } else {
                        let i2 = choose|i2: int|
                            0 <= i2 < i as int && i2 < ws.len() && word_has_letter(
                                #[trigger] ws[i2],
                                d,
                                x,
                            );
                    }
                }
                assert forall|x: char| some_word_letter_upto(ws, d, x, i as int + 1) implies (
                    some_word_letter_upto(ws, d, x, i as int) || word_letter_upto(
                        ws[i as int],
                        d,
                        x,
                        m as int,
                        0,
                    )) by {
                    let i2 = choose|i2: int|
                        0 <= i2 < i as int + 1 && i2 < ws.len() && word_has_letter(
                            #[trigger] ws[i2],
                            d,
                            x,
                        );
                    if i2 == i as int {
                        let (j2, k2): (int, int) = choose|j2: int, k2: int|
                            0 <= j2 < ws[i as int].possible_words@.len() && 0 <= k2
                                < ws[i as int].numbers@.len() && ws[i as int].numbers@[k2] == d
                                && k2 < ws[i as int].possible_words@[j2]@.len()
                                && ws[i as int].possible_words@[j2]@[k2] == x;
                        assert(word_letter_upto(ws[i as int], d, x, m as int, 0));
                    }
                }
            }
            i = i + 1;
        }
        proof {
            lemma_sorted_no_dup(letters@);
        }
        out.push(letters);
        proof {
            assert forall|x: char| out@[d as int]@.contains(x) implies some_word_has_letter(
                ws,
                d,
                x,
            ) by {
                let i2 = choose|i2: int|
                    0 <= i2 < n as int && i2 < ws.len() && word_has_letter(#[trigger] ws[i2], d, x);
                assert(word_has_letter(ws[i2], d, x));
            }
            assert forall|x: char| some_word_has_letter(ws, d, x) implies out@[d as int]@.contains(
                x,
            ) by {
                let i2 = choose|i2: int| 0 <= i2 < ws.len() && word_has_letter(
                    #[trigger] ws[i2],
                    d,
                    x,
                );
                assert(some_word_letter_upto(ws, d, x, n as int));
            }
        }
        d = d + 1;
    }
    *possible_letters = out;
}

/// Condition placed by the final pass on a candidate word: every cell's
/// letter must be among the allowed letters of the cell's digit.
pub open spec fn further_keep(nums: Seq<u8>, w: Seq<char>, poss: Seq<Seq<char>>) -> bool {
    forall|k: int|
        0 <= k < nums.len() && k < w.len() ==> poss[nums[k] as int].contains(#[trigger] w[k])
}

/// The candidate list of one token after the final pass.
pub open spec fn further_filtered(nums: Seq<u8>, ws: Seq<Seq<char>>, poss: Seq<Seq<char>>)
    -> Seq<Seq<char>> {
    ws.filter(|w: Seq<char>| further_keep(nums, w, poss))
}

/// The final pass treats an appended word independently.
proof fn lemma_further_push(nums: Seq<u8>, ws: Seq<Seq<char>>, poss: Seq<Seq<char>>, t: Seq<char>)
    ensures
        further_keep(nums, t, poss) ==> further_filtered(nums, ws.push(t), poss)
            == further_filtered(nums, ws, poss).push(t),
        !further_keep(nums, t, poss) ==> further_filtered(nums, ws.push(t), poss)
            == further_filtered(nums, ws, poss),
{
    broadcast use Seq::lemma_filter_push;

    let p = |w: Seq<char>| further_keep(nums, w, poss);
    if p(t) {
        assert(ws.push(t).filter(p) == ws.filter(p).push(t));
    } else {
        assert(ws.push(t).filter(p) == ws.filter(p));
    }
}

/// Checks the final pass's condition for one candidate word.
fn further_check(nums: &Vec<u8>, w: &Vec<char>, poss: &Vec<Vec<char>>) -> (b: bool)
    requires
        poss@.len() == 10,
        forall|k: int| 0 <= k < nums@.len() ==> (#[trigger] nums@[k]) < 10,
    ensures
        b == further_keep(nums@, w@, poss.deep_view()),
{
    let ghost pv = poss.deep_view();
    let n = nums.len();
    let wl = w.len();
    let mut k: usize = 0;
    while k < n
        invariant
            k <= n,
            n == nums@.len(),
            wl == w@.len(),
            pv == poss.deep_view(),
            pv.len() == 10,
            forall|q: int| 0 <= q < nums@.len() ==> (#[trigger] nums@[q]) < 10,
            forall|q: int| 0 <= q < k && q < wl ==> pv[nums@[q] as int].contains(#[trigger] w@[q]),
        decreases n - k,
    {
        if k < wl {
            let d = nums[k];
            proof {
                assert(pv[d as int] == poss@[d as int]@);
            }
            if !holds_char(&poss[d as usize], w[k]) {
                return false;
            }
        }
        k = k + 1;
    }
    true
}

/// Applies the final pass: for every token, keeps only the candidate words
/// whose every letter is still allowed for its digit.
pub fn further_refine_possible_words(input_words: &mut Vec<Word>, possible_letters: &Vec<Vec<char>>)
    requires
        possible_letters@.len() == 10,
        forall|i: int, k: int|
            0 <= i < old(input_words)@.len() && 0 <= k < old(input_words)@[i].numbers@.len()
                ==> #[trigger] old(input_words)@[i].numbers@[k] < 10,
    ensures
        final(input_words)@.len() == old(input_words)@.len(),
        forall|i: int| 0 <= i < old(input_words)@.len()
            ==> (#[trigger] final(input_words)@[i].numbers)@ == old(input_words)@[i].numbers@,
        forall|i: int| 0 <= i < old(input_words)@.len()
            ==> (#[trigger] final(input_words)@[i].possible_words).deep_view() == further_filtered(
                old(input_words)@[i].numbers@,
                old(input_words)@[i].possible_words.deep_view(),
                possible_letters.deep_view(),
            ),
{
    let ghost pv = possible_letters.deep_view();
    let ghost ws0 = input_words@;
    let n = input_words.len();
    let mut out: Vec<Word> = Vec::new();
    let mut i: usize = 0;
    while i < n
        invariant
            i <= n,
            n == ws0.len(),
            ws0 == input_words@,
            pv == possible_letters.deep_view(),
            pv.len() == 10,
            possible_letters@.len() == 10,
            forall|i0: int, k: int|
                0 <= i0 < ws0.len() && 0 <= k < ws0[i0].numbers@.len()
                    ==> #[trigger] ws0[i0].numbers@[k] < 10,
            out@.len() == i as int,
            forall|i0: int| 0 <= i0 < i
                ==> (#[trigger] out@[i0].numbers)@ == ws0[i0].numbers@,
            forall|i0: int| 0 <= i0 < i
                ==> (#[trigger] out@[i0].possible_words).deep_view() == further_filtered(
                    ws0[i0].numbers@,
                    ws0[i0].possible_words.deep_view(),
                    pv,
                ),
        decreases n - i,
    {
        let wd = &input_words[i];
        let ghost cand0 = wd.possible_words.deep_view();
        let m = wd.possible_words.len();
        let mut kept: Vec<Vec<char>> = Vec::new();
        let mut j: usize = 0;
        while j < m
            invariant
                j <= m,
                (i as int) < ws0.len(),
                ws0 == input_words@,
                wd == ws0[i as int],
                m == cand0.len(),
                cand0 == wd.possible_words.deep_view(),
                pv == possible_letters.deep_view(),
                pv.len() == 10,
                possible_letters@.len() == 10,
                forall|k: int| 0 <= k < wd.numbers@.len() ==> (#[trigger] wd.numbers@[k]) < 10,
                kept.deep_view() == further_filtered(wd.numbers@, cand0.take(j as int), pv),
            decreases m - j,
        {
            proof {
                assert(cand0.take(j as int + 1) =~= cand0.take(j as int).push(cand0[j as int]));
                lemma_further_push(wd.numbers@, cand0.take(j as int), pv, cand0[j as int]);
            }
            let w = wd.possible_words[j].clone();
            proof {
                assert(w@ =~= cand0[j as int]);
            }
            if further_check(&wd.numbers, &w, possible_letters) {
                kept.push(w);
                proof {
                    assert(kept.deep_view() =~~= further_filtered(
                        wd.numbers@,
                        cand0.take(j as int),
                        pv,
                    ).push(cand0[j as int]));
                }
            }
            j = j + 1;
        }
        proof {
            assert(cand0.take(m as int) =~= cand0);
        }
        let numbers = wd.numbers.clone();
        proof {
            assert(numbers@ =~= wd.numbers@);
        }
        out.push(Word { numbers, possible_words: kept });
        i = i + 1;
    }
    *input_words = out;
}

} // verus!
