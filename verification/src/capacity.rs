//! Capacity analyzer: derives, from digit frequencies in the raw puzzle
//! text, how many distinct letters each digit may be assigned.

use vstd::prelude::*;

verus! {

/// Whitespace characters accepted between puzzle tokens.
pub open spec fn is_ws_char(c: char) -> bool {
    c == ' ' || c == '\t' || c == '\n' || c == '\r'
}

/// ASCII decimal digit.
pub open spec fn is_digit_char(c: char) -> bool {
    48 <= c as u32 <= 57
}

/// Numeric value of an ASCII digit character.
pub open spec fn digit_val(c: char) -> u8 {
    (c as u32 - 48) as u8
}

/// Occurrences of the digit `d` among the first `k` characters of `s`.
pub open spec fn count_digit_upto(s: Seq<char>, d: u8, k: int) -> nat
    decreases k,
{
    if k <= 0 || k > s.len() {
        0
    } else {
        count_digit_upto(s, d, k - 1) + (if is_digit_char(s[k - 1]) && digit_val(s[k - 1]) == d {
            1nat
        } else {
            0nat
        })
    }
}

/// Occurrences of the digit `d` in `s`.
pub open spec fn count_digit(s: Seq<char>, d: u8) -> nat {
    count_digit_upto(s, d, s.len() as int)
}

/// The running count only grows as more characters are scanned.
proof fn lemma_count_digit_mono(s: Seq<char>, d: u8, k: int, m: int)
    requires
        k <= m <= s.len(),
    ensures
        count_digit_upto(s, d, k) <= count_digit_upto(s, d, m),
    decreases m - k,
{
    if k < m {
        lemma_count_digit_mono(s, d, k, m - 1);
    }
}

/// A scanned prefix holds at most as many occurrences as the whole text.
proof fn lemma_count_digit_prefix(s: Seq<char>, d: u8, k: int)
    requires
        0 <= k <= s.len(),
    ensures
        count_digit_upto(s, d, k) <= count_digit(s, d),
{
    lemma_count_digit_mono(s, d, k, s.len() as int);
}

/// Counts how often the digit `d` occurs in the puzzle text.
fn count_occurrences(input: &str, d: u8) -> (cnt: u8)
    requires
        count_digit(input@, d) <= 255,
    ensures
        cnt as nat == count_digit(input@, d),
{
    let n = input.unicode_len();
    let mut cnt: u8 = 0;
    let mut i: usize = 0;
    while i < n
        invariant
            i <= n,
            n == input@.len(),
            count_digit(input@, d) <= 255,
            cnt as nat == count_digit_upto(input@, d, i as int),
        decreases n - i,
    {
        let c = input.get_char(i);
        let u = c as u32;
        proof {
            lemma_count_digit_prefix(input@, d, i as int + 1);
        }
        if 48 <= u && u <= 57 && (u - 48) as u8 == d {
            cnt = cnt + 1;
        }
        i = i + 1;
    }
    cnt
}

/// Digit capacity table: entry `d` (for digits 1 to 9) is the number of
/// occurrences of `d` in the puzzle divided by `d`, rounded down; entry 0 is
/// unused and left at zero. The table counts in 8 bits, so no digit may
/// occur more than 255 times.
pub fn get_number_of_characters_per_number_count(input: &str) -> (counts: Vec<u8>)
    requires
        forall|d: u8| 1 <= d < 10 ==> count_digit(input@, d) <= 255,
    ensures
        counts@.len() == 10,
        counts@[0] == 0,
        forall|d: int| 1 <= d < 10
            ==> #[trigger] counts@[d] as nat == count_digit(input@, d as u8) / (d as nat),
{
    let mut counts: Vec<u8> = Vec::new();
    counts.push(0);
    let mut d: u8 = 1;
    while d < 10
        invariant
            forall|e: u8| 1 <= e < 10 ==> count_digit(input@, e) <= 255,
            1 <= d <= 10,
            counts@.len() == d as int,
            counts@[0] == 0,
            forall|e: int| 1 <= e < d as int
                ==> #[trigger] counts@[e] as nat == count_digit(input@, e as u8) / (e as nat),
        decreases 10 - d,
    {
        let occ = count_occurrences(input, d);
        counts.push(occ / d);
        d = d + 1;
    }
    counts
}

} // verus!
