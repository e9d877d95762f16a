//! Character-level text helpers.
//!
//! Rule files, catalog names and URL templates are all line-oriented
//! text.  This module gives the library one vocabulary for that text:
//! views of strings as character sequences, whitespace and digit
//! classification, searching, trimming, line splitting, placeholder
//! replacement and decimal parsing, each with an exact specification.

use vstd::prelude::*;

verus! {

use vstd::string::StrSliceExecFns;

/// Unicode whitespace — the `White_Space` set, which is what both
/// string trimming and the rule grammar treat as blank.
pub open spec fn is_space(c: char) -> bool {
    c == ' ' || c == '\t' || c == '\n' || c == '\r' || c == '\x0b' || c == '\x0c' || c == '\u{85}'
        || c == '\u{a0}' || c == '\u{1680}' || (0x2000 <= c as u32 && c as u32 <= 0x200a) || c
        == '\u{2028}' || c == '\u{2029}' || c == '\u{202f}' || c == '\u{205f}' || c == '\u{3000}'
}

/// ASCII decimal digit.
pub open spec fn is_digit_ch(c: char) -> bool {
    48 <= c as u32 && c as u32 <= 57
}

/// First index at or after `i` holding a non-space character, or the length.
pub open spec fn skip_ws_idx(s: Seq<char>, i: int) -> int
    decreases s.len() - i,
{
    if i < 0 || i >= s.len() {
        s.len() as int
    } else if is_space(s[i]) {
        skip_ws_idx(s, i + 1)
    } else {
        i
    }
}

pub proof fn lemma_skip_ws_idx(s: Seq<char>, i: int)
    requires
        0 <= i <= s.len(),
    ensures
        i <= skip_ws_idx(s, i) <= s.len(),
        forall|j: int| i <= j < skip_ws_idx(s, i) ==> is_space(s[j]),
        skip_ws_idx(s, i) < s.len() ==> !is_space(s[skip_ws_idx(s, i)]),
    decreases s.len() - i,
{
    if i < s.len() && is_space(s[i]) {
        lemma_skip_ws_idx(s, i + 1);
    }
}

/// First index at or after `i` holding a non-digit character, or the length.
pub open spec fn digits_end_idx(s: Seq<char>, i: int) -> int
    decreases s.len() - i,
{
    if i < 0 || i >= s.len() {
        s.len() as int
    } else if is_digit_ch(s[i]) {
        digits_end_idx(s, i + 1)
    } else {
        i
    }
}

pub proof fn lemma_digits_end_idx(s: Seq<char>, i: int)
    requires
        0 <= i <= s.len(),
    ensures
        i <= digits_end_idx(s, i) <= s.len(),
        forall|j: int| i <= j < digits_end_idx(s, i) ==> is_digit_ch(s[j]),
        digits_end_idx(s, i) < s.len() ==> !is_digit_ch(s[digits_end_idx(s, i)]),
    decreases s.len() - i,
{
    if i < s.len() && is_digit_ch(s[i]) {
        lemma_digits_end_idx(s, i + 1);
    }
}

/// The pattern `pat` occurs in `s` starting at index `i`.
pub open spec fn match_at(s: Seq<char>, i: int, pat: Seq<char>) -> bool {
    0 <= i && i + pat.len() <= s.len() && s.subrange(i, i + pat.len() as int) == pat
}

/// The pattern `pat` occurs somewhere in `s`.
pub open spec fn contains_seq(s: Seq<char>, pat: Seq<char>) -> bool {
    exists|i: int| match_at(s, i, pat)
}

/// Exec check of whether a character is whitespace, matching
/// [`is_space`].
pub fn is_space_exec(c: char) -> (r: bool)
    ensures
        r == is_space(c),
{
    c == ' ' || c == '\t' || c == '\n' || c == '\r' || c == '\x0b' || c == '\x0c' || c == '\u{85}'
        || c == '\u{a0}' || c == '\u{1680}' || (0x2000 <= c as u32 && c as u32 <= 0x200a) || c
        == '\u{2028}' || c == '\u{2029}' || c == '\u{202f}' || c == '\u{205f}' || c == '\u{3000}'
}

/// Exec check of whether a character is an ASCII digit.
pub fn is_digit_exec(c: char) -> (r: bool)
    ensures
        r == is_digit_ch(c),
{
    let v: u32 = c as u32;
    48 <= v && v <= 57
}

/// The characters of a string slice, in order.
pub fn chars_of(s: &str) -> (r: Vec<char>)
    ensures
        r@ == s@,
{
    let n: usize = s.unicode_len();
    let mut r: Vec<char> = Vec::new();
    let mut i: usize = 0;
    while i < n
        invariant
            n == s@.len(),
            i <= n,
            r@ == s@.take(i as int),
        decreases n - i,
    {
        r.push(s.get_char(i));
        i = i + 1;
        proof {
            assert(r@ =~= s@.take(i as int));
        }
    }
    proof {
        assert(s@.take(n as int) =~= s@);
    }
    r
}

/// Relies on `String: FromIterator<char>`: collecting characters yields a
/// string holding exactly those characters in order.
#[verifier::external_body]
pub fn string_from_chars(v: &Vec<char>) -> (r: String)
    ensures
        r@ == v@,
{
    v.iter().collect()
}

/// Exec check of [`match_at`].
pub fn match_at_exec(s: &Vec<char>, i: usize, pat: &Vec<char>) -> (r: bool)
    ensures
        r == match_at(s@, i as int, pat@),
{
    if i > s.len() || pat.len() > s.len() - i {
        proof {
            assert(!match_at(s@, i as int, pat@));
        }
        return false;
    }
    let mut j: usize = 0;
    while j < pat.len()
        invariant
            i + pat.len() <= s.len(),
            j <= pat.len(),
            forall|k: int| 0 <= k < j ==> s@[i + k] == pat@[k],
        decreases pat.len() - j,
    {
        if s[i + j] != pat[j] {
            proof {
                assert(s@.subrange(i as int, i + pat@.len() as int)[j as int] == s@[i + j]);
                assert(s@.subrange(i as int, i + pat@.len() as int) != pat@);
            }
            return false;
        }
        j = j + 1;
    }
    proof {
        assert(s@.subrange(i as int, i + pat@.len() as int) =~= pat@);
    }
    true
}

/// Exec check of [`contains_seq`].
pub fn contains_exec(s: &Vec<char>, pat: &Vec<char>) -> (r: bool)
    ensures
        r == contains_seq(s@, pat@),
{
    if pat.len() == 0 {
        proof {
            assert(s@.subrange(0, 0) =~= pat@);
            assert(match_at(s@, 0, pat@));
        }
        return true;
    }
    if pat.len() > s.len() {
        proof {
            assert(forall|k: int| 0 <= k ==> !match_at(s@, k, pat@));
        }
        return false;
    }
    let last: usize = s.len() - pat.len();
    let mut i: usize = 0;
    while i <= last
        invariant
            1 <= pat@.len() <= s@.len(),
            last == s@.len() - pat@.len(),
            last < usize::MAX,
            i <= last + 1,
            forall|k: int| 0 <= k < i ==> !match_at(s@, k, pat@),
        decreases last + 1 - i,
    {
        if match_at_exec(s, i, pat) {
            return true;
        }
        i = i + 1;
    }
    proof {
        assert(forall|k: int| match_at(s@, k, pat@) ==> 0 <= k <= s@.len() - pat@.len());
    }
    false
}

/// Exec computation of [`skip_ws_idx`].
pub fn skip_ws_exec(s: &Vec<char>, i: usize) -> (r: usize)
    requires
        i <= s@.len(),
    ensures
        r == skip_ws_idx(s@, i as int),
        i <= r <= s@.len(),
    decreases s@.len() - i,
{
    proof {
        lemma_skip_ws_idx(s@, i as int);
    }
    if i < s.len() && is_space_exec(s[i]) {
        skip_ws_exec(s, i + 1)
    } else if i < s.len() {
        i
    } else {
        s.len()
    }
}

/// Last index `j` from the right such that everything in `s[j..end]` is
/// whitespace has `j ==` this value; the suffix `s[result..end]` is all
/// space and `s[result - 1]`, if any, is not.
pub open spec fn trim_end_idx(s: Seq<char>, j: int) -> int
    decreases j,
{
    if j <= 0 || j > s.len() {
        0
    } else if is_space(s[j - 1]) {
        trim_end_idx(s, j - 1)
    } else {
        j
    }
}

pub proof fn lemma_trim_end_idx(s: Seq<char>, j: int)
    requires
        0 <= j <= s.len(),
    ensures
        0 <= trim_end_idx(s, j) <= j,
        forall|k: int| trim_end_idx(s, j) <= k < j ==> is_space(s[k]),
        trim_end_idx(s, j) > 0 ==> !is_space(s[trim_end_idx(s, j) - 1]),
    decreases j,
{
    if j > 0 && is_space(s[j - 1]) {
        lemma_trim_end_idx(s, j - 1);
    }
}

/// The string with leading and trailing whitespace removed.
pub open spec fn trim_spec(s: Seq<char>) -> Seq<char> {
    let a = skip_ws_idx(s, 0);
    let b = trim_end_idx(s, s.len() as int);
    if a <= b {
        s.subrange(a, b)
    } else {
        Seq::empty()
    }
}

/// A fresh copy of `s[from..to]`.
pub fn copy_range(s: &Vec<char>, from: usize, to: usize) -> (r: Vec<char>)
    requires
        from <= to <= s@.len(),
    ensures
        r@ == s@.subrange(from as int, to as int),
{
    let mut r: Vec<char> = Vec::new();
    let mut i: usize = from;
    while i < to
        invariant
            from <= i <= to <= s@.len(),
            r@ == s@.subrange(from as int, i as int),
        decreases to - i,
    {
        r.push(s[i]);
        i = i + 1;
        proof {
            assert(r@ =~= s@.subrange(from as int, i as int));
        }
    }
    r
}

/// Exec trim, matching [`trim_spec`].
pub fn trim_exec(s: &Vec<char>) -> (r: Vec<char>)
    ensures
        r@ == trim_spec(s@),
{
    proof {
        lemma_skip_ws_idx(s@, 0);
        lemma_trim_end_idx(s@, s@.len() as int);
    }
    let a: usize = skip_ws_exec(s, 0);
    let mut b: usize = s.len();
    while b > 0 && is_space_exec(s[b - 1])
        invariant
            b <= s@.len(),
            trim_end_idx(s@, s@.len() as int) == trim_end_idx(s@, b as int),
        decreases b,
    {
        b = b - 1;
    }
    proof {
        assert(trim_end_idx(s@, b as int) == b);
    }
    if a <= b {
        copy_range(s, a, b)
    } else {
        Vec::new()
    }
}

/// A line with one trailing carriage return removed: when lines are
/// split at `\n`, a `\r` immediately before the split belongs to the
/// line ending, not to the line.
pub open spec fn strip_cr(l: Seq<char>) -> Seq<char> {
    if l.len() > 0 && l[l.len() - 1] == '\r' {
        l.drop_last()
    } else {
        l
    }
}

/// Exec computation of [`strip_cr`].
pub fn strip_cr_exec(l: &Vec<char>) -> (r: Vec<char>)
    ensures
        r@ == strip_cr(l@),
{
    let n: usize = l.len();
    if n > 0 && l[n - 1] == '\r' {
        let r = copy_range(l, 0, n - 1);
        proof {
            assert(r@ =~= strip_cr(l@));
        }
        r
    } else {
        let r = copy_range(l, 0, n);
        proof {
            assert(r@ =~= strip_cr(l@));
        }
        r
    }
}

/// First index at or after `i` not holding `c`, or the length.
pub open spec fn skip_eq_idx(s: Seq<char>, i: int, c: char) -> int
    decreases s.len() - i,
{
    if i < 0 || i >= s.len() {
        s.len() as int
    } else if s[i] == c {
        skip_eq_idx(s, i + 1, c)
    } else {
        i
    }
}

pub proof fn lemma_skip_eq_idx(s: Seq<char>, i: int, c: char)
    requires
        0 <= i <= s.len(),
    ensures
        i <= skip_eq_idx(s, i, c) <= s.len(),
        forall|j: int| i <= j < skip_eq_idx(s, i, c) ==> s[j] == c,
        skip_eq_idx(s, i, c) < s.len() ==> s[skip_eq_idx(s, i, c)] != c,
    decreases s.len() - i,
{
    if i < s.len() && s[i] == c {
        lemma_skip_eq_idx(s, i + 1, c);
    }
}

/// Largest suffix start `j' <= j` such that everything in `s[j'..j]`
/// equals `c`.
pub open spec fn trim_eq_end_idx(s: Seq<char>, j: int, c: char) -> int
    decreases j,
{
    if j <= 0 || j > s.len() {
        0
    } else if s[j - 1] == c {
        trim_eq_end_idx(s, j - 1, c)
    } else {
        j
    }
}

pub proof fn lemma_trim_eq_end_idx(s: Seq<char>, j: int, c: char)
    requires
        0 <= j <= s.len(),
    ensures
        0 <= trim_eq_end_idx(s, j, c) <= j,
        forall|k: int| trim_eq_end_idx(s, j, c) <= k < j ==> s[k] == c,
        trim_eq_end_idx(s, j, c) > 0 ==> s[trim_eq_end_idx(s, j, c) - 1] != c,
    decreases j,
{
    if j > 0 && s[j - 1] == c {
        lemma_trim_eq_end_idx(s, j - 1, c);
    }
}

/// The string with every leading and trailing `c` removed.
pub open spec fn trim_char(s: Seq<char>, c: char) -> Seq<char> {
    let a = skip_eq_idx(s, 0, c);
    let b = trim_eq_end_idx(s, s.len() as int, c);
    if a <= b {
        s.subrange(a, b)
    } else {
        Seq::empty()
    }
}

/// Exec trimming of one character, matching [`trim_char`].
pub fn trim_char_exec(s: &Vec<char>, c: char) -> (r: Vec<char>)
    ensures
        r@ == trim_char(s@, c),
{
    proof {
        lemma_skip_eq_idx(s@, 0, c);
        lemma_trim_eq_end_idx(s@, s@.len() as int, c);
    }
    let mut a: usize = 0;
    while a < s.len() && s[a] == c
        invariant
            a <= s@.len(),
            skip_eq_idx(s@, 0, c) == skip_eq_idx(s@, a as int, c),
        decreases s@.len() - a,
    {
        a = a + 1;
    }
    proof {
        assert(skip_eq_idx(s@, a as int, c) == a);
    }
    let mut b: usize = s.len();
    while b > 0 && s[b - 1] == c
        invariant
            b <= s@.len(),
            trim_eq_end_idx(s@, s@.len() as int, c) == trim_eq_end_idx(s@, b as int, c),
        decreases b,
    {
        b = b - 1;
    }
    proof {
        assert(trim_eq_end_idx(s@, b as int, c) == b);
    }
    if a <= b {
        copy_range(s, a, b)
    } else {
        Vec::new()
    }
}

/// First index at or after `i` where `pat` occurs, or `-1`.
pub open spec fn find_sub(s: Seq<char>, pat: Seq<char>, i: int) -> int
    decreases s.len() - i,
{
    if i < 0 || pat.len() == 0 || i > s.len() - pat.len() {
        -1
    } else if match_at(s, i, pat) {
        i
    } else {
        find_sub(s, pat, i + 1)
    }
}

pub proof fn lemma_find_sub(s: Seq<char>, pat: Seq<char>, i: int)
    requires
        0 <= i,
        pat.len() > 0,
    ensures
        find_sub(s, pat, i) == -1 ==> forall|k: int| i <= k ==> !match_at(s, k, pat),
        find_sub(s, pat, i) != -1 ==> i <= find_sub(s, pat, i) && match_at(
            s,
            find_sub(s, pat, i),
            pat,
        ) && forall|k: int| i <= k < find_sub(s, pat, i) ==> !match_at(s, k, pat),
    decreases s.len() - i,
{
    if i <= s.len() - pat.len() && !match_at(s, i, pat) {
        lemma_find_sub(s, pat, i + 1);
    }
}

/// Exec search for the first occurrence of `pat` at or after `from`,
/// matching [`find_sub`].
pub fn find_sub_exec(s: &Vec<char>, pat: &Vec<char>, from: usize) -> (r: Option<usize>)
    ensures
        r is Some ==> r->0 == find_sub(s@, pat@, from as int),
        r is None ==> find_sub(s@, pat@, from as int) == -1,
{
    if pat.len() == 0 {
        return None;
    }
    proof {
        lemma_find_sub(s@, pat@, from as int);
    }
    if pat.len() > s.len() || from > s.len() - pat.len() {
        return None;
    }
    let last: usize = s.len() - pat.len();
    let mut i: usize = from;
    while i <= last
        invariant
            1 <= pat@.len() <= s@.len(),
            last == s@.len() - pat@.len(),
            last < usize::MAX,
            from <= i <= last + 1,
            forall|k: int| from <= k < i ==> !match_at(s@, k, pat@),
        decreases last + 1 - i,
    {
        if match_at_exec(s, i, pat) {
            proof {
                lemma_find_sub(s@, pat@, from as int);
                assert(find_sub(s@, pat@, from as int) == i);
            }
            return Some(i);
        }
        i = i + 1;
    }
    proof {
        lemma_find_sub(s@, pat@, from as int);
        assert(forall|k: int| match_at(s@, k, pat@) ==> k <= s@.len() - pat@.len());
        if find_sub(s@, pat@, from as int) != -1 {
            assert(match_at(s@, find_sub(s@, pat@, from as int), pat@));
            assert(false);
        }
    }
    None
}

/// First index at or after `i` holding a newline, or the length.
pub open spec fn line_end_idx(s: Seq<char>, i: int) -> int
    decreases s.len() - i,
{
    if i < 0 || i >= s.len() {
        s.len() as int
    } else if s[i] == '\n' {
        i
    } else {
        line_end_idx(s, i + 1)
    }
}

pub proof fn lemma_line_end_idx(s: Seq<char>, i: int)
    requires
        0 <= i <= s.len(),
    ensures
        i <= line_end_idx(s, i) <= s.len(),
        forall|j: int| i <= j < line_end_idx(s, i) ==> s[j] != '\n',
        line_end_idx(s, i) < s.len() ==> s[line_end_idx(s, i)] == '\n',
    decreases s.len() - i,
{
    if i < s.len() && s[i] != '\n' {
        lemma_line_end_idx(s, i + 1);
    }
}

/// The lines of `s` from index `i` on, split at newline characters.
pub open spec fn split_lines_from(s: Seq<char>, i: int) -> Seq<Seq<char>>
    decreases s.len() - i,
    via split_lines_from_dec
{
    if i < 0 || i >= s.len() {
        Seq::empty()
    } else {
        let e = line_end_idx(s, i);
        if e >= s.len() {
            seq![s.subrange(i, s.len() as int)]
        } else {
            seq![s.subrange(i, e)] + split_lines_from(s, e + 1)
        }
    }
}

#[via_fn]
proof fn split_lines_from_dec(s: Seq<char>, i: int) {
    if 0 <= i < s.len() {
        lemma_line_end_idx(s, i);
    }
}

/// The lines of `s`, split at newline characters.  A final newline ends
/// the last line rather than opening an empty one.
pub open spec fn split_lines(s: Seq<char>) -> Seq<Seq<char>> {
    split_lines_from(s, 0)
}

/// The first newline at or after `i` is at `e`.
pub proof fn lemma_line_end_at(s: Seq<char>, i: int, e: int)
    requires
        0 <= i <= e <= s.len(),
        forall|j: int| i <= j < e ==> s[j] != '\n',
        e < s.len() ==> s[e] == '\n',
    ensures
        line_end_idx(s, i) == e,
{
    lemma_line_end_idx(s, i);
    if line_end_idx(s, i) < e {
        assert(s[line_end_idx(s, i)] == '\n');
    }
    if e < line_end_idx(s, i) {
        assert(s[e] != '\n');
    }
}

/// Splitting from an index splits the corresponding suffix.
pub proof fn lemma_split_lines_from_subrange(s: Seq<char>, i: int)
    requires
        0 <= i <= s.len(),
    ensures
        split_lines_from(s, i) == split_lines(s.subrange(i, s.len() as int)),
    decreases s.len() - i,
{
    let sub = s.subrange(i, s.len() as int);
    if i >= s.len() {
        assert(sub.len() == 0);
    } else {
        lemma_line_end_idx(s, i);
        let e = line_end_idx(s, i);
        assert(forall|j: int| 0 <= j < sub.len() ==> sub[j] == s[i + j]);
        lemma_line_end_at(sub, 0, e - i);
        if e >= s.len() {
            assert(split_lines_from(s, i) == seq![sub]);
            assert(split_lines(sub) == seq![sub.subrange(0, sub.len() as int)]);
            assert(sub.subrange(0, sub.len() as int) =~= sub);
        } else {
            lemma_split_lines_from_subrange(s, e + 1);
            lemma_split_lines_from_subrange(sub, e - i + 1);
            assert(sub.subrange(0, e - i) =~= s.subrange(i, e));
            assert(s.subrange(e + 1, s.len() as int) =~= sub.subrange(
                e - i + 1,
                sub.len() as int,
            ));
            assert(split_lines_from(s, i) == seq![s.subrange(i, e)] + split_lines_from(s, e + 1));
            assert(split_lines(sub) == seq![sub.subrange(0, e - i)] + split_lines_from(
                sub,
                e - i + 1,
            ));
        }
    }
}

/// Exec line splitting, matching [`split_lines`].
pub fn split_lines_exec(s: &Vec<char>) -> (r: Vec<Vec<char>>)
    ensures
        r@.map_values(|l: Vec<char>| l@) == split_lines(s@),
{
    let mut r: Vec<Vec<char>> = Vec::new();
    let mut cur: Vec<char> = Vec::new();
    let mut start: usize = 0;
    let mut i: usize = 0;
    proof {
        assert(cur@ =~= s@.subrange(0, 0));
        assert(r@.map_values(|l: Vec<char>| l@) + split_lines_from(s@, 0) =~= split_lines_from(
            s@,
            0,
        ));
    }
    while i < s.len()
        invariant
            start <= i <= s@.len(),
            cur@ == s@.subrange(start as int, i as int),
            forall|j: int| start <= j < i ==> s@[j] != '\n',
            split_lines(s@) == r@.map_values(|l: Vec<char>| l@) + split_lines_from(
                s@,
                start as int,
            ),
        decreases s@.len() - i,
    {
        let c: char = s[i];
        if c == '\n' {
            proof {
                lemma_line_end_at(s@, start as int, i as int);
            }
            let ghost prev = r@;
            r.push(cur);
            proof {
                assert(r@.map_values(|l: Vec<char>| l@) =~= prev.map_values(
                    |l: Vec<char>| l@,
                ).push(cur@));
                assert(prev.map_values(|l: Vec<char>| l@).push(cur@) =~= prev.map_values(
                    |l: Vec<char>| l@,
                ) + seq![cur@]);
            }
            cur = Vec::new();
            start = i + 1;
            i = i + 1;
            proof {
                assert(cur@ =~= s@.subrange(start as int, i as int));
            }
        } else {
            cur.push(c);
            i = i + 1;
            proof {
                assert(cur@ =~= s@.subrange(start as int, i as int));
            }
        }
    }
    if start < s.len() {
        proof {
            lemma_line_end_at(s@, start as int, s@.len() as int);
        }
        let ghost prev = r@;
        r.push(cur);
        proof {
            assert(r@.map_values(|l: Vec<char>| l@) =~= prev.map_values(|l: Vec<char>| l@).push(
                cur@,
            ));
            assert(prev.map_values(|l: Vec<char>| l@).push(cur@) =~= prev.map_values(
                |l: Vec<char>| l@,
            ) + seq![cur@]);
        }
    } else {
        proof {
            assert(split_lines_from(s@, start as int) =~= Seq::<Seq<char>>::empty());
            assert(r@.map_values(|l: Vec<char>| l@) + split_lines_from(s@, start as int)
                =~= r@.map_values(|l: Vec<char>| l@));
        }
    }
    r
}

/// `s` with every non-overlapping occurrence of `pat`, scanned left to
/// right, replaced by `to`.
pub open spec fn replace_all(s: Seq<char>, pat: Seq<char>, to: Seq<char>) -> Seq<char>
    decreases s.len(),
{
    if pat.len() == 0 || s.len() < pat.len() {
        s
    } else if s.subrange(0, pat.len() as int) == pat {
        to + replace_all(s.subrange(pat.len() as int, s.len() as int), pat, to)
    } else {
        seq![s[0]] + replace_all(s.subrange(1, s.len() as int), pat, to)
    }
}

/// Append every character of `src` to `dst`.
pub fn extend_chars(dst: &mut Vec<char>, src: &Vec<char>)
    ensures
        final(dst)@ == old(dst)@ + src@,
{
    let mut i: usize = 0;
    while i < src.len()
        invariant
            i <= src@.len(),
            dst@ == old(dst)@ + src@.take(i as int),
        decreases src@.len() - i,
    {
        dst.push(src[i]);
        i = i + 1;
        proof {
            assert(old(dst)@ + src@.take(i as int) =~= (old(dst)@ + src@.take(i as int - 1)).push(
                src@[i as int - 1],
            ));
        }
    }
    proof {
        assert(old(dst)@ + src@.take(src@.len() as int) =~= old(dst)@ + src@);
    }
}

/// Exec replacement, matching [`replace_all`].
pub fn replace_all_exec(s: &Vec<char>, pat: &Vec<char>, to: &Vec<char>) -> (r: Vec<char>)
    requires
        pat@.len() > 0,
    ensures
        r@ == replace_all(s@, pat@, to@),
{
    let mut out: Vec<char> = Vec::new();
    let mut i: usize = 0;
    proof {
        assert(s@.subrange(0, s@.len() as int) =~= s@);
        assert(out@ + replace_all(s@, pat@, to@) =~= replace_all(s@, pat@, to@));
    }
    while i < s.len()
        invariant
            pat@.len() > 0,
            i <= s@.len(),
            replace_all(s@, pat@, to@) == out@ + replace_all(
                s@.subrange(i as int, s@.len() as int),
                pat@,
                to@,
            ),
        decreases s@.len() - i,
    {
        let ghost tail = s@.subrange(i as int, s@.len() as int);
        if match_at_exec(s, i, pat) {
            proof {
                assert(tail.subrange(0, pat@.len() as int) =~= s@.subrange(
                    i as int,
                    i + pat@.len(),
                ));
                assert(tail.subrange(pat@.len() as int, tail.len() as int) =~= s@.subrange(
                    i + pat@.len(),
                    s@.len() as int,
                ));
            }
            extend_chars(&mut out, to);
            i = i + pat.len();
        } else {
            proof {
                if tail.len() >= pat@.len() {
                    assert(tail.subrange(0, pat@.len() as int) =~= s@.subrange(
                        i as int,
                        i + pat@.len(),
                    ));
                }
                assert(tail.subrange(1, tail.len() as int) =~= s@.subrange(
                    i + 1,
                    s@.len() as int,
                ));
                assert(seq![tail[0]] =~= seq![s@[i as int]]);
            }
            out.push(s[i]);
            i = i + 1;
        }
    }
    proof {
        assert(s@.subrange(i as int, s@.len() as int).len() == 0);
        assert(out@ + replace_all(s@.subrange(i as int, s@.len() as int), pat@, to@) =~= out@);
    }
    out
}

/// The numeric value of a digit string, most significant first.
pub open spec fn digits_val(d: Seq<char>) -> int
    decreases d.len(),
{
    if d.len() == 0 {
        0
    } else {
        digits_val(d.drop_last()) * 10 + (d.last() as u32 - 48)
    }
}

proof fn lemma_digits_val_grows(d: Seq<char>, c: char)
    requires
        forall|j: int| 0 <= j < d.len() ==> is_digit_ch(d[j]),
        is_digit_ch(c),
        digits_val(d) >= 0,
    ensures
        digits_val(d.push(c)) >= digits_val(d),
        digits_val(d.push(c)) >= 0,
{
    assert(d.push(c).drop_last() =~= d);
    assert(digits_val(d.push(c)) == digits_val(d) * 10 + (c as u32 - 48));
    assert(digits_val(d) * 10 >= digits_val(d)) by (nonlinear_arith)
        requires
            digits_val(d) >= 0,
    ;
}

/// Parse a run of digits `s[from..to]` as a `u32`; `None` exactly when
/// the value does not fit.
pub fn parse_u32_range(s: &Vec<char>, from: usize, to: usize) -> (r: Option<u32>)
    requires
        from <= to <= s@.len(),
        forall|j: int| from <= j < to ==> is_digit_ch(s@[j]),
    ensures
        r is Some <==> digits_val(s@.subrange(from as int, to as int)) <= u32::MAX,
        r is Some ==> r->0 == digits_val(s@.subrange(from as int, to as int)),
{
    let cap: u64 = 4294967296u64;
    let mut acc: u64 = 0;
    let mut i: usize = from;
    proof {
        assert(s@.subrange(from as int, from as int) =~= Seq::<char>::empty());
    }
    while i < to
        invariant
            from <= i <= to <= s@.len(),
            forall|j: int| from <= j < to ==> is_digit_ch(s@[j]),
            cap == 4294967296u64,
            acc <= cap,
            digits_val(s@.subrange(from as int, i as int)) <= u32::MAX ==> acc == digits_val(
                s@.subrange(from as int, i as int),
            ),
            digits_val(s@.subrange(from as int, i as int)) > u32::MAX ==> acc == cap,
            digits_val(s@.subrange(from as int, i as int)) >= 0,
        decreases to - i,
    {
        let ghost pre = s@.subrange(from as int, i as int);
        let c: char = s[i];
        let d: u64 = (c as u32) as u64 - 48;
        proof {
            assert(is_digit_ch(s@[i as int]));
            assert(s@.subrange(from as int, i as int + 1) =~= pre.push(s@[i as int]));
            assert(s@.subrange(from as int, i as int + 1).drop_last() =~= pre);
            lemma_digits_val_grows(pre, s@[i as int]);
        }
        let next: u64 = if acc >= cap {
            cap
        } else {
            let v: u64 = acc * 10 + d;
            if v > cap {
                cap
            } else {
                v
            }
        };
        proof {
            let newval = digits_val(s@.subrange(from as int, i as int + 1));
            assert(newval == digits_val(pre) * 10 + (s@[i as int] as u32 - 48));
            if digits_val(pre) > u32::MAX {
                assert(digits_val(pre) * 10 >= digits_val(pre)) by (nonlinear_arith)
                    requires
                        digits_val(pre) >= 0,
                ;
                assert(newval > u32::MAX);
            } else {
                assert(acc == digits_val(pre));
                assert(acc * 10 + d == newval);
            }
        }
        acc = next;
        i = i + 1;
    }
    proof {
        assert(s@.subrange(from as int, to as int) == s@.subrange(from as int, i as int));
    }
    if acc <= 4294967295u64 {
        Some(acc as u32)
    } else {
        None
    }
}

/// Lexicographic order on character sequences, by scalar value: the
/// order `str` comparison gives, since UTF-8 preserves it.
pub open spec fn chars_le(a: Seq<char>, b: Seq<char>) -> bool
    decreases a.len(),
{
    if a.len() == 0 {
        true
    } else if b.len() == 0 {
        false
    } else if (a[0] as u32) < (b[0] as u32) {
        true
    } else if (a[0] as u32) > (b[0] as u32) {
        false
    } else {
        chars_le(a.drop_first(), b.drop_first())
    }
}

/// The order is total.
pub proof fn lemma_chars_le_total(a: Seq<char>, b: Seq<char>)
    ensures
        chars_le(a, b) || chars_le(b, a),
    decreases a.len(),
{
    if a.len() > 0 && b.len() > 0 && (a[0] as u32) == (b[0] as u32) {
        lemma_chars_le_total(a.drop_first(), b.drop_first());
    }
}

/// Exec comparison of the suffixes from `i` on.
fn str_le_from(a: &Vec<char>, b: &Vec<char>, i: usize) -> (r: bool)
    requires
        i <= a@.len(),
        i <= b@.len(),
    ensures
        r == chars_le(a@.skip(i as int), b@.skip(i as int)),
    decreases a@.len() - i,
{
    proof {
        if a@.skip(i as int).len() > 0 && b@.skip(i as int).len() > 0 {
            assert(a@.skip(i as int)[0] == a@[i as int]);
            assert(b@.skip(i as int)[0] == b@[i as int]);
            assert(a@.skip(i as int).drop_first() =~= a@.skip(i as int + 1));
            assert(b@.skip(i as int).drop_first() =~= b@.skip(i as int + 1));
        }
    }
    if i == a.len() {
        true
    } else if i == b.len() {
        false
    } else if (a[i] as u32) < (b[i] as u32) {
        true
    } else if (a[i] as u32) > (b[i] as u32) {
        false
    } else {
        str_le_from(a, b, i + 1)
    }
}

/// Exec comparison of two strings, matching [`chars_le`].
pub fn str_le(a: &String, b: &String) -> (r: bool)
    ensures
        r == chars_le(a@, b@),
{
    let av: Vec<char> = chars_of(a.as_str());
    let bv: Vec<char> = chars_of(b.as_str());
    let r: bool = str_le_from(&av, &bv, 0);
    proof {
        assert(av@.skip(0) =~= a@);
        assert(bv@.skip(0) =~= b@);
    }
    r
}

/// Inserting an element anywhere adds exactly one occurrence of it to
/// the sequence's multiset.
pub proof fn lemma_insert_to_multiset<T>(s: Seq<T>, p: int, v: T)
    requires
        0 <= p <= s.len(),
    ensures
        s.insert(p, v).to_multiset() == s.to_multiset().insert(v),
{
    broadcast use vstd::seq_lib::group_to_multiset_ensures;
    broadcast use vstd::multiset::group_multiset_axioms;

    let s2 = s.insert(p, v);
    assert(s2[p] == v);
    assert(s2.remove(p) =~= s);
    assert(s.to_multiset() =~= s2.to_multiset().remove(v));
    assert(s2.contains(v));
    assert(s2.to_multiset().count(v) > 0);
    assert forall|x: T|
        s2.to_multiset().count(x) == s.to_multiset().insert(v).count(x) by {
        assert(s.to_multiset().count(x) == s2.to_multiset().remove(v).count(x));
    }
    assert(s2.to_multiset() =~= s.to_multiset().insert(v));
}

/// Exec computation of [`digits_end_idx`].
pub fn digits_end_exec(s: &Vec<char>, i: usize) -> (r: usize)
    requires
        i <= s@.len(),
    ensures
        r == digits_end_idx(s@, i as int),
        i <= r <= s@.len(),
    decreases s@.len() - i,
{
    proof {
        lemma_digits_end_idx(s@, i as int);
    }
    if i < s.len() && is_digit_exec(s[i]) {
        digits_end_exec(s, i + 1)
    } else if i < s.len() {
        i
    } else {
        s.len()
    }
}

} // verus!
