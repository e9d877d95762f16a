//! The rule record parser.
//!
//! A rule file is line-oriented text.  A line is a candidate rule when,
//! after trimming, it consists of an optional comment prefix (`#`
//! followed by whitespace), an action keyword (`alert`, `drop`, `pass`
//! or `reject`) followed by whitespace, and, later in the line, a
//! `sid:` field whose digits are followed eventually by a `;`.  From an
//! accepted line the parser extracts the signature id (`sid:`, required,
//! must be positive), the generator id (`gid:`, default 1), the revision
//! (`rev:`, default 1) and the message (`msg:"..."`, default empty).  A
//! field whose value is absent or malformed falls back to its default
//! rather than rejecting the line; lines that do not match the grammar
//! are skipped silently.

use vstd::prelude::*;

verus! {

use crate::text::is_space;
use crate::text::is_digit_ch;
use crate::text::is_space_exec;
use crate::text::is_digit_exec;
use crate::text::skip_ws_idx;
use crate::text::skip_ws_exec;
use crate::text::digits_end_idx;
use crate::text::digits_end_exec;
use crate::text::lemma_digits_end_idx;
use crate::text::match_at;
use crate::text::match_at_exec;
use crate::text::contains_seq;
use crate::text::contains_exec;
use crate::text::trim_spec;
use crate::text::trim_exec;
use crate::text::split_lines;
use crate::text::split_lines_exec;
use crate::text::digits_val;
use crate::text::parse_u32_range;
use crate::text::copy_range;
use crate::text::string_from_chars;

/// One parsed detection rule line.
pub struct RuleRecord {
    /// The original line, verbatim — surrounding whitespace and any
    /// disabling comment marker included.
    pub raw: String,
    /// False exactly when the line, after trimming, begins with `#`.
    pub enabled: bool,
    /// Signature id; always positive in an accepted record.
    pub sid: u32,
    /// Generator id.
    pub gid: u32,
    /// Revision.
    pub rev: u32,
    /// Message text, without its quotes.
    pub msg: String,
}

/// The mathematical image of a [`RuleRecord`].
pub struct RuleRecordView {
    pub raw: Seq<char>,
    pub enabled: bool,
    pub sid: u32,
    pub gid: u32,
    pub rev: u32,
    pub msg: Seq<char>,
}

impl View for RuleRecord {
    type V = RuleRecordView;

    open spec fn view(&self) -> RuleRecordView {
        RuleRecordView {
            raw: self.raw@,
            enabled: self.enabled,
            sid: self.sid,
            gid: self.gid,
            rev: self.rev,
            msg: self.msg@,
        }
    }
}

pub open spec fn sid_marker() -> Seq<char> {
    seq!['s', 'i', 'd', ':']
}

pub open spec fn gid_marker() -> Seq<char> {
    seq!['g', 'i', 'd', ':']
}

pub open spec fn rev_marker() -> Seq<char> {
    seq!['r', 'e', 'v', ':']
}

pub open spec fn msg_marker() -> Seq<char> {
    seq!['m', 's', 'g', ':']
}

/// A three-letter field marker such as `sid:`, as an exec vector.
pub fn field_marker(c0: char, c1: char, c2: char) -> (r: Vec<char>)
    ensures
        r@ == seq![c0, c1, c2, ':'],
{
    let mut r: Vec<char> = Vec::new();
    r.push(c0);
    r.push(c1);
    r.push(c2);
    r.push(':');
    proof {
        assert(r@ =~= seq![c0, c1, c2, ':']);
    }
    r
}

/// First index `j >= i` with `s[j] == c`, or the length.
pub open spec fn char_end_idx(s: Seq<char>, i: int, c: char) -> int
    decreases s.len() - i,
{
    if i < 0 || i >= s.len() {
        s.len() as int
    } else if s[i] == c {
        i
    } else {
        char_end_idx(s, i + 1, c)
    }
}

pub proof fn lemma_char_end_idx(s: Seq<char>, i: int, c: char)
    requires
        0 <= i <= s.len(),
    ensures
        i <= char_end_idx(s, i, c) <= s.len(),
        forall|j: int| i <= j < char_end_idx(s, i, c) ==> s[j] != c,
        char_end_idx(s, i, c) < s.len() ==> s[char_end_idx(s, i, c)] == c,
    decreases s.len() - i,
{
    if i < s.len() && s[i] != c {
        lemma_char_end_idx(s, i + 1, c);
    }
}

/// Exec computation of [`char_end_idx`].
pub fn char_end_exec(s: &Vec<char>, i: usize, c: char) -> (r: usize)
    requires
        i <= s@.len(),
    ensures
        r == char_end_idx(s@, i as int, c),
        i <= r <= s@.len(),
    decreases s@.len() - i,
{
    proof {
        lemma_char_end_idx(s@, i as int, c);
    }
    if i < s.len() && s[i] != c {
        char_end_exec(s, i + 1, c)
    } else if i < s.len() {
        i
    } else {
        s.len()
    }
}

/// The marker occurs at `k` and is followed, after optional whitespace,
/// by a digit: the position where a numeric field's value can be read.
pub open spec fn num_field_at(t: Seq<char>, marker: Seq<char>, k: int) -> bool {
    match_at(t, k, marker) && {
        let m = skip_ws_idx(t, k + marker.len());
        m < t.len() && is_digit_ch(t[m])
    }
}

/// Least `k >= i` where a numeric field for `marker` begins, or `-1`.
pub open spec fn find_num_field(t: Seq<char>, marker: Seq<char>, i: int) -> int
    decreases t.len() - i,
{
    if i < 0 || i >= t.len() {
        -1
    } else if num_field_at(t, marker, i) {
        i
    } else {
        find_num_field(t, marker, i + 1)
    }
}

pub proof fn lemma_find_num_field(t: Seq<char>, marker: Seq<char>, i: int)
    requires
        0 <= i <= t.len(),
    ensures
        find_num_field(t, marker, i) == -1 ==> forall|k: int|
            i <= k < t.len() ==> !num_field_at(t, marker, k),
        find_num_field(t, marker, i) != -1 ==> i <= find_num_field(t, marker, i) < t.len()
            && num_field_at(t, marker, find_num_field(t, marker, i)) && forall|k: int|
            i <= k < find_num_field(t, marker, i) ==> !num_field_at(t, marker, k),
    decreases t.len() - i,
{
    if i < t.len() && !num_field_at(t, marker, i) {
        lemma_find_num_field(t, marker, i + 1);
    }
}

/// Exec check of [`num_field_at`].
pub fn num_field_at_exec(t: &Vec<char>, marker: &Vec<char>, k: usize) -> (r: bool)
    ensures
        r == num_field_at(t@, marker@, k as int),
{
    if match_at_exec(t, k, marker) {
        let n: usize = t.len();
        proof {
            assert(k + marker@.len() <= n);
        }
        let m: usize = skip_ws_exec(t, k + marker.len());
        m < n && is_digit_exec(t[m])
    } else {
        false
    }
}

/// Exec search for the first numeric field, matching [`find_num_field`].
pub fn find_num_field_exec(t: &Vec<char>, marker: &Vec<char>) -> (r: Option<usize>)
    ensures
        r is Some ==> r->0 == find_num_field(t@, marker@, 0),
        r is None ==> find_num_field(t@, marker@, 0) == -1,
{
    proof {
        lemma_find_num_field(t@, marker@, 0);
    }
    let mut i: usize = 0;
    while i < t.len()
        invariant
            i <= t@.len(),
            forall|k: int| 0 <= k < i ==> !num_field_at(t@, marker@, k),
        decreases t@.len() - i,
    {
        if num_field_at_exec(t, marker, i) {
            proof {
                lemma_find_num_field(t@, marker@, 0);
                let r = find_num_field(t@, marker@, 0);
                assert(r != -1);
                assert(r == i);
            }
            return Some(i);
        }
        i = i + 1;
    }
    proof {
        lemma_find_num_field(t@, marker@, 0);
        let r = find_num_field(t@, marker@, 0);
        if r != -1 {
            assert(num_field_at(t@, marker@, r));
            assert(false);
        }
    }
    None
}

/// The value of the first numeric field for `marker` in `t`, or
/// `default` when the field is absent or its value exceeds `u32::MAX`.
pub open spec fn field_u32(t: Seq<char>, marker: Seq<char>, default: u32) -> u32 {
    let k = find_num_field(t, marker, 0);
    if k < 0 {
        default
    } else {
        let m = skip_ws_idx(t, k + marker.len());
        let e = digits_end_idx(t, m);
        let v = digits_val(t.subrange(m, e));
        if v <= u32::MAX {
            v as u32
        } else {
            default
        }
    }
}

/// A `msg:` field begins at `k`: the marker, optional whitespace, an
/// opening quote, at least one non-quote character, and a closing quote.
pub open spec fn msg_at(t: Seq<char>, k: int) -> bool {
    match_at(t, k, msg_marker()) && {
        let m = skip_ws_idx(t, k + 4);
        let q = char_end_idx(t, m + 1, '"');
        m < t.len() && t[m] == '"' && q < t.len() && q > m + 1
    }
}

/// Least `k >= i` where a `msg:` field begins, or `-1`.
pub open spec fn find_msg(t: Seq<char>, i: int) -> int
    decreases t.len() - i,
{
    if i < 0 || i >= t.len() {
        -1
    } else if msg_at(t, i) {
        i
    } else {
        find_msg(t, i + 1)
    }
}

pub proof fn lemma_find_msg(t: Seq<char>, i: int)
    requires
        0 <= i <= t.len(),
    ensures
        find_msg(t, i) == -1 ==> forall|k: int| i <= k < t.len() ==> !msg_at(t, k),
        find_msg(t, i) != -1 ==> i <= find_msg(t, i) < t.len() && msg_at(t, find_msg(t, i))
            && forall|k: int| i <= k < find_msg(t, i) ==> !msg_at(t, k),
    decreases t.len() - i,
{
    if i < t.len() && !msg_at(t, i) {
        lemma_find_msg(t, i + 1);
    }
}

/// The text of the first `msg:"..."` field, or empty when none matches.
pub open spec fn msg_field(t: Seq<char>) -> Seq<char> {
    let k = find_msg(t, 0);
    if k < 0 {
        Seq::empty()
    } else {
        let m = skip_ws_idx(t, k + 4);
        let q = char_end_idx(t, m + 1, '"');
        t.subrange(m + 1, q)
    }
}

/// Exec check of [`msg_at`].
pub fn msg_at_exec(t: &Vec<char>, marker: &Vec<char>, k: usize) -> (r: bool)
    requires
        marker@ == msg_marker(),
    ensures
        r == msg_at(t@, k as int),
{
    if match_at_exec(t, k, marker) {
        let n: usize = t.len();
        proof {
            assert(k + 4 <= n);
        }
        let m: usize = skip_ws_exec(t, k + 4);
        if m < n && t[m] == '"' {
            let q: usize = char_end_exec(t, m + 1, '"');
            q < n && q > m + 1
        } else {
            proof {
                lemma_char_end_idx(t@, if m + 1 <= n { m as int + 1 } else { n as int }, '"');
            }
            false
        }
    } else {
        false
    }
}

/// Exec extraction of the message text, matching [`msg_field`].
pub fn msg_field_exec(t: &Vec<char>) -> (r: Vec<char>)
    ensures
        r@ == msg_field(t@),
{
    let marker: Vec<char> = field_marker('m', 's', 'g');
    proof {
        assert(marker@ =~= msg_marker());
        lemma_find_msg(t@, 0);
    }
    let mut i: usize = 0;
    while i < t.len()
        invariant
            marker@ == msg_marker(),
            i <= t@.len(),
            forall|k: int| 0 <= k < i ==> !msg_at(t@, k),
        decreases t@.len() - i,
    {
        if msg_at_exec(t, &marker, i) {
            proof {
                lemma_find_msg(t@, 0);
                assert(find_msg(t@, 0) == i);
            }
            let n: usize = t.len();
            let m: usize = skip_ws_exec(t, i + 4);
            let q: usize = char_end_exec(t, m + 1, '"');
            return copy_range(t, m + 1, q);
        }
        i = i + 1;
    }
    proof {
        lemma_find_msg(t@, 0);
        if find_msg(t@, 0) != -1 {
            assert(msg_at(t@, find_msg(t@, 0)));
            assert(false);
        }
    }
    Vec::new()
}

/// The length of the action keyword `u` begins with, or `-1`.
pub open spec fn action_len(u: Seq<char>) -> int {
    if match_at(u, 0, seq!['a', 'l', 'e', 'r', 't']) {
        5
    } else if match_at(u, 0, seq!['d', 'r', 'o', 'p']) {
        4
    } else if match_at(u, 0, seq!['p', 'a', 's', 's']) {
        4
    } else if match_at(u, 0, seq!['r', 'e', 'j', 'e', 'c', 't']) {
        6
    } else {
        -1
    }
}

/// A `sid:` field at `k` whose digits are eventually followed by `;`.
pub open spec fn sid_num_semi_at(u: Seq<char>, k: int) -> bool {
    match_at(u, k, sid_marker()) && {
        let m = skip_ws_idx(u, k + 4);
        m < u.len() && is_digit_ch(u[m]) && char_end_idx(u, m + 1, ';') < u.len()
    }
}

/// The line with its optional comment prefix (`#` plus whitespace)
/// removed.
pub open spec fn rule_body(t: Seq<char>) -> Seq<char> {
    if t.len() > 0 && t[0] == '#' {
        t.subrange(skip_ws_idx(t, 1), t.len() as int)
    } else {
        t
    }
}

/// The trimmed line matches the rule grammar: an optional comment
/// prefix, an action keyword followed by whitespace, and a `sid:` field
/// with digits and a later `;`.
pub open spec fn is_rule_line(t: Seq<char>) -> bool {
    t.len() > 0 && {
        let u = rule_body(t);
        let alen = action_len(u);
        alen >= 0 && alen < u.len() && is_space(u[alen]) && exists|k: int|
            alen < k && sid_num_semi_at(u, k)
    }
}

/// Exec check of [`sid_num_semi_at`].
pub fn sid_num_semi_at_exec(u: &Vec<char>, marker: &Vec<char>, k: usize) -> (r: bool)
    requires
        marker@ == sid_marker(),
    ensures
        r == sid_num_semi_at(u@, k as int),
{
    if match_at_exec(u, k, marker) {
        let n: usize = u.len();
        proof {
            assert(k + 4 <= n);
        }
        let m: usize = skip_ws_exec(u, k + 4);
        if m < n && is_digit_exec(u[m]) {
            let e: usize = char_end_exec(u, m + 1, ';');
            e < n
        } else {
            false
        }
    } else {
        false
    }
}

/// Exec computation of [`rule_body`].
pub fn rule_body_exec(t: &Vec<char>) -> (r: Vec<char>)
    ensures
        r@ == rule_body(t@),
{
    if t.len() > 0 && t[0] == '#' {
        let a: usize = skip_ws_exec(t, 1);
        copy_range(t, a, t.len())
    } else {
        proof {
            assert(t@.subrange(0, t@.len() as int) =~= t@);
        }
        copy_range(t, 0, t.len())
    }
}

/// Exec check of [`is_rule_line`].
pub fn is_rule_line_exec(t: &Vec<char>) -> (r: bool)
    ensures
        r == is_rule_line(t@),
{
    if t.len() == 0 {
        return false;
    }
    let u: Vec<char> = rule_body_exec(t);
    let alen: usize = if match_at_exec(&u, 0, &word_alert()) {
        5
    } else if match_at_exec(&u, 0, &word_drop()) {
        4
    } else if match_at_exec(&u, 0, &word_pass()) {
        4
    } else if match_at_exec(&u, 0, &word_reject()) {
        6
    } else {
        return false;
    };
    proof {
        assert(action_len(u@) == alen);
    }
    if !(alen < u.len() && is_space_exec(u[alen])) {
        return false;
    }
    let marker: Vec<char> = field_marker('s', 'i', 'd');
    proof {
        assert(marker@ =~= sid_marker());
    }
    let mut k: usize = alen + 1;
    while k < u.len()
        invariant
            marker@ == sid_marker(),
            t@.len() > 0,
            u@ == rule_body(t@),
            action_len(u@) == alen,
            alen < u@.len(),
            is_space(u@[alen as int]),
            alen < k <= u@.len(),
            forall|j: int| alen < j < k ==> !sid_num_semi_at(u@, j),
        decreases u@.len() - k,
    {
        if sid_num_semi_at_exec(&u, &marker, k) {
            proof {
                assert(sid_num_semi_at(rule_body(t@), k as int));
                assert(exists|j: int|
                    action_len(rule_body(t@)) < j && sid_num_semi_at(rule_body(t@), j));
                assert(is_rule_line(t@));
            }
            return true;
        }
        k = k + 1;
    }
    proof {
        assert(forall|j: int| sid_num_semi_at(u@, j) ==> 0 <= j < u@.len());
    }
    false
}

/// The word `alert` as an exec vector.
fn word_alert() -> (r: Vec<char>)
    ensures
        r@ == seq!['a', 'l', 'e', 'r', 't'],
{
    let mut r: Vec<char> = Vec::new();
    r.push('a');
    r.push('l');
    r.push('e');
    r.push('r');
    r.push('t');
    proof {
        assert(r@ =~= seq!['a', 'l', 'e', 'r', 't']);
    }
    r
}

/// The word `drop` as an exec vector.
fn word_drop() -> (r: Vec<char>)
    ensures
        r@ == seq!['d', 'r', 'o', 'p'],
{
    let mut r: Vec<char> = Vec::new();
    r.push('d');
    r.push('r');
    r.push('o');
    r.push('p');
    proof {
        assert(r@ =~= seq!['d', 'r', 'o', 'p']);
    }
    r
}

/// The word `pass` as an exec vector.
fn word_pass() -> (r: Vec<char>)
    ensures
        r@ == seq!['p', 'a', 's', 's'],
{
    let mut r: Vec<char> = Vec::new();
    r.push('p');
    r.push('a');
    r.push('s');
    r.push('s');
    proof {
        assert(r@ =~= seq!['p', 'a', 's', 's']);
    }
    r
}

/// The word `reject` as an exec vector.
fn word_reject() -> (r: Vec<char>)
    ensures
        r@ == seq!['r', 'e', 'j', 'e', 'c', 't'],
{
    let mut r: Vec<char> = Vec::new();
    r.push('r');
    r.push('e');
    r.push('j');
    r.push('e');
    r.push('c');
    r.push('t');
    proof {
        assert(r@ =~= seq!['r', 'e', 'j', 'e', 'c', 't']);
    }
    r
}

/// What one line parses to: `None` when the line is blank, an
/// all-comment line without a `sid:`, a line that fails the grammar, or
/// a line whose signature id is missing, zero or out of range.  The
/// grammar and the fields are read from the trimmed line; an accepted
/// record keeps the line itself, unmodified, as its raw text.
pub open spec fn parse_line_spec(line: Seq<char>) -> Option<RuleRecordView> {
    let t = trim_spec(line);
    if t.len() == 0 {
        None
    } else if t[0] == '#' && !contains_seq(t, sid_marker()) {
        None
    } else if !is_rule_line(t) {
        None
    } else {
        let sid = field_u32(t, sid_marker(), 0);
        if sid > 0 {
            Some(
                RuleRecordView {
                    raw: line,
                    enabled: t[0] != '#',
                    sid: sid,
                    gid: field_u32(t, gid_marker(), 1),
                    rev: field_u32(t, rev_marker(), 1),
                    msg: msg_field(t),
                },
            )
        } else {
            None
        }
    }
}

/// Parse one line, matching [`parse_line_spec`].
pub fn parse_line(line: &Vec<char>) -> (r: Option<RuleRecord>)
    ensures
        r is Some <==> parse_line_spec(line@) is Some,
        r is Some ==> r->0@ == parse_line_spec(line@)->0,
{
    let t: Vec<char> = trim_exec(line);
    if t.len() == 0 {
        return None;
    }
    let sidm: Vec<char> = field_marker('s', 'i', 'd');
    proof {
        assert(sidm@ =~= sid_marker());
    }
    if t[0] == '#' && !contains_exec(&t, &sidm) {
        return None;
    }
    if !is_rule_line_exec(&t) {
        return None;
    }
    let sid: u32 = field_u32_exec(&t, &sidm, 0);
    if sid == 0 {
        return None;
    }
    let gidm: Vec<char> = field_marker('g', 'i', 'd');
    let revm: Vec<char> = field_marker('r', 'e', 'v');
    proof {
        assert(gidm@ =~= gid_marker());
        assert(revm@ =~= rev_marker());
    }
    let gid: u32 = field_u32_exec(&t, &gidm, 1);
    let rev: u32 = field_u32_exec(&t, &revm, 1);
    let msg: Vec<char> = msg_field_exec(&t);
    let enabled: bool = t[0] != '#';
    let raw: String = string_from_chars(line);
    let msg_s: String = string_from_chars(&msg);
    Some(RuleRecord { raw, enabled, sid, gid, rev, msg: msg_s })
}

/// The records parsed from a sequence of lines, in order.
pub open spec fn parse_lines_spec(lines: Seq<Seq<char>>) -> Seq<RuleRecordView>
    decreases lines.len(),
{
    if lines.len() == 0 {
        Seq::empty()
    } else {
        (match parse_line_spec(lines[0]) {
            Some(r) => seq![r],
            None => Seq::empty(),
        }) + parse_lines_spec(lines.drop_first())
    }
}

proof fn lemma_parse_lines_snoc(lines: Seq<Seq<char>>, x: Seq<char>)
    ensures
        parse_lines_spec(lines.push(x)) == parse_lines_spec(lines) + (match parse_line_spec(x) {
            Some(r) => seq![r],
            None => Seq::<RuleRecordView>::empty(),
        }),
    decreases lines.len(),
{
    let opt = (match parse_line_spec(x) {
        Some(r) => seq![r],
        None => Seq::<RuleRecordView>::empty(),
    });
    if lines.len() == 0 {
        assert(lines.push(x)[0] == x);
        assert(lines.push(x).drop_first() =~= Seq::<Seq<char>>::empty());
        assert(parse_lines_spec(lines.push(x)) == opt + parse_lines_spec(
            Seq::<Seq<char>>::empty(),
        ));
        assert(opt + Seq::<RuleRecordView>::empty() =~= opt);
        assert(parse_lines_spec(lines) + opt =~= opt);
    } else {
        assert(lines.push(x)[0] == lines[0]);
        assert(lines.push(x).drop_first() =~= lines.drop_first().push(x));
        lemma_parse_lines_snoc(lines.drop_first(), x);
        assert(parse_lines_spec(lines.push(x)) =~= parse_lines_spec(lines) + opt);
    }
}

/// The records parsed from a whole rule file already decoded to text:
/// the text is split at newlines (a carriage return immediately before
/// a newline belongs to the line ending) and each line parsed.
pub open spec fn parse_text_spec(s: Seq<char>) -> Seq<RuleRecordView> {
    parse_lines_spec(split_lines(s).map_values(|l: Seq<char>| crate::text::strip_cr(l)))
}

/// What a byte content decodes to, relied on from `String::from_utf8_lossy`.
pub uninterp spec fn utf8_lossy(bytes: Seq<u8>) -> Seq<char>;

/// Relies on `String::from_utf8_lossy`: the decoding is a function of
/// the bytes alone (invalid sequences become replacement characters),
/// and an empty input decodes to an empty string.
#[verifier::external_body]
fn decode_utf8_lossy(bytes: &Vec<u8>) -> (r: Vec<char>)
    ensures
        r@ == utf8_lossy(bytes@),
        bytes@.len() == 0 ==> r@.len() == 0,
{
    String::from_utf8_lossy(bytes).chars().collect()
}

/// All records parsed from a rule file's bytes: the bytes are decoded
/// as UTF-8 (lossily, never failing), split into lines, and each line
/// parsed by [`parse_line_spec`].
pub fn parse_rules(content: &Vec<u8>) -> (r: Vec<RuleRecord>)
    ensures
        r@.map_values(|rec: RuleRecord| rec@) == parse_text_spec(utf8_lossy(content@)),
{
    let chars: Vec<char> = decode_utf8_lossy(content);
    let lines: Vec<Vec<char>> = split_lines_exec(&chars);
    let ghost line_views = split_lines(chars@).map_values(|l: Seq<char>| crate::text::strip_cr(l));
    let mut out: Vec<RuleRecord> = Vec::new();
    let mut i: usize = 0;
    proof {
        assert(out@.map_values(|rec: RuleRecord| rec@) =~= parse_lines_spec(
            line_views.take(0),
        ));
    }
    while i < lines.len()
        invariant
            i <= lines@.len(),
            lines@.map_values(|l: Vec<char>| l@) == split_lines(chars@),
            line_views == split_lines(chars@).map_values(|l: Seq<char>| crate::text::strip_cr(l)),
            line_views.len() == lines@.len(),
            out@.map_values(|rec: RuleRecord| rec@) == parse_lines_spec(line_views.take(i as int)),
        decreases lines@.len() - i,
    {
        proof {
            assert(lines@.map_values(|l: Vec<char>| l@)[i as int] == lines@[i as int]@);
            assert(line_views[i as int] == crate::text::strip_cr(lines@[i as int]@));
        }
        let stripped: Vec<char> = crate::text::strip_cr_exec(&lines[i]);
        let ghost prev = out@;
        match parse_line(&stripped) {
            Some(rec) => {
                out.push(rec);
                proof {
                    assert(out@.map_values(|rec: RuleRecord| rec@) =~= prev.map_values(
                        |rec: RuleRecord| rec@,
                    ) + seq![out@.last()@]);
                }
            },
            None => {
            },
        }
        proof {
            assert(line_views.take(i + 1) =~= line_views.take(i as int).push(
                line_views[i as int],
            ));
            lemma_parse_lines_snoc(line_views.take(i as int), line_views[i as int]);
        }
        i = i + 1;
    }
    proof {
        assert(line_views.take(i as int) =~= line_views);
    }
    out
}

/// Exec extraction of a numeric field, matching [`field_u32`].
pub fn field_u32_exec(t: &Vec<char>, marker: &Vec<char>, default: u32) -> (r: u32)
    ensures
        r == field_u32(t@, marker@, default),
{
    match find_num_field_exec(t, marker) {
        None => default,
        Some(k) => {
            let n: usize = t.len();
            proof {
                lemma_find_num_field(t@, marker@, 0);
                assert(num_field_at(t@, marker@, k as int));
                assert(k + marker@.len() <= n);
            }
            let m: usize = skip_ws_exec(t, k + marker.len());
            let e: usize = digits_end_exec(t, m);
            proof {
                lemma_digits_end_idx(t@, m as int);
            }
            match parse_u32_range(t, m, e) {
                Some(v) => v,
                None => default,
            }
        },
    }
}

} // verus!
