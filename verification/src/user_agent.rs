//! The HTTP client identity string.
//!
//! Requests carry an identity of the form
//! `Suricasta-Rules/<version> (OS: <os>; CPU: <cpu>; Dist: <dist>)`.
//! The pieces come from the embedding application (they describe the
//! running machine); this module renders them, and parses the two
//! machine descriptions that come from text: the `/etc/os-release`
//! key/value format and the version strings Windows tools print.

use vstd::prelude::*;

verus! {

use vstd::string::StringExecFns;
use crate::rules::char_end_idx;
use crate::rules::char_end_exec;
use crate::rules::lemma_char_end_idx;
use crate::text::chars_of;
use crate::text::copy_range;
use crate::text::contains_seq;
use crate::text::contains_exec;
use crate::text::find_sub;
use crate::text::find_sub_exec;
use crate::text::lemma_find_sub;
use crate::text::match_at;
use crate::text::match_at_exec;
use crate::text::split_lines;
use crate::text::split_lines_exec;
use crate::text::string_from_chars;
use crate::text::strip_cr;
use crate::text::strip_cr_exec;
use crate::text::trim_char;
use crate::text::trim_char_exec;
use crate::text::trim_spec;
use crate::text::trim_exec;

/// The pieces of the client identity string.
pub struct UserAgent {
    pub version: String,
    pub os: String,
    pub cpu: String,
    pub dist: String,
}

impl UserAgent {
    /// An identity from its four pieces.
    pub fn new(version: String, os: String, cpu: String, dist: String) -> (r: Self)
        ensures
            r.version == version,
            r.os == os,
            r.cpu == cpu,
            r.dist == dist,
    {
        UserAgent { version, os, cpu, dist }
    }

    /// The rendered identity string.
    pub fn to_string(&self) -> (r: String)
        ensures
            r@ == "Suricasta-Rules/"@ + self.version@ + " (OS: "@ + self.os@ + "; CPU: "@
                + self.cpu@ + "; Dist: "@ + self.dist@ + ")"@,
    {
        let mut r: String = String::from_str("Suricasta-Rules/");
        r.append(self.version.as_str());
        r.append(" (OS: ");
        r.append(self.os.as_str());
        r.append("; CPU: ");
        r.append(self.cpu.as_str());
        r.append("; Dist: ");
        r.append(self.dist.as_str());
        r.append(")");
        proof {
            assert(r@ =~= "Suricasta-Rules/"@ + self.version@ + " (OS: "@ + self.os@ + "; CPU: "@
                + self.cpu@ + "; Dist: "@ + self.dist@ + ")"@);
        }
        r
    }
}

/// Index of the first line beginning with `prefix`, or `-1`.
pub open spec fn find_prefixed(lines: Seq<Seq<char>>, prefix: Seq<char>) -> int
    decreases lines.len(),
{
    if lines.len() == 0 {
        -1
    } else if match_at(lines[0], 0, prefix) {
        0
    } else if find_prefixed(lines.drop_first(), prefix) < 0 {
        -1
    } else {
        find_prefixed(lines.drop_first(), prefix) + 1
    }
}

pub proof fn lemma_find_prefixed(lines: Seq<Seq<char>>, prefix: Seq<char>)
    ensures
        find_prefixed(lines, prefix) == -1 ==> forall|j: int|
            0 <= j < lines.len() ==> !match_at(lines[j], 0, prefix),
        find_prefixed(lines, prefix) != -1 ==> 0 <= find_prefixed(lines, prefix) < lines.len()
            && match_at(lines[find_prefixed(lines, prefix)], 0, prefix) && forall|j: int|
            0 <= j < find_prefixed(lines, prefix) ==> !match_at(lines[j], 0, prefix),
    decreases lines.len(),
{
    if lines.len() > 0 && !match_at(lines[0], 0, prefix) {
        let t = lines.drop_first();
        lemma_find_prefixed(t, prefix);
        assert(forall|j: int| 0 <= j < t.len() ==> t[j] == lines[j + 1]);
        if find_prefixed(t, prefix) >= 0 {
            assert forall|j: int| 0 <= j < find_prefixed(lines, prefix) implies !match_at(
                lines[j],
                0,
                prefix,
            ) by {
                if j > 0 {
                    assert(lines[j] == t[j - 1]);
                }
            }
        } else {
            assert forall|j: int| 0 <= j < lines.len() implies !match_at(lines[j], 0, prefix) by {
                if j > 0 {
                    assert(lines[j] == t[j - 1]);
                }
            }
        }
    }
}

/// The value of a field in `/etc/os-release`-style text: on the first
/// line beginning `field=`, the text between the first `=` and the
/// second `=` (or the line's end), with all surrounding double quotes
/// and then all surrounding single quotes removed.  Lines keep their
/// content up to a trailing carriage return.
pub open spec fn os_release_field_spec(content: Seq<char>, field: Seq<char>) -> Option<Seq<char>> {
    let lines = split_lines(content).map_values(|l: Seq<char>| strip_cr(l));
    let prefix = field + seq!['='];
    let i = find_prefixed(lines, prefix);
    if i < 0 {
        None
    } else {
        let l = lines[i];
        let p1 = char_end_idx(l, 0, '=');
        let p2 = char_end_idx(l, p1 + 1, '=');
        Some(trim_char(trim_char(l.subrange(p1 + 1, p2), '"'), '\''))
    }
}

impl UserAgent {
    /// Extract a field value from `/etc/os-release`-style text,
    /// matching [`os_release_field_spec`].
    pub fn extract_os_release_field(content: &str, field: &str) -> (r: Option<String>)
        ensures
            r is Some <==> os_release_field_spec(content@, field@) is Some,
            r is Some ==> r->0@ == os_release_field_spec(content@, field@)->0,
    {
        let cchars: Vec<char> = chars_of(content);
        let lines: Vec<Vec<char>> = split_lines_exec(&cchars);
        let mut prefix: Vec<char> = chars_of(field);
        prefix.push('=');
        proof {
            assert(prefix@ =~= field@ + seq!['=']);
        }
        let ghost lvs = split_lines(content@).map_values(|l: Seq<char>| strip_cr(l));
        proof {
            assert(lvs.len() == lines@.len());
        }
        let mut i: usize = 0;
        while i < lines.len()
            invariant
                i <= lines@.len(),
                prefix@ == field@ + seq!['='],
                lines@.map_values(|l: Vec<char>| l@) == split_lines(content@),
                lvs == split_lines(content@).map_values(|l: Seq<char>| strip_cr(l)),
                lvs.len() == lines@.len(),
                forall|j: int| 0 <= j < i ==> !match_at(lvs[j], 0, prefix@),
            decreases lines@.len() - i,
        {
            let lv: &Vec<char> = &lines[i];
            proof {
                assert(lines@.map_values(|l: Vec<char>| l@)[i as int] == lv@);
                assert(lvs[i as int] == strip_cr(lv@));
            }
            let stripped: Vec<char> = strip_cr_exec(lv);
            if match_at_exec(&stripped, 0, &prefix) {
                proof {
                    lemma_find_prefixed(lvs, prefix@);
                    let f = find_prefixed(lvs, prefix@);
                    assert(f != -1);
                    assert(f == i) by {
                        if f < i {
                            assert(!match_at(lvs[f], 0, prefix@));
                        }
                        if i < f {
                            assert(!match_at(lvs[i as int], 0, prefix@));
                        }
                    }
                    assert(prefix@[field@.len() as int] == '=');
                    assert(stripped@.subrange(0, prefix@.len() as int) == prefix@);
                    assert(stripped@[field@.len() as int] == stripped@.subrange(
                        0,
                        prefix@.len() as int,
                    )[field@.len() as int]);
                    lemma_char_end_idx(stripped@, 0, '=');
                }
                let p1: usize = char_end_exec(&stripped, 0, '=');
                proof {
                    assert(p1 < stripped@.len()) by {
                        if p1 == stripped@.len() {
                            assert(stripped@[field@.len() as int] != '=');
                        }
                    }
                }
                let p2: usize = char_end_exec(&stripped, p1 + 1, '=');
                let raw: Vec<char> = copy_range(&stripped, p1 + 1, p2);
                let t1: Vec<char> = trim_char_exec(&raw, '"');
                let t2: Vec<char> = trim_char_exec(&t1, '\'');
                return Some(string_from_chars(&t2));
            }
            i = i + 1;
        }
        proof {
            lemma_find_prefixed(lvs, prefix@);
            if find_prefixed(lvs, prefix@) != -1 {
                assert(match_at(lvs[find_prefixed(lvs, prefix@)], 0, prefix@));
                assert(false);
            }
        }
        None
    }
}

/// The version label derived from the output of the Windows `ver`
/// command: the text between `Version ` and `]`, trimmed, mapped to the
/// common product names where its prefix is recognized.
pub open spec fn win_ver_from_output(out: Seq<char>) -> Option<Seq<char>> {
    let i = find_sub(out, "Version "@, 0);
    if i < 0 {
        None
    } else {
        let rest = out.subrange(i + "Version "@.len(), out.len() as int);
        let e = char_end_idx(rest, 0, ']');
        if e >= rest.len() {
            None
        } else {
            let v = trim_spec(rest.subrange(0, e));
            if match_at(v, 0, "10.0"@) {
                Some("11"@)
            } else if match_at(v, 0, "6.3"@) {
                Some("8.1"@)
            } else if match_at(v, 0, "6.2"@) {
                Some("8"@)
            } else if match_at(v, 0, "6.1"@) {
                Some("7"@)
            } else {
                Some(v)
            }
        }
    }
}

/// Extract the Windows version label from `ver` output, matching
/// [`win_ver_from_output`].
pub fn windows_version_from_ver(out: &str) -> (r: Option<String>)
    ensures
        r is Some <==> win_ver_from_output(out@) is Some,
        r is Some ==> r->0@ == win_ver_from_output(out@)->0,
{
    let chars: Vec<char> = chars_of(out);
    let pat: Vec<char> = chars_of("Version ");
    let i: usize = match find_sub_exec(&chars, &pat, 0) {
        Some(i) => i,
        None => {
            return None;
        },
    };
    let n: usize = chars.len();
    proof {
        lemma_find_sub(chars@, pat@, 0);
        assert(match_at(chars@, i as int, pat@));
        assert(i + pat@.len() <= n);
    }
    let rest: Vec<char> = copy_range(&chars, i + pat.len(), n);
    proof {
        lemma_char_end_idx(rest@, 0, ']');
    }
    let e: usize = char_end_exec(&rest, 0, ']');
    if e >= rest.len() {
        return None;
    }
    let clipped: Vec<char> = copy_range(&rest, 0, e);
    let v: Vec<char> = trim_exec(&clipped);
    if match_at_exec(&v, 0, &chars_of("10.0")) {
        Some(String::from_str("11"))
    } else if match_at_exec(&v, 0, &chars_of("6.3")) {
        Some(String::from_str("8.1"))
    } else if match_at_exec(&v, 0, &chars_of("6.2")) {
        Some(String::from_str("8"))
    } else if match_at_exec(&v, 0, &chars_of("6.1")) {
        Some(String::from_str("7"))
    } else {
        Some(string_from_chars(&v))
    }
}

/// The version label derived from the operating-system caption a
/// PowerShell query prints, trimmed and matched against the common
/// product names; `None` when nothing is recognized.
pub open spec fn win_ver_from_caption(ps_out: Seq<char>) -> Option<Seq<char>> {
    let c = trim_spec(ps_out);
    if contains_seq(c, "Windows 11"@) {
        Some("11"@)
    } else if contains_seq(c, "Windows 10"@) {
        Some("10"@)
    } else if contains_seq(c, "Windows 8.1"@) {
        Some("8.1"@)
    } else if contains_seq(c, "Windows 8"@) {
        Some("8"@)
    } else if contains_seq(c, "Windows 7"@) {
        Some("7"@)
    } else if contains_seq(c, "Server"@) {
        if contains_seq(c, "2022"@) {
            Some("Server 2022"@)
        } else if contains_seq(c, "2019"@) {
            Some("Server 2019"@)
        } else if contains_seq(c, "2016"@) {
            Some("Server 2016"@)
        } else {
            Some("Server"@)
        }
    } else {
        None
    }
}

/// Extract the Windows version label from an operating-system caption,
/// matching [`win_ver_from_caption`].
pub fn windows_version_from_caption(ps_out: &str) -> (r: Option<String>)
    ensures
        r is Some <==> win_ver_from_caption(ps_out@) is Some,
        r is Some ==> r->0@ == win_ver_from_caption(ps_out@)->0,
{
    let chars: Vec<char> = chars_of(ps_out);
    let c: Vec<char> = trim_exec(&chars);
    if contains_exec(&c, &chars_of("Windows 11")) {
        Some(String::from_str("11"))
    } else if contains_exec(&c, &chars_of("Windows 10")) {
        Some(String::from_str("10"))
    } else if contains_exec(&c, &chars_of("Windows 8.1")) {
        Some(String::from_str("8.1"))
    } else if contains_exec(&c, &chars_of("Windows 8")) {
        Some(String::from_str("8"))
    } else if contains_exec(&c, &chars_of("Windows 7")) {
        Some(String::from_str("7"))
    } else if contains_exec(&c, &chars_of("Server")) {
        if contains_exec(&c, &chars_of("2022")) {
            Some(String::from_str("Server 2022"))
        } else if contains_exec(&c, &chars_of("2019")) {
            Some(String::from_str("Server 2019"))
        } else if contains_exec(&c, &chars_of("2016")) {
            Some(String::from_str("Server 2016"))
        } else {
            Some(String::from_str("Server"))
        }
    } else {
        None
    }
}

} // verus!
