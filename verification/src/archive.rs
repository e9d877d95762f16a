//! The archive extractor.
//!
//! A vendor publishes its rules as one archive: either a
//! gzip-compressed tar stream or a zip container, told apart by the
//! file name's suffix.  Extraction yields the flat list of file entries
//! (directories are skipped); any other suffix is an unsupported
//! format, and a container that cannot be read is corrupt.  The
//! container decoding itself is done by outside libraries; what they
//! yield for given bytes is given a name here, and everything after
//! extraction is verified against those names.

use vstd::prelude::*;

verus! {

use crate::errors::SyncError;
use crate::text::chars_of;
use crate::text::match_at_exec;

/// One extracted archive entry.
#[derive(Debug)]
pub struct ArchiveEntry {
    pub name: String,
    pub content: Vec<u8>,
}

impl View for ArchiveEntry {
    type V = (Seq<char>, Seq<u8>);

    open spec fn view(&self) -> (Seq<char>, Seq<u8>) {
        (self.name@, self.content@)
    }
}

/// What a gzip-compressed tar archive's bytes extract to, relied on
/// from the tar and flate2 crates; `None` when the container cannot be
/// read.  The decoding is deterministic for one compiled build; how
/// non-UTF-8 entry names come out (decoded lossily, or refused) is the
/// tar crate's per-target choice.
pub uninterp spec fn targz_entries(bytes: Seq<u8>) -> Option<Seq<(Seq<char>, Seq<u8>)>>;

/// What a zip archive's bytes extract to, relied on from the zip
/// crate; `None` when the container cannot be read.  The decoding is
/// deterministic for one compiled build; which compression methods it
/// accepts depends on the zip crate's enabled features.
pub uninterp spec fn zip_entries(bytes: Seq<u8>) -> Option<Seq<(Seq<char>, Seq<u8>)>>;

/// Relies on `flate2::read::GzDecoder` and `tar::Archive`: the file
/// entries (directories skipped, in archive order) are a function of
/// the bytes alone, and reading fails exactly when the container is
/// unreadable.
#[verifier::external_body]
fn read_targz(bytes: &Vec<u8>) -> (r: Result<Vec<ArchiveEntry>, ()>)
    ensures
        r is Ok ==> targz_entries(bytes@) == Some(r->Ok_0@.map_values(|e: ArchiveEntry| e@)),
        r is Err ==> targz_entries(bytes@) is None,
{
    let gz = flate2::read::GzDecoder::new(std::io::Cursor::new(bytes.as_slice()));
    let mut out = Vec::new();
    for entry in tar::Archive::new(gz).entries().map_err(|_| ())? {
        let mut e = entry.map_err(|_| ())?;
        if e.header().entry_type().is_dir() {
            continue;
        }
        let name = e.path().map_err(|_| ())?.to_string_lossy().to_string();
        let mut content = Vec::new();
        std::io::Read::read_to_end(&mut e, &mut content).map_err(|_| ())?;
        out.push(ArchiveEntry { name, content });
    }
    Ok(out)
}

/// Relies on `zip::ZipArchive`: the file entries (directories skipped,
/// in index order) are a function of the bytes alone, and reading
/// fails exactly when the container is unreadable.
#[verifier::external_body]
fn read_zip(bytes: &Vec<u8>) -> (r: Result<Vec<ArchiveEntry>, ()>)
    ensures
        r is Ok ==> zip_entries(bytes@) == Some(r->Ok_0@.map_values(|e: ArchiveEntry| e@)),
        r is Err ==> zip_entries(bytes@) is None,
{
    let mut archive = zip::ZipArchive::new(std::io::Cursor::new(bytes.as_slice())).map_err(|_| ())?;
    let mut out = Vec::new();
    for i in 0..archive.len() {
        let mut file = archive.by_index(i).map_err(|_| ())?;
        if file.is_dir() {
            continue;
        }
        let name = file.name().to_string();
        let mut content = Vec::new();
        std::io::Read::read_to_end(&mut file, &mut content).map_err(|_| ())?;
        out.push(ArchiveEntry { name, content });
    }
    Ok(out)
}

/// The supported container formats.
#[derive(Debug, Clone, Copy, PartialEq, Eq, Structural)]
pub enum ArchiveKind {
    /// A gzip-compressed tar stream.
    TarGz,
    /// A zip container.
    Zip,
}

pub open spec fn targz_suffix() -> Seq<char> {
    seq!['.', 't', 'a', 'r', '.', 'g', 'z']
}

pub open spec fn zip_suffix() -> Seq<char> {
    seq!['.', 'z', 'i', 'p']
}

/// `s` ends with `suffix`.
pub open spec fn ends_with(s: Seq<char>, suffix: Seq<char>) -> bool {
    s.len() >= suffix.len() && s.subrange(s.len() - suffix.len(), s.len() as int) == suffix
}

/// The container format a file name announces, if any.
pub open spec fn archive_kind_spec(name: Seq<char>) -> Option<ArchiveKind> {
    if ends_with(name, targz_suffix()) {
        Some(ArchiveKind::TarGz)
    } else if ends_with(name, zip_suffix()) {
        Some(ArchiveKind::Zip)
    } else {
        None
    }
}

/// Exec check of [`ends_with`] over character vectors.
fn ends_with_exec(s: &Vec<char>, suffix: &Vec<char>) -> (r: bool)
    ensures
        r == ends_with(s@, suffix@),
{
    if suffix.len() > s.len() {
        return false;
    }
    let start: usize = s.len() - suffix.len();
    let r: bool = match_at_exec(s, start, suffix);
    proof {
        assert(r == ends_with(s@, suffix@));
    }
    r
}

/// Exec dispatch on the file name, matching [`archive_kind_spec`].
pub fn archive_kind(name: &str) -> (r: Option<ArchiveKind>)
    ensures
        r == archive_kind_spec(name@),
{
    let chars: Vec<char> = chars_of(name);
    let mut tgz: Vec<char> = Vec::new();
    tgz.push('.');
    tgz.push('t');
    tgz.push('a');
    tgz.push('r');
    tgz.push('.');
    tgz.push('g');
    tgz.push('z');
    proof {
        assert(tgz@ =~= targz_suffix());
    }
    if ends_with_exec(&chars, &tgz) {
        return Some(ArchiveKind::TarGz);
    }
    let mut zip_s: Vec<char> = Vec::new();
    zip_s.push('.');
    zip_s.push('z');
    zip_s.push('i');
    zip_s.push('p');
    proof {
        assert(zip_s@ =~= zip_suffix());
    }
    if ends_with_exec(&chars, &zip_s) {
        return Some(ArchiveKind::Zip);
    }
    None
}

/// Extract a vendor archive.  The name's suffix picks the container
/// format; an unknown suffix is [`SyncError::UnsupportedFormat`], and a
/// container the outside decoder cannot read is
/// [`SyncError::CorruptArchive`].
pub fn extract_archive(name: &str, content: &Vec<u8>) -> (r: Result<Vec<ArchiveEntry>, SyncError>)
    ensures
        (archive_kind_spec(name@) is None) <==> (r is Err && r->Err_0
            == SyncError::UnsupportedFormat),
        archive_kind_spec(name@) == Some(ArchiveKind::TarGz) ==> (match r {
            Ok(v) => targz_entries(content@) == Some(v@.map_values(|e: ArchiveEntry| e@)),
            Err(e) => e == SyncError::CorruptArchive && targz_entries(content@) is None,
        }),
        archive_kind_spec(name@) == Some(ArchiveKind::Zip) ==> (match r {
            Ok(v) => zip_entries(content@) == Some(v@.map_values(|e: ArchiveEntry| e@)),
            Err(e) => e == SyncError::CorruptArchive && zip_entries(content@) is None,
        }),
{
    match archive_kind(name) {
        Some(ArchiveKind::TarGz) => match read_targz(content) {
            Ok(v) => Ok(v),
            Err(_) => Err(SyncError::CorruptArchive),
        },
        Some(ArchiveKind::Zip) => match read_zip(content) {
            Ok(v) => Ok(v),
            Err(_) => Err(SyncError::CorruptArchive),
        },
        None => Err(SyncError::UnsupportedFormat),
    }
}

/// Last index of `c` in `s`, or `-1`.
pub open spec fn last_idx(s: Seq<char>, c: char) -> int
    decreases s.len(),
{
    if s.len() == 0 {
        -1
    } else if s[s.len() - 1] == c {
        s.len() - 1
    } else {
        last_idx(s.drop_last(), c)
    }
}

pub proof fn lemma_last_idx(s: Seq<char>, c: char)
    ensures
        last_idx(s, c) == -1 ==> forall|j: int| 0 <= j < s.len() ==> s[j] != c,
        last_idx(s, c) != -1 ==> 0 <= last_idx(s, c) < s.len() && s[last_idx(s, c)] == c
            && forall|j: int| last_idx(s, c) < j < s.len() ==> s[j] != c,
    decreases s.len(),
{
    if s.len() > 0 && s[s.len() - 1] != c {
        lemma_last_idx(s.drop_last(), c);
        assert(forall|j: int| 0 <= j < s.len() - 1 ==> s.drop_last()[j] == s[j]);
    }
}

/// Exec computation of [`last_idx`], as an option.
fn last_idx_exec(s: &Vec<char>, c: char) -> (r: Option<usize>)
    ensures
        r is Some ==> r->0 == last_idx(s@, c),
        r is None ==> last_idx(s@, c) == -1,
{
    proof {
        lemma_last_idx(s@, c);
    }
    let mut j: usize = s.len();
    while j > 0
        invariant
            j <= s@.len(),
            forall|k: int| j <= k < s@.len() ==> s@[k] != c,
        decreases j,
    {
        j = j - 1;
        if s[j] == c {
            proof {
                lemma_last_idx(s@, c);
                let l = last_idx(s@, c);
                assert(l != -1);
                assert(l == j) by {
                    if l < j {
                        assert(s@[j as int] != c);
                    }
                    if j < l {
                        assert(s@[l] != c);
                    }
                }
            }
            return Some(j);
        }
    }
    proof {
        lemma_last_idx(s@, c);
        if last_idx(s@, c) != -1 {
            assert(s@[last_idx(s@, c)] == c);
            assert(false);
        }
    }
    None
}

/// The characters `rules` in any ASCII case.
pub open spec fn is_rules_word(e: Seq<char>) -> bool {
    e.len() == 5 && (e[0] == 'r' || e[0] == 'R') && (e[1] == 'u' || e[1] == 'U') && (e[2] == 'l'
        || e[2] == 'L') && (e[3] == 'e' || e[3] == 'E') && (e[4] == 's' || e[4] == 'S')
}

/// The entry name carries a `rules` extension: in its final path
/// component (a name ending in a separator names no file), the text
/// after the last dot — which must not start the component — equals
/// `rules` ignoring ASCII case.
pub open spec fn has_rules_ext_spec(name: Seq<char>) -> bool {
    let fstart = last_idx(name, '/') + 1;
    let f = name.subrange(fstart, name.len() as int);
    let d = last_idx(f, '.');
    d >= 1 && is_rules_word(f.subrange(d + 1, f.len() as int))
}

/// Exec check of [`has_rules_ext_spec`].
pub fn has_rules_extension(name: &str) -> (r: bool)
    ensures
        r == has_rules_ext_spec(name@),
{
    let chars: Vec<char> = chars_of(name);
    proof {
        lemma_last_idx(chars@, '/');
    }
    let fstart: usize = match last_idx_exec(&chars, '/') {
        Some(j) => j + 1,
        None => 0,
    };
    let f: Vec<char> = crate::text::copy_range(&chars, fstart, chars.len());
    proof {
        lemma_last_idx(f@, '.');
    }
    let d: usize = match last_idx_exec(&f, '.') {
        Some(j) => j,
        None => {
            return false;
        },
    };
    if d < 1 {
        return false;
    }
    let e: Vec<char> = crate::text::copy_range(&f, d + 1, f.len());
    if e.len() != 5 {
        proof {
            assert(!is_rules_word(e@));
        }
        return false;
    }
    let r: bool = (e[0] == 'r' || e[0] == 'R') && (e[1] == 'u' || e[1] == 'U') && (e[2] == 'l'
        || e[2] == 'L') && (e[3] == 'e' || e[3] == 'E') && (e[4] == 's' || e[4] == 'S');
    proof {
        assert(r == is_rules_word(e@));
    }
    r
}

} // verus!
