//! Freshness policy for the on-disk caches.
//!
//! Both the source catalog and each vendor archive are cached on disk and
//! reused while young enough.  The embedding application measures the age
//! of a cached file (current time minus its modification time, in
//! seconds) and asks this module whether the cache may be used.

use vstd::prelude::*;

verus! {

use vstd::string::StringExecFns;
use vstd::string::StringSliceAdditionalSpecFns;

/// What the MD5 digest of some bytes prints as in lowercase hex,
/// relied on from the md5 crate.
pub uninterp spec fn md5_hex(bytes: Seq<u8>) -> Seq<char>;

/// Relies on `md5::compute` and the digest's `LowerHex` formatting:
/// the digest is a function of the bytes alone, sixteen bytes printed
/// as thirty-two lowercase hex digits.
#[verifier::external_body]
fn md5_hex_of(bytes: &[u8]) -> (r: String)
    ensures
        r@ == md5_hex(bytes@),
        r@.len() == 32,
{
    format!("{:x}", md5::compute(bytes))
}

/// The cache file name for a resolved archive URL: the MD5 of the
/// URL's bytes in hex, with a `.tar.gz` suffix.
pub fn cache_file_name(url: &str) -> (r: String)
    ensures
        r@ == md5_hex(url.spec_bytes()) + ".tar.gz"@,
        r@.len() == 32 + ".tar.gz"@.len(),
{
    let mut r: String = md5_hex_of(url.as_bytes());
    r.append(".tar.gz");
    r
}

/// Whether a cached file may be used instead of fetching again.
///
/// `age_secs` is `None` when no cached file exists or its modification
/// time could not be read.  A forced refresh never uses the cache; an
/// existing cache is used exactly when it is younger than
/// [`crate::CACHE_MIN_AGE_SECS`].
pub fn use_cached(force: bool, age_secs: Option<i64>) -> (r: bool)
    ensures
        r == (!force && age_secs is Some && age_secs->0 < crate::CACHE_MIN_AGE_SECS),
{
    if force {
        false
    } else {
        match age_secs {
            Some(age) => age < crate::CACHE_MIN_AGE_SECS,
            None => false,
        }
    }
}

} // verus!
