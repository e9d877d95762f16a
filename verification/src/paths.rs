//! Where the synchronizer keeps its state.
//!
//! Three directories matter: the sources directory (enablement
//! markers), the cache directory (catalog and archive payloads) and the
//! rules directory (the merged output file).  A [`PathProvider`] names
//! them; [`UnixSystemPaths`] is the system-wide layout, and
//! [`CustomPaths`] lets the embedding application substitute any other
//! layout, such as per-user directories.

use vstd::prelude::*;

verus! {

use vstd::string::StringExecFns;

/// A source of the three working directories.
pub trait PathProvider {
    /// The directory holding enablement marker files.
    spec fn spec_sources_dir(&self) -> Seq<char>;

    /// The directory holding cached downloads.
    spec fn spec_cache_dir(&self) -> Seq<char>;

    /// The directory receiving the merged rules file.
    spec fn spec_rules_dir(&self) -> Seq<char>;

    fn sources_dir(&self) -> (r: String)
        ensures
            r@ == self.spec_sources_dir(),
    ;

    fn cache_dir(&self) -> (r: String)
        ensures
            r@ == self.spec_cache_dir(),
    ;

    fn rules_dir(&self) -> (r: String)
        ensures
            r@ == self.spec_rules_dir(),
    ;
}

/// The system-wide directory layout.
pub struct UnixSystemPaths;

impl PathProvider for UnixSystemPaths {
    open spec fn spec_sources_dir(&self) -> Seq<char> {
        "/var/lib/suricata/update/sources"@
    }

    open spec fn spec_cache_dir(&self) -> Seq<char> {
        "/var/lib/suricata/update/cache"@
    }

    open spec fn spec_rules_dir(&self) -> Seq<char> {
        "/var/lib/suricata/rules"@
    }

    fn sources_dir(&self) -> (r: String) {
        String::from_str("/var/lib/suricata/update/sources")
    }

    fn cache_dir(&self) -> (r: String) {
        String::from_str("/var/lib/suricata/update/cache")
    }

    fn rules_dir(&self) -> (r: String) {
        String::from_str("/var/lib/suricata/rules")
    }
}

/// Any other directory layout, handed in as plain strings (for example
/// per-user directories resolved by the embedding application).
pub struct CustomPaths {
    pub sources: String,
    pub cache: String,
    pub rules: String,
}

impl PathProvider for CustomPaths {
    open spec fn spec_sources_dir(&self) -> Seq<char> {
        self.sources@
    }

    open spec fn spec_cache_dir(&self) -> Seq<char> {
        self.cache@
    }

    open spec fn spec_rules_dir(&self) -> Seq<char> {
        self.rules@
    }

    fn sources_dir(&self) -> (r: String) {
        self.sources.clone()
    }

    fn cache_dir(&self) -> (r: String) {
        self.cache.clone()
    }

    fn rules_dir(&self) -> (r: String) {
        self.rules.clone()
    }
}

/// `dir` and `name` joined with a single path separator.
pub fn join_path(dir: &str, name: &str) -> (r: String)
    ensures
        r@ == dir@ + seq!['/'] + name@,
{
    let mut r: String = String::from_str(dir);
    r.append("/");
    r.append(name);
    proof {
        reveal_strlit("/");
        assert("/"@ =~= seq!['/']);
    }
    r
}

} // verus!
