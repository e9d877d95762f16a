//! The source catalog and its change reporting.
//!
//! The catalog lists every known rule source under a unique name, each
//! with a descriptor: vendor, summary, download URL template and a set
//! of optional advisory fields.  Descriptors are immutable once
//! fetched; equality is field-wise and drives the change report a
//! refresh prints: which sources were added, removed or changed since
//! the previously cached catalog.

use vstd::prelude::*;

verus! {

use crate::paths::PathProvider;
use crate::paths::join_path;

/// A source descriptor as the catalog carries it.
pub struct SourceInfo {
    pub vendor: String,
    pub summary: String,
    pub url: String,
    pub description: Option<String>,
    pub license: Option<String>,
    pub homepage: Option<String>,
    pub min_version: Option<String>,
    pub checksum: Option<bool>,
    /// Extra required configuration; its presence means the source
    /// cannot be selected automatically.
    pub parameters: Option<Vec<(String, String)>>,
    /// Names of sources this one supersedes.
    pub replaces: Option<Vec<String>>,
    /// Advisory deprecation message.
    pub deprecated: Option<String>,
    /// Obsolescence message; its presence blocks enabling.
    pub obsolete: Option<String>,
}

/// The mathematical image of a [`SourceInfo`].
pub struct SourceInfoView {
    pub vendor: Seq<char>,
    pub summary: Seq<char>,
    pub url: Seq<char>,
    pub description: Option<Seq<char>>,
    pub license: Option<Seq<char>>,
    pub homepage: Option<Seq<char>>,
    pub min_version: Option<Seq<char>>,
    pub checksum: Option<bool>,
    pub parameters: Option<Seq<(Seq<char>, Seq<char>)>>,
    pub replaces: Option<Seq<Seq<char>>>,
    pub deprecated: Option<Seq<char>>,
    pub obsolete: Option<Seq<char>>,
}

pub open spec fn opt_str_view(o: Option<String>) -> Option<Seq<char>> {
    match o {
        Some(s) => Some(s@),
        None => None,
    }
}

impl View for SourceInfo {
    type V = SourceInfoView;

    open spec fn view(&self) -> SourceInfoView {
        SourceInfoView {
            vendor: self.vendor@,
            summary: self.summary@,
            url: self.url@,
            description: opt_str_view(self.description),
            license: opt_str_view(self.license),
            homepage: opt_str_view(self.homepage),
            min_version: opt_str_view(self.min_version),
            checksum: self.checksum,
            parameters: match self.parameters {
                Some(p) => Some(p@.map_values(|kv: (String, String)| (kv.0@, kv.1@))),
                None => None,
            },
            replaces: match self.replaces {
                Some(r) => Some(r@.map_values(|s: String| s@)),
                None => None,
            },
            deprecated: opt_str_view(self.deprecated),
            obsolete: opt_str_view(self.obsolete),
        }
    }
}

/// Equality of two strings, by contents.
pub fn string_eq(a: &String, b: &String) -> (r: bool)
    ensures
        r == (a@ == b@),
{
    let r: bool = *a == *b;
    r
}

/// Equality of optional strings, by contents.
pub fn opt_str_eq(a: &Option<String>, b: &Option<String>) -> (r: bool)
    ensures
        r == (opt_str_view(*a) == opt_str_view(*b)),
{
    match (a, b) {
        (Some(x), Some(y)) => string_eq(x, y),
        (None, None) => true,
        _ => {
            proof {
                assert(opt_str_view(*a) != opt_str_view(*b));
            }
            false
        },
    }
}

/// Equality of optional booleans.
pub fn opt_bool_eq(a: &Option<bool>, b: &Option<bool>) -> (r: bool)
    ensures
        r == (*a == *b),
{
    match (a, b) {
        (Some(x), Some(y)) => x == y,
        (None, None) => true,
        _ => false,
    }
}

/// Equality of string lists, by contents and order.
pub fn str_vec_eq(a: &Vec<String>, b: &Vec<String>) -> (r: bool)
    ensures
        r == (a@.map_values(|s: String| s@) == b@.map_values(|s: String| s@)),
{
    let ghost av = a@.map_values(|s: String| s@);
    let ghost bv = b@.map_values(|s: String| s@);
    if a.len() != b.len() {
        proof {
            assert(av.len() != bv.len());
        }
        return false;
    }
    let mut i: usize = 0;
    while i < a.len()
        invariant
            a@.len() == b@.len(),
            i <= a@.len(),
            av == a@.map_values(|s: String| s@),
            bv == b@.map_values(|s: String| s@),
            forall|j: int| 0 <= j < i ==> av[j] == bv[j],
        decreases a@.len() - i,
    {
        proof {
            assert(av[i as int] == a@[i as int]@);
            assert(bv[i as int] == b@[i as int]@);
        }
        if !string_eq(&a[i], &b[i]) {
            proof {
                assert(av[i as int] != bv[i as int]);
            }
            return false;
        }
        i = i + 1;
    }
    proof {
        assert(av =~= bv);
    }
    true
}

/// Equality of key/value parameter lists, by contents and order.
pub fn pair_vec_eq(a: &Vec<(String, String)>, b: &Vec<(String, String)>) -> (r: bool)
    ensures
        r == (a@.map_values(|kv: (String, String)| (kv.0@, kv.1@)) == b@.map_values(
            |kv: (String, String)| (kv.0@, kv.1@),
        )),
{
    let ghost av = a@.map_values(|kv: (String, String)| (kv.0@, kv.1@));
    let ghost bv = b@.map_values(|kv: (String, String)| (kv.0@, kv.1@));
    if a.len() != b.len() {
        proof {
            assert(av.len() != bv.len());
        }
        return false;
    }
    let mut i: usize = 0;
    while i < a.len()
        invariant
            a@.len() == b@.len(),
            i <= a@.len(),
            av == a@.map_values(|kv: (String, String)| (kv.0@, kv.1@)),
            bv == b@.map_values(|kv: (String, String)| (kv.0@, kv.1@)),
            forall|j: int| 0 <= j < i ==> av[j] == bv[j],
        decreases a@.len() - i,
    {
        proof {
            assert(av[i as int] == (a@[i as int].0@, a@[i as int].1@));
            assert(bv[i as int] == (b@[i as int].0@, b@[i as int].1@));
        }
        let ka: &String = &a[i].0;
        let kb: &String = &b[i].0;
        let va: &String = &a[i].1;
        let vb: &String = &b[i].1;
        if !(string_eq(ka, kb) && string_eq(va, vb)) {
            proof {
                assert(av[i as int] != bv[i as int]);
            }
            return false;
        }
        i = i + 1;
        proof {
            assert(av[i - 1] == bv[i - 1]);
        }
    }
    proof {
        assert(av =~= bv);
    }
    true
}

/// Field-wise equality of two descriptors, the relation behind change
/// detection between catalog versions.
pub fn sources_equal(a: &SourceInfo, b: &SourceInfo) -> (r: bool)
    ensures
        r == (a@ == b@),
{
    let base: bool = a.vendor == b.vendor && a.summary == b.summary && a.url == b.url
        && opt_str_eq(&a.description, &b.description) && opt_str_eq(&a.license, &b.license)
        && opt_str_eq(&a.homepage, &b.homepage) && opt_str_eq(&a.min_version, &b.min_version)
        && opt_bool_eq(&a.checksum, &b.checksum) && opt_str_eq(&a.deprecated, &b.deprecated)
        && opt_str_eq(&a.obsolete, &b.obsolete);
    if !base {
        return false;
    }
    let params_eq: bool = match (&a.parameters, &b.parameters) {
        (Some(x), Some(y)) => pair_vec_eq(x, y),
        (None, None) => true,
        _ => false,
    };
    if !params_eq {
        return false;
    }
    let replaces_eq: bool = match (&a.replaces, &b.replaces) {
        (Some(x), Some(y)) => str_vec_eq(x, y),
        (None, None) => true,
        _ => false,
    };
    replaces_eq
}

/// One named entry of the catalog.
pub struct SourceEntry {
    pub name: String,
    pub info: SourceInfo,
}

/// The mathematical image of a [`SourceEntry`].
pub struct SourceEntryView {
    pub name: Seq<char>,
    pub info: SourceInfoView,
}

impl View for SourceEntry {
    type V = SourceEntryView;

    open spec fn view(&self) -> SourceEntryView {
        SourceEntryView { name: self.name@, info: self.info@ }
    }
}

/// The catalog: a format version and the descriptors by name.
pub struct SourceIndex {
    pub version: u32,
    pub sources: Vec<SourceEntry>,
}

impl View for SourceIndex {
    type V = Seq<SourceEntryView>;

    open spec fn view(&self) -> Seq<SourceEntryView> {
        self.sources@.map_values(|e: SourceEntry| e@)
    }
}

/// The descriptor filed under `name`, if any.
pub open spec fn lookup(s: Seq<SourceEntryView>, name: Seq<char>) -> Option<SourceInfoView>
    decreases s.len(),
{
    if s.len() == 0 {
        None
    } else if s[0].name == name {
        Some(s[0].info)
    } else {
        lookup(s.drop_first(), name)
    }
}

impl SourceIndex {
    /// Unique names: each source is filed once.
    pub open spec fn wf(self) -> bool {
        forall|i: int, j: int| 0 <= i < j < self@.len() ==> self@[i].name != self@[j].name
    }

    /// Find the descriptor for `name`, matching [`lookup`].
    pub fn get_source(&self, name: &String) -> (r: Option<&SourceInfo>)
        ensures
            r is Some <==> lookup(self@, name@) is Some,
            r is Some ==> r->0@ == lookup(self@, name@)->0,
    {
        let mut i: usize = 0;
        while i < self.sources.len()
            invariant
                i <= self@.len(),
                self@.len() == self.sources@.len(),
                forall|j: int| 0 <= j < i ==> self@[j].name != name@,
        decreases self@.len() - i,
        {
            proof {
                assert(self@[i as int] == self.sources@[i as int]@);
            }
            if string_eq(&self.sources[i].name, name) {
                proof {
                    lemma_lookup_first(self@, name@, i as int);
                }
                return Some(&self.sources[i].info);
            }
            i = i + 1;
        }
        proof {
            lemma_lookup_absent(self@, name@);
        }
        None
    }
}

proof fn lemma_lookup_first(s: Seq<SourceEntryView>, name: Seq<char>, i: int)
    requires
        0 <= i < s.len(),
        s[i].name == name,
        forall|j: int| 0 <= j < i ==> s[j].name != name,
    ensures
        lookup(s, name) == Some(s[i].info),
    decreases i,
{
    if i > 0 {
        assert(forall|j: int| 0 <= j < i - 1 ==> s.drop_first()[j] == s[j + 1]);
        lemma_lookup_first(s.drop_first(), name, i - 1);
    }
}

proof fn lemma_lookup_absent(s: Seq<SourceEntryView>, name: Seq<char>)
    requires
        forall|j: int| 0 <= j < s.len() ==> s[j].name != name,
    ensures
        lookup(s, name) is None,
    decreases s.len(),
{
    if s.len() > 0 {
        lemma_lookup_absent(s.drop_first(), name);
    }
}

/// Names of `new` entries with no counterpart in `old`, in `new`'s
/// order.
pub open spec fn added_names(old: Seq<SourceEntryView>, new: Seq<SourceEntryView>) -> Seq<
    Seq<char>,
>
    decreases new.len(),
{
    if new.len() == 0 {
        Seq::empty()
    } else {
        (if lookup(old, new[0].name) is None {
            seq![new[0].name]
        } else {
            Seq::empty()
        }) + added_names(old, new.drop_first())
    }
}

/// Names of `new` entries whose `old` counterpart exists but differs
/// field-wise, in `new`'s order.
pub open spec fn changed_names(old: Seq<SourceEntryView>, new: Seq<SourceEntryView>) -> Seq<
    Seq<char>,
>
    decreases new.len(),
{
    if new.len() == 0 {
        Seq::empty()
    } else {
        (match lookup(old, new[0].name) {
            Some(oi) => if oi != new[0].info {
                seq![new[0].name]
            } else {
                Seq::empty()
            },
            None => Seq::empty(),
        }) + changed_names(old, new.drop_first())
    }
}

/// What changed between two catalogs.
pub struct IndexDiff {
    /// The previous catalog was absent: everything counts as added.
    pub all_added: bool,
    pub added: Vec<String>,
    pub removed: Vec<String>,
    pub changed: Vec<String>,
}

proof fn lemma_added_names_snoc(old: Seq<SourceEntryView>, new: Seq<SourceEntryView>, x: SourceEntryView)
    ensures
        added_names(old, new.push(x)) == added_names(old, new) + (if lookup(old, x.name) is None {
            seq![x.name]
        } else {
            Seq::<Seq<char>>::empty()
        }),
    decreases new.len(),
{
    let opt = (if lookup(old, x.name) is None {
        seq![x.name]
    } else {
        Seq::<Seq<char>>::empty()
    });
    if new.len() == 0 {
        assert(new.push(x)[0] == x);
        assert(new.push(x).drop_first() =~= Seq::<SourceEntryView>::empty());
        assert(added_names(old, new.push(x)) == opt + added_names(
            old,
            Seq::<SourceEntryView>::empty(),
        ));
        assert(opt + Seq::<Seq<char>>::empty() =~= opt);
        assert(added_names(old, new) + opt =~= opt);
    } else {
        let head = (if lookup(old, new[0].name) is None {
            seq![new[0].name]
        } else {
            Seq::<Seq<char>>::empty()
        });
        assert(new.push(x)[0] == new[0]);
        assert(new.push(x).drop_first() =~= new.drop_first().push(x));
        lemma_added_names_snoc(old, new.drop_first(), x);
        assert(added_names(old, new.push(x)) == head + (added_names(old, new.drop_first())
            + opt));
        assert(added_names(old, new) == head + added_names(old, new.drop_first()));
        assert(head + (added_names(old, new.drop_first()) + opt) =~= (head + added_names(
            old,
            new.drop_first(),
        )) + opt);
    }
}

proof fn lemma_changed_names_snoc(
    old: Seq<SourceEntryView>,
    new: Seq<SourceEntryView>,
    x: SourceEntryView,
)
    ensures
        changed_names(old, new.push(x)) == changed_names(old, new) + (match lookup(old, x.name) {
            Some(oi) => if oi != x.info {
                seq![x.name]
            } else {
                Seq::<Seq<char>>::empty()
            },
            None => Seq::<Seq<char>>::empty(),
        }),
    decreases new.len(),
{
    let opt = (match lookup(old, x.name) {
        Some(oi) => if oi != x.info {
            seq![x.name]
        } else {
            Seq::<Seq<char>>::empty()
        },
        None => Seq::<Seq<char>>::empty(),
    });
    if new.len() == 0 {
        assert(new.push(x)[0] == x);
        assert(new.push(x).drop_first() =~= Seq::<SourceEntryView>::empty());
        assert(changed_names(old, new.push(x)) == opt + changed_names(
            old,
            Seq::<SourceEntryView>::empty(),
        ));
        assert(opt + Seq::<Seq<char>>::empty() =~= opt);
        assert(changed_names(old, new) + opt =~= opt);
    } else {
        let head = (match lookup(old, new[0].name) {
            Some(oi) => if oi != new[0].info {
                seq![new[0].name]
            } else {
                Seq::<Seq<char>>::empty()
            },
            None => Seq::<Seq<char>>::empty(),
        });
        assert(new.push(x)[0] == new[0]);
        assert(new.push(x).drop_first() =~= new.drop_first().push(x));
        lemma_changed_names_snoc(old, new.drop_first(), x);
        assert(changed_names(old, new.push(x)) == head + (changed_names(old, new.drop_first())
            + opt));
        assert(changed_names(old, new) == head + changed_names(old, new.drop_first()));
        assert(head + (changed_names(old, new.drop_first()) + opt) =~= (head + changed_names(
            old,
            new.drop_first(),
        )) + opt);
    }
}

/// Names of `a` with no counterpart in `b`, in `a`'s order.
fn names_not_in(a: &SourceIndex, b: &SourceIndex) -> (r: Vec<String>)
    ensures
        r@.map_values(|s: String| s@) == added_names(b@, a@),
{
    let mut r: Vec<String> = Vec::new();
    let mut i: usize = 0;
    proof {
        assert(a@.take(0) =~= Seq::<SourceEntryView>::empty());
        assert(r@.map_values(|s: String| s@) =~= added_names(b@, a@.take(0)));
    }
    while i < a.sources.len()
        invariant
            i <= a@.len(),
            a@.len() == a.sources@.len(),
            r@.map_values(|s: String| s@) == added_names(b@, a@.take(i as int)),
        decreases a@.len() - i,
    {
        proof {
            assert(a@.take(i + 1) =~= a@.take(i as int).push(a@[i as int]));
            lemma_added_names_snoc(b@, a@.take(i as int), a@[i as int]);
            assert(a@[i as int] == a.sources@[i as int]@);
        }
        let ghost prev = r@;
        if b.get_source(&a.sources[i].name).is_none() {
            r.push(a.sources[i].name.clone());
            proof {
                assert(r@.map_values(|s: String| s@) =~= prev.map_values(|s: String| s@) + seq![
                    a@[i as int].name,
                ]);
            }
        } else {
            proof {
                assert(prev.map_values(|s: String| s@) + Seq::<Seq<char>>::empty()
                    =~= prev.map_values(|s: String| s@));
            }
        }
        i = i + 1;
    }
    proof {
        assert(a@.take(i as int) =~= a@);
    }
    r
}

/// Names present in both catalogs whose descriptors differ, in `new`'s
/// order.
fn names_changed(old: &SourceIndex, new: &SourceIndex) -> (r: Vec<String>)
    ensures
        r@.map_values(|s: String| s@) == changed_names(old@, new@),
{
    let mut r: Vec<String> = Vec::new();
    let mut i: usize = 0;
    proof {
        assert(new@.take(0) =~= Seq::<SourceEntryView>::empty());
        assert(r@.map_values(|s: String| s@) =~= changed_names(old@, new@.take(0)));
    }
    while i < new.sources.len()
        invariant
            i <= new@.len(),
            new@.len() == new.sources@.len(),
            r@.map_values(|s: String| s@) == changed_names(old@, new@.take(i as int)),
        decreases new@.len() - i,
    {
        proof {
            assert(new@.take(i + 1) =~= new@.take(i as int).push(new@[i as int]));
            lemma_changed_names_snoc(old@, new@.take(i as int), new@[i as int]);
            assert(new@[i as int] == new.sources@[i as int]@);
        }
        let ghost prev = r@;
        match old.get_source(&new.sources[i].name) {
            Some(oi) => {
                if !sources_equal(oi, &new.sources[i].info) {
                    r.push(new.sources[i].name.clone());
                    proof {
                        assert(r@.map_values(|s: String| s@) =~= prev.map_values(|s: String| s@)
                            + seq![new@[i as int].name]);
                    }
                } else {
                    proof {
                        assert(prev.map_values(|s: String| s@) + Seq::<Seq<char>>::empty()
                            =~= prev.map_values(|s: String| s@));
                    }
                }
            },
            None => {
                proof {
                    assert(prev.map_values(|s: String| s@) + Seq::<Seq<char>>::empty()
                        =~= prev.map_values(|s: String| s@));
                }
            },
        }
        i = i + 1;
    }
    proof {
        assert(new@.take(i as int) =~= new@);
    }
    r
}

/// Manages the cached source catalog.
pub struct SourceManager {
    pub cache_dir: String,
}

impl SourceManager {
    /// A manager rooted at the provider's cache directory.
    pub fn new<P: PathProvider>(path_provider: &P) -> (r: Self)
        ensures
            r.cache_dir@ == path_provider.spec_cache_dir(),
    {
        SourceManager { cache_dir: path_provider.cache_dir() }
    }

    /// Where the cached catalog lives: `index.yaml` in the cache
    /// directory.
    pub fn get_index_path(&self) -> (r: String)
        ensures
            r@ == self.cache_dir@ + seq!['/'] + "index.yaml"@,
    {
        join_path(self.cache_dir.as_str(), "index.yaml")
    }

    /// What a refresh reports: with no previous catalog, everything is
    /// added; otherwise the sources added, removed and changed, each in
    /// catalog order.
    pub fn compare_sources(&self, old: Option<&SourceIndex>, new: &SourceIndex) -> (r: IndexDiff)
        ensures
            r.all_added == (old is None),
            old is Some ==> r.added@.map_values(|s: String| s@) == added_names(
                old->0@,
                new@,
            ) && r.removed@.map_values(|s: String| s@) == added_names(new@, old->0@)
                && r.changed@.map_values(|s: String| s@) == changed_names(old->0@, new@),
            old is None ==> r.added@.len() == 0 && r.removed@.len() == 0 && r.changed@.len() == 0,
    {
        match old {
            None => IndexDiff {
                all_added: true,
                added: Vec::new(),
                removed: Vec::new(),
                changed: Vec::new(),
            },
            Some(old_index) => IndexDiff {
                all_added: false,
                added: names_not_in(new, old_index),
                removed: names_not_in(old_index, new),
                changed: names_changed(old_index, new),
            },
        }
    }
}

} // verus!
