//! The source enablement store.
//!
//! Whether a source is enabled is decided by which marker is present
//! for it: an enabled marker, a disabled marker (the same record under
//! a disabled name, so disabling never loses data), or none.  This
//! module keeps that store as an explicit value — a sequence of markers
//! keyed by the source's filesystem-safe stem — and gives enable,
//! disable and listing their exact transition semantics.  The embedding
//! application loads the store from the sources directory and mirrors
//! each transition back onto it: enabling renames a disabled marker
//! back or creates a fresh one, disabling renames the enabled marker
//! aside.
//!
//! Enabling has one deliberate side effect: when the store ends up with
//! exactly one enabled source and it is not the distinguished default
//! source, the default source is enabled as well, so a first
//! non-default selection still yields a working baseline rule set.

use vstd::prelude::*;

verus! {

use vstd::string::StringExecFns;
use crate::errors::SyncError;
use crate::paths::PathProvider;
use crate::paths::join_path;
use crate::sources::SourceEntry;
use crate::sources::SourceEntryView;
use crate::sources::SourceIndex;
use crate::sources::SourceInfo;
use crate::sources::string_eq;
use crate::text::chars_le;
use crate::text::lemma_chars_le_total;
use crate::text::str_le;
use crate::text::chars_of;
use crate::text::string_from_chars;

/// One enabled-source record, as persisted in a marker.
pub struct EnabledSource {
    /// The declared source name; authoritative over the filename.
    pub source: String,
    /// Optional URL override.
    pub url: Option<String>,
    /// Optional extra parameters.
    pub params: Option<Vec<(String, String)>>,
    /// Optional extra HTTP header.
    pub http_header: Option<String>,
    /// Optional checksum toggle.
    pub checksum: Option<bool>,
}

/// The mathematical image of an [`EnabledSource`].
pub struct EnabledSourceView {
    pub source: Seq<char>,
    pub url: Option<Seq<char>>,
    pub params: Option<Seq<(Seq<char>, Seq<char>)>>,
    pub http_header: Option<Seq<char>>,
    pub checksum: Option<bool>,
}

impl View for EnabledSource {
    type V = EnabledSourceView;

    open spec fn view(&self) -> EnabledSourceView {
        EnabledSourceView {
            source: self.source@,
            url: crate::sources::opt_str_view(self.url),
            params: match self.params {
                Some(p) => Some(p@.map_values(|kv: (String, String)| (kv.0@, kv.1@))),
                None => None,
            },
            http_header: crate::sources::opt_str_view(self.http_header),
            checksum: self.checksum,
        }
    }
}

/// A record with only the source name set.
pub open spec fn fresh_record(name: Seq<char>) -> EnabledSourceView {
    EnabledSourceView { source: name, url: None, params: None, http_header: None, checksum: None }
}

impl EnabledSource {
    /// A fresh record carrying only the source name.
    pub fn new(source_name: String) -> (r: Self)
        ensures
            r@ == fresh_record(source_name@),
    {
        EnabledSource { source: source_name, url: None, params: None, http_header: None, checksum: None }
    }
}

/// One marker of the store: a stem (the marker's filename without
/// suffixes), whether it is the disabled form, and its record.
pub struct Marker {
    pub stem: String,
    pub disabled: bool,
    pub record: EnabledSource,
}

/// The mathematical image of a [`Marker`].
pub struct MarkerView {
    pub stem: Seq<char>,
    pub disabled: bool,
    pub record: EnabledSourceView,
}

impl View for Marker {
    type V = MarkerView;

    open spec fn view(&self) -> MarkerView {
        MarkerView { stem: self.stem@, disabled: self.disabled, record: self.record@ }
    }
}

/// The distinguished default source.
pub open spec fn default_source_name() -> Seq<char> {
    seq!['e', 't', '/', 'o', 'p', 'e', 'n']
}

/// A name flattened to a filesystem-safe stem: every path separator
/// becomes a dash.
pub open spec fn safe_filename_spec(s: Seq<char>) -> Seq<char> {
    s.map_values(|c: char| if c == '/' { '-' } else { c })
}

/// Index of the first marker with the given stem, or `-1`.
pub open spec fn marker_idx(s: Seq<MarkerView>, stem: Seq<char>) -> int
    decreases s.len(),
{
    if s.len() == 0 {
        -1
    } else if s[0].stem == stem {
        0
    } else if marker_idx(s.drop_first(), stem) < 0 {
        -1
    } else {
        marker_idx(s.drop_first(), stem) + 1
    }
}

pub proof fn lemma_marker_idx(s: Seq<MarkerView>, stem: Seq<char>)
    ensures
        marker_idx(s, stem) == -1 ==> forall|j: int| 0 <= j < s.len() ==> s[j].stem != stem,
        marker_idx(s, stem) != -1 ==> 0 <= marker_idx(s, stem) < s.len() && s[marker_idx(
            s,
            stem,
        )].stem == stem && forall|j: int| 0 <= j < marker_idx(s, stem) ==> s[j].stem != stem,
    decreases s.len(),
{
    if s.len() > 0 && s[0].stem != stem {
        let t = s.drop_first();
        lemma_marker_idx(t, stem);
        assert(forall|j: int| 0 <= j < t.len() ==> t[j] == s[j + 1]);
        if marker_idx(t, stem) >= 0 {
            assert(marker_idx(s, stem) == marker_idx(t, stem) + 1);
            assert(s[marker_idx(s, stem)] == t[marker_idx(t, stem)]);
            assert forall|j: int| 0 <= j < marker_idx(s, stem) implies s[j].stem != stem by {
                if j > 0 {
                    assert(s[j] == t[j - 1]);
                }
            }
        } else {
            assert forall|j: int| 0 <= j < s.len() implies s[j].stem != stem by {
                if j > 0 {
                    assert(s[j] == t[j - 1]);
                }
            }
        }
    }
}

/// Two stores with the same stems in the same order index alike.
pub proof fn lemma_marker_idx_same_stems(s: Seq<MarkerView>, s2: Seq<MarkerView>, stem: Seq<char>)
    requires
        s.len() == s2.len(),
        forall|j: int| 0 <= j < s.len() ==> s[j].stem == s2[j].stem,
    ensures
        marker_idx(s, stem) == marker_idx(s2, stem),
    decreases s.len(),
{
    if s.len() > 0 {
        assert(forall|j: int|
            0 <= j < s.drop_first().len() ==> s.drop_first()[j].stem == s2.drop_first()[j].stem);
        lemma_marker_idx_same_stems(s.drop_first(), s2.drop_first(), stem);
    }
}

/// The first marker with the stem at `i`, none earlier, indexes to `i`.
pub proof fn lemma_marker_idx_first(s: Seq<MarkerView>, stem: Seq<char>, i: int)
    requires
        0 <= i < s.len(),
        s[i].stem == stem,
        forall|j: int| 0 <= j < i ==> s[j].stem != stem,
    ensures
        marker_idx(s, stem) == i,
{
    lemma_marker_idx(s, stem);
    if marker_idx(s, stem) == -1 {
        assert(s[i].stem != stem);
    } else {
        if marker_idx(s, stem) < i {
            assert(s[marker_idx(s, stem)].stem != stem);
        }
        if i < marker_idx(s, stem) {
            assert(s[i].stem != stem);
        }
    }
}

/// The stem has an enabled marker.
pub open spec fn is_enabled_spec(s: Seq<MarkerView>, stem: Seq<char>) -> bool {
    marker_idx(s, stem) >= 0 && !s[marker_idx(s, stem)].disabled
}

/// The declared source names of the enabled markers, in store order.
pub open spec fn enabled_sources_spec(s: Seq<MarkerView>) -> Seq<Seq<char>>
    decreases s.len(),
{
    if s.len() == 0 {
        Seq::empty()
    } else {
        (if !s[0].disabled {
            seq![s[0].record.source]
        } else {
            Seq::empty()
        }) + enabled_sources_spec(s.drop_first())
    }
}

proof fn lemma_enabled_sources_snoc(s: Seq<MarkerView>, x: MarkerView)
    ensures
        enabled_sources_spec(s.push(x)) == enabled_sources_spec(s) + (if !x.disabled {
            seq![x.record.source]
        } else {
            Seq::<Seq<char>>::empty()
        }),
    decreases s.len(),
{
    let opt = (if !x.disabled {
        seq![x.record.source]
    } else {
        Seq::<Seq<char>>::empty()
    });
    if s.len() == 0 {
        assert(s.push(x)[0] == x);
        assert(s.push(x).drop_first() =~= Seq::<MarkerView>::empty());
        assert(enabled_sources_spec(s.push(x)) == opt + enabled_sources_spec(
            Seq::<MarkerView>::empty(),
        ));
        assert(opt + Seq::<Seq<char>>::empty() =~= opt);
        assert(enabled_sources_spec(s) + opt =~= opt);
    } else {
        let head = (if !s[0].disabled {
            seq![s[0].record.source]
        } else {
            Seq::<Seq<char>>::empty()
        });
        assert(s.push(x)[0] == s[0]);
        assert(s.push(x).drop_first() =~= s.drop_first().push(x));
        lemma_enabled_sources_snoc(s.drop_first(), x);
        assert(enabled_sources_spec(s.push(x)) == head + (enabled_sources_spec(s.drop_first())
            + opt));
        assert(enabled_sources_spec(s) == head + enabled_sources_spec(s.drop_first()));
        assert(head + (enabled_sources_spec(s.drop_first()) + opt) =~= (head
            + enabled_sources_spec(s.drop_first())) + opt);
    }
}

/// What enabling `name` does to the store, before the default-source
/// side effect: an enabled marker is left alone, a disabled marker is
/// turned back on keeping its record, and an absent marker is created
/// fresh.
pub open spec fn enable_primary(s: Seq<MarkerView>, stem: Seq<char>, name: Seq<char>) -> (
    Seq<MarkerView>,
    EnableOutcome,
) {
    let i = marker_idx(s, stem);
    if i >= 0 {
        if !s[i].disabled {
            (s, EnableOutcome::AlreadyEnabled)
        } else {
            (
                s.update(i, MarkerView { stem: s[i].stem, disabled: false, record: s[i].record }),
                EnableOutcome::Reenabled,
            )
        }
    } else {
        (
            s.push(MarkerView { stem: stem, disabled: false, record: fresh_record(name) }),
            EnableOutcome::Created,
        )
    }
}

/// The default-source side effect fires when something was just
/// enabled, exactly one source is now enabled, and it is not the
/// default source itself.
pub open spec fn bootstrap_applies(
    s: Seq<MarkerView>,
    outcome: EnableOutcome,
    name: Seq<char>,
) -> bool {
    !(outcome is AlreadyEnabled) && enabled_sources_spec(s).len() == 1 && name
        != default_source_name()
}

/// Enable the default source with a fresh record.
pub open spec fn apply_bootstrap(s: Seq<MarkerView>) -> Seq<MarkerView> {
    let dstem = safe_filename_spec(default_source_name());
    let i = marker_idx(s, dstem);
    if i >= 0 {
        s.update(
            i,
            MarkerView {
                stem: s[i].stem,
                disabled: false,
                record: fresh_record(default_source_name()),
            },
        )
    } else {
        s.push(
            MarkerView {
                stem: dstem,
                disabled: false,
                record: fresh_record(default_source_name()),
            },
        )
    }
}

/// The full enable transition: the primary step, then the
/// default-source side effect when it applies and the default source is
/// not already enabled.  Yields the new store, the outcome for `name`,
/// and whether the default source was enabled alongside.
pub open spec fn enable_spec(s: Seq<MarkerView>, name: Seq<char>) -> (
    Seq<MarkerView>,
    EnableOutcome,
    bool,
) {
    let stem = safe_filename_spec(name);
    let step = enable_primary(s, stem, name);
    if bootstrap_applies(step.0, step.1, name) && !is_enabled_spec(
        step.0,
        safe_filename_spec(default_source_name()),
    ) {
        (apply_bootstrap(step.0), step.1, true)
    } else {
        (step.0, step.1, false)
    }
}

/// What disabling `name` does to the store: an enabled marker becomes
/// its disabled form keeping its record; anything else is left alone.
pub open spec fn disable_spec(s: Seq<MarkerView>, name: Seq<char>) -> (Seq<MarkerView>, bool) {
    let stem = safe_filename_spec(name);
    let i = marker_idx(s, stem);
    if i >= 0 && !s[i].disabled {
        (s.update(i, MarkerView { stem: s[i].stem, disabled: true, record: s[i].record }), true)
    } else {
        (s, false)
    }
}

/// How an enable request was satisfied.
#[derive(Debug, Clone, Copy, PartialEq, Eq, Structural)]
pub enum EnableOutcome {
    /// The source was already enabled; nothing changed.
    AlreadyEnabled,
    /// A disabled marker was turned back on, keeping its record.
    Reenabled,
    /// A fresh marker was created.
    Created,
}

/// What an enable did, for the caller to mirror onto disk.
#[derive(Debug)]
pub struct EnableReport {
    pub outcome: EnableOutcome,
    /// The default source was enabled alongside.
    pub bootstrapped_default: bool,
}

/// How a disable request was satisfied.
#[derive(Debug, Clone, Copy, PartialEq, Eq, Structural)]
pub enum DisableOutcome {
    /// The source was not enabled; nothing changed.
    NotEnabled,
    /// The enabled marker was renamed to its disabled form.
    Disabled,
}

/// The enablement store with the directory it mirrors.
pub struct RulesetManager {
    pub sources_dir: String,
    pub markers: Vec<Marker>,
}

impl RulesetManager {
    /// The markers as mathematical values.
    pub open spec fn markers_view(&self) -> Seq<MarkerView> {
        self.markers@.map_values(|m: Marker| m@)
    }

    /// Each stem appears at most once.
    pub open spec fn wf(&self) -> bool {
        forall|i: int, j: int|
            0 <= i < j < self.markers_view().len() ==> self.markers_view()[i].stem
                != self.markers_view()[j].stem
    }

    /// An empty store rooted at the provider's sources directory.
    pub fn new<P: PathProvider>(path_provider: &P) -> (r: Self)
        ensures
            r.sources_dir@ == path_provider.spec_sources_dir(),
            r.markers_view() == Seq::<MarkerView>::empty(),
            r.wf(),
    {
        let r = RulesetManager { sources_dir: path_provider.sources_dir(), markers: Vec::new() };
        proof {
            assert(r.markers_view() =~= Seq::<MarkerView>::empty());
        }
        r
    }

    /// Flatten a source name to its marker stem, matching
    /// [`safe_filename_spec`].
    pub fn safe_filename(name: &str) -> (r: String)
        ensures
            r@ == safe_filename_spec(name@),
    {
        let chars: Vec<char> = chars_of(name);
        let mut out: Vec<char> = Vec::new();
        let mut i: usize = 0;
        while i < chars.len()
            invariant
                i <= chars@.len(),
                chars@ == name@,
                out@.len() == i,
                forall|j: int|
                    0 <= j < i ==> out@[j] == (if name@[j] == '/' {
                        '-'
                    } else {
                        name@[j]
                    }),
            decreases chars@.len() - i,
        {
            let c: char = chars[i];
            if c == '/' {
                out.push('-');
            } else {
                out.push(c);
            }
            i = i + 1;
        }
        proof {
            assert(out@ =~= safe_filename_spec(name@));
        }
        string_from_chars(&out)
    }

    /// The enabled marker's path for a name: the flattened stem with a
    /// `.yaml` suffix, in the sources directory.
    pub fn get_source_file_path(&self, name: &str) -> (r: String)
        ensures
            r@ == self.sources_dir@ + seq!['/'] + safe_filename_spec(name@) + ".yaml"@,
    {
        let mut filename: String = Self::safe_filename(name);
        filename.append(".yaml");
        join_path(self.sources_dir.as_str(), filename.as_str())
    }

    /// The disabled marker's path for a name: the enabled path with an
    /// extra `.disabled` suffix.
    pub fn get_disabled_file_path(&self, name: &str) -> (r: String)
        ensures
            r@ == self.sources_dir@ + seq!['/'] + safe_filename_spec(name@) + ".yaml.disabled"@,
    {
        let mut filename: String = Self::safe_filename(name);
        filename.append(".yaml.disabled");
        join_path(self.sources_dir.as_str(), filename.as_str())
    }

    /// Record one marker found in the sources directory.  The stem must
    /// be new: a directory lists each filename once.
    pub fn load_marker(&mut self, stem: String, disabled: bool, record: EnabledSource)
        requires
            old(self).wf(),
            marker_idx(old(self).markers_view(), stem@) == -1,
        ensures
            final(self).wf(),
            final(self).sources_dir == old(self).sources_dir,
            final(self).markers_view() == old(self).markers_view().push(
                MarkerView { stem: stem@, disabled: disabled, record: record@ },
            ),
    {
        let ghost olds = self.markers_view();
        let ghost stemv = stem@;
        self.markers.push(Marker { stem, disabled, record });
        proof {
            assert(self.markers_view() =~= olds.push(
                MarkerView { stem: stemv, disabled: disabled, record: record@ },
            ));
            lemma_marker_idx(olds, stemv);
            assert forall|i: int, j: int|
                0 <= i < j < self.markers_view().len() implies self.markers_view()[i].stem
                != self.markers_view()[j].stem by {
                if j < olds.len() {
                    assert(olds[i].stem != olds[j].stem);
                } else {
                    assert(olds[i].stem != stemv);
                }
            }
        }
    }

    /// Whether a marker with this stem exists at all.
    pub fn has_marker(&self, stem: &String) -> (r: bool)
        ensures
            r == (marker_idx(self.markers_view(), stem@) >= 0),
    {
        self.find_marker(stem).is_some()
    }

    /// Find the first marker with the given stem.
    fn find_marker(&self, stem: &String) -> (r: Option<usize>)
        ensures
            r is Some ==> r->0 == marker_idx(self.markers_view(), stem@),
            r is None ==> marker_idx(self.markers_view(), stem@) == -1,
    {
        let ghost s = self.markers_view();
        proof {
            lemma_marker_idx(s, stem@);
        }
        let mut i: usize = 0;
        while i < self.markers.len()
            invariant
                i <= s.len(),
                s == self.markers_view(),
                s.len() == self.markers@.len(),
                forall|j: int| 0 <= j < i ==> s[j].stem != stem@,
            decreases s.len() - i,
        {
            proof {
                assert(s[i as int] == self.markers@[i as int]@);
            }
            if string_eq(&self.markers[i].stem, stem) {
                proof {
                    lemma_marker_idx(s, stem@);
                    assert(marker_idx(s, stem@) == i);
                }
                return Some(i);
            }
            i = i + 1;
        }
        proof {
            lemma_marker_idx(s, stem@);
            if marker_idx(s, stem@) != -1 {
                assert(s[marker_idx(s, stem@)].stem == stem@);
                assert(false);
            }
        }
        None
    }

    /// Whether the source is currently enabled, matching
    /// [`is_enabled_spec`] on the flattened name.
    pub fn is_source_enabled(&self, name: &str) -> (r: bool)
        ensures
            r == is_enabled_spec(self.markers_view(), safe_filename_spec(name@)),
    {
        let stem: String = Self::safe_filename(name);
        match self.find_marker(&stem) {
            Some(i) => {
                proof {
                    lemma_marker_idx(self.markers_view(), stem@);
                    assert(0 <= i < self.markers_view().len());
                    assert(self.markers_view()[i as int] == self.markers@[i as int]@);
                }
                !self.markers[i].disabled
            },
            None => false,
        }
    }

    /// Replace marker `i` by the same marker with `disabled` and its
    /// record as given.
    fn replace_marker_at(&mut self, i: usize, disabled: bool, record: EnabledSource)
        requires
            old(self).wf(),
            i < old(self).markers_view().len(),
        ensures
            final(self).wf(),
            final(self).sources_dir == old(self).sources_dir,
            final(self).markers_view() == old(self).markers_view().update(
                i as int,
                MarkerView {
                    stem: old(self).markers_view()[i as int].stem,
                    disabled: disabled,
                    record: record@,
                },
            ),
    {
        let ghost s0 = self.markers_view();
        let m: Marker = self.markers.remove(i);
        self.markers.insert(i, Marker { stem: m.stem, disabled, record });
        proof {
            let mv = MarkerView { stem: s0[i as int].stem, disabled: disabled, record: record@ };
            assert(self.markers_view() =~= s0.update(i as int, mv));
            let s2 = s0.update(i as int, mv);
            assert forall|a: int, b: int|
                0 <= a < b < s2.len() implies s2[a].stem != s2[b].stem by {
                assert(s2[a].stem == s0[a].stem && s2[b].stem == s0[b].stem);
            }
        }
    }

    /// Turn marker `i` back on, keeping its record.
    fn mark_enabled_at(&mut self, i: usize)
        requires
            old(self).wf(),
            i < old(self).markers_view().len(),
        ensures
            final(self).wf(),
            final(self).sources_dir == old(self).sources_dir,
            final(self).markers_view() == old(self).markers_view().update(
                i as int,
                MarkerView {
                    stem: old(self).markers_view()[i as int].stem,
                    disabled: false,
                    record: old(self).markers_view()[i as int].record,
                },
            ),
    {
        let ghost s0 = self.markers_view();
        let m: Marker = self.markers.remove(i);
        self.markers.insert(i, Marker { stem: m.stem, disabled: false, record: m.record });
        proof {
            let mv = MarkerView {
                stem: s0[i as int].stem,
                disabled: false,
                record: s0[i as int].record,
            };
            assert(self.markers_view() =~= s0.update(i as int, mv));
            let s2 = s0.update(i as int, mv);
            assert forall|a: int, b: int|
                0 <= a < b < s2.len() implies s2[a].stem != s2[b].stem by {
                assert(s2[a].stem == s0[a].stem && s2[b].stem == s0[b].stem);
            }
        }
    }

    /// Append a marker whose stem is not yet present.
    fn push_marker(&mut self, stem: String, disabled: bool, record: EnabledSource)
        requires
            old(self).wf(),
            marker_idx(old(self).markers_view(), stem@) == -1,
        ensures
            final(self).wf(),
            final(self).sources_dir == old(self).sources_dir,
            final(self).markers_view() == old(self).markers_view().push(
                MarkerView { stem: stem@, disabled: disabled, record: record@ },
            ),
    {
        let ghost s0 = self.markers_view();
        let ghost stemv = stem@;
        self.markers.push(Marker { stem, disabled, record });
        proof {
            assert(self.markers_view() =~= s0.push(
                MarkerView { stem: stemv, disabled: disabled, record: record@ },
            ));
            lemma_marker_idx(s0, stemv);
            assert forall|a: int, b: int|
                0 <= a < b < self.markers_view().len() implies self.markers_view()[a].stem
                != self.markers_view()[b].stem by {
                if b < s0.len() {
                    assert(s0[a].stem != s0[b].stem);
                } else {
                    assert(s0[a].stem != stemv);
                }
            }
        }
    }

    /// Enable a source.  Fails with a conflict, touching nothing, when
    /// the descriptor is obsolete; otherwise performs the transition of
    /// [`enable_spec`]: a no-op when already enabled, a rename back
    /// when a disabled marker exists, a fresh marker otherwise —
    /// followed by the default-source side effect when it applies.
    pub fn enable_source(&mut self, name: &str, info: Option<&SourceInfo>) -> (r: Result<
        EnableReport,
        SyncError,
    >)
        requires
            old(self).wf(),
        ensures
            final(self).wf(),
            final(self).sources_dir == old(self).sources_dir,
            (r is Err) <==> (match info {
                Some(si) => si@.obsolete is Some,
                None => false,
            }),
            r is Err ==> r->Err_0 == SyncError::Conflict && final(self).markers_view() == old(
                self,
            ).markers_view(),
            r is Ok ==> final(self).markers_view() == enable_spec(
                old(self).markers_view(),
                name@,
            ).0,
            r is Ok ==> r->Ok_0.outcome == enable_spec(old(self).markers_view(), name@).1,
            r is Ok ==> r->Ok_0.bootstrapped_default == enable_spec(
                old(self).markers_view(),
                name@,
            ).2,
    {
        match info {
            Some(si) => {
                if si.obsolete.is_some() {
                    return Err(SyncError::Conflict);
                }
            },
            None => {},
        }
        let ghost s0 = self.markers_view();
        let stem: String = Self::safe_filename(name);
        let outcome: EnableOutcome;
        match self.find_marker(&stem) {
            Some(i) => {
                proof {
                    lemma_marker_idx(s0, stem@);
                }
                if !self.markers[i].disabled {
                    proof {
                        assert(s0[i as int] == self.markers@[i as int]@);
                    }
                    outcome = EnableOutcome::AlreadyEnabled;
                } else {
                    proof {
                        assert(s0[i as int] == self.markers@[i as int]@);
                    }
                    self.mark_enabled_at(i);
                    outcome = EnableOutcome::Reenabled;
                }
            },
            None => {
                let record: EnabledSource = EnabledSource::new(String::from_str(name));
                self.push_marker(stem, false, record);
                outcome = EnableOutcome::Created;
            },
        }
        proof {
            assert(self.markers_view() == enable_primary(
                s0,
                safe_filename_spec(name@),
                name@,
            ).0);
            assert(outcome == enable_primary(s0, safe_filename_spec(name@), name@).1);
        }
        let ghost s1 = self.markers_view();
        let mut boot: bool = false;
        let already: bool = matches!(outcome, EnableOutcome::AlreadyEnabled);
        if !already {
            let enabled_now: Vec<String> = self.get_enabled_sources();
            let name_string: String = String::from_str(name);
            let default_name: String = String::from_str("et/open");
            proof {
                reveal_strlit("et/open");
                assert("et/open"@ =~= default_source_name());
            }
            if enabled_now.len() == 1 && !string_eq(&name_string, &default_name) {
                let dstem: String = Self::safe_filename("et/open");
                proof {
                    assert(bootstrap_applies(s1, outcome, name@));
                }
                match self.find_marker(&dstem) {
                    Some(di) => {
                        proof {
                            lemma_marker_idx(s1, dstem@);
                            assert(s1[di as int] == self.markers@[di as int]@);
                        }
                        if self.markers[di].disabled {
                            proof {
                                assert(!is_enabled_spec(s1, dstem@));
                            }
                            let fresh: EnabledSource = EnabledSource::new(default_name);
                            self.replace_marker_at(di, false, fresh);
                            boot = true;
                            proof {
                                assert(self.markers_view() == apply_bootstrap(s1));
                            }
                        } else {
                            proof {
                                assert(is_enabled_spec(s1, dstem@));
                            }
                        }
                    },
                    None => {
                        proof {
                            assert(!is_enabled_spec(s1, dstem@));
                        }
                        let fresh: EnabledSource = EnabledSource::new(default_name);
                        self.push_marker(dstem, false, fresh);
                        boot = true;
                        proof {
                            assert(self.markers_view() == apply_bootstrap(s1));
                        }
                    },
                }
            } else {
                proof {
                    assert(!bootstrap_applies(s1, outcome, name@));
                }
            }
        }
        proof {
            if boot {
                assert(self.markers_view() == enable_spec(s0, name@).0);
            } else {
                assert(self.markers_view() == s1);
                assert(enable_spec(s0, name@).0 == s1);
            }
            assert(enable_spec(s0, name@).1 == outcome);
            assert(enable_spec(s0, name@).2 == boot);
        }
        Ok(EnableReport { outcome, bootstrapped_default: boot })
    }

    /// Disable a source: the transition of [`disable_spec`].  A source
    /// that is not enabled is left alone; otherwise its marker becomes
    /// the disabled form, keeping the record, so the operation is
    /// always reversible.
    pub fn disable_source(&mut self, name: &str) -> (r: DisableOutcome)
        requires
            old(self).wf(),
        ensures
            final(self).wf(),
            final(self).sources_dir == old(self).sources_dir,
            final(self).markers_view() == disable_spec(old(self).markers_view(), name@).0,
            (r is Disabled) == disable_spec(old(self).markers_view(), name@).1,
    {
        let ghost s0 = self.markers_view();
        let stem: String = Self::safe_filename(name);
        match self.find_marker(&stem) {
            Some(i) => {
                proof {
                    lemma_marker_idx(s0, stem@);
                    assert(s0[i as int] == self.markers@[i as int]@);
                }
                if self.markers[i].disabled {
                    DisableOutcome::NotEnabled
                } else {
                    let m: Marker = self.markers.remove(i);
                    let record: EnabledSource = m.record;
                    self.markers.insert(
                        i,
                        Marker { stem: m.stem, disabled: true, record },
                    );
                    proof {
                        let mv = MarkerView {
                            stem: s0[i as int].stem,
                            disabled: true,
                            record: s0[i as int].record,
                        };
                        assert(self.markers_view() =~= s0.update(i as int, mv));
                        let s2 = s0.update(i as int, mv);
                        assert forall|a: int, b: int|
                            0 <= a < b < s2.len() implies s2[a].stem != s2[b].stem by {
                            assert(s2[a].stem == s0[a].stem && s2[b].stem == s0[b].stem);
                        }
                    }
                    DisableOutcome::Disabled
                }
            },
            None => DisableOutcome::NotEnabled,
        }
    }

    /// The declared names of all enabled sources, in store order,
    /// matching [`enabled_sources_spec`].
    pub fn get_enabled_sources(&self) -> (r: Vec<String>)
        ensures
            r@.map_values(|s: String| s@) == enabled_sources_spec(self.markers_view()),
    {
        let ghost s = self.markers_view();
        let mut r: Vec<String> = Vec::new();
        let mut i: usize = 0;
        proof {
            assert(s.take(0) =~= Seq::<MarkerView>::empty());
            assert(r@.map_values(|x: String| x@) =~= enabled_sources_spec(s.take(0)));
        }
        while i < self.markers.len()
            invariant
                i <= s.len(),
                s == self.markers_view(),
                s.len() == self.markers@.len(),
                r@.map_values(|x: String| x@) == enabled_sources_spec(s.take(i as int)),
            decreases s.len() - i,
        {
            proof {
                assert(s[i as int] == self.markers@[i as int]@);
                assert(s.take(i + 1) =~= s.take(i as int).push(s[i as int]));
                lemma_enabled_sources_snoc(s.take(i as int), s[i as int]);
            }
            let ghost prev = r@;
            if !self.markers[i].disabled {
                r.push(self.markers[i].record.source.clone());
                proof {
                    assert(r@.map_values(|x: String| x@) =~= prev.map_values(|x: String| x@)
                        + seq![s[i as int].record.source]);
                }
            } else {
                proof {
                    assert(prev.map_values(|x: String| x@) + Seq::<Seq<char>>::empty()
                        =~= prev.map_values(|x: String| x@));
                }
            }
            i = i + 1;
        }
        proof {
            assert(s.take(i as int) =~= s);
        }
        r
    }
}

/// The name/summary pairs of catalog entries open to interactive
/// selection: no required parameters, not obsolete, not deprecated.
pub open spec fn selectable_spec(s: Seq<SourceEntryView>) -> Seq<(Seq<char>, Seq<char>)>
    decreases s.len(),
{
    if s.len() == 0 {
        Seq::empty()
    } else {
        (if s[0].info.parameters is None && s[0].info.obsolete is None
            && s[0].info.deprecated is None {
            seq![(s[0].name, s[0].info.summary)]
        } else {
            Seq::empty()
        }) + selectable_spec(s.drop_first())
    }
}

proof fn lemma_selectable_snoc(s: Seq<SourceEntryView>, x: SourceEntryView)
    ensures
        selectable_spec(s.push(x)) == selectable_spec(s) + (if x.info.parameters is None
            && x.info.obsolete is None && x.info.deprecated is None {
            seq![(x.name, x.info.summary)]
        } else {
            Seq::<(Seq<char>, Seq<char>)>::empty()
        }),
    decreases s.len(),
{
    let opt = (if x.info.parameters is None && x.info.obsolete is None
        && x.info.deprecated is None {
        seq![(x.name, x.info.summary)]
    } else {
        Seq::<(Seq<char>, Seq<char>)>::empty()
    });
    if s.len() == 0 {
        assert(s.push(x)[0] == x);
        assert(s.push(x).drop_first() =~= Seq::<SourceEntryView>::empty());
        assert(selectable_spec(s.push(x)) == opt + selectable_spec(
            Seq::<SourceEntryView>::empty(),
        ));
        assert(opt + Seq::<(Seq<char>, Seq<char>)>::empty() =~= opt);
        assert(selectable_spec(s) + opt =~= opt);
    } else {
        let head = (if s[0].info.parameters is None && s[0].info.obsolete is None
            && s[0].info.deprecated is None {
            seq![(s[0].name, s[0].info.summary)]
        } else {
            Seq::<(Seq<char>, Seq<char>)>::empty()
        });
        assert(s.push(x)[0] == s[0]);
        assert(s.push(x).drop_first() =~= s.drop_first().push(x));
        lemma_selectable_snoc(s.drop_first(), x);
        assert(selectable_spec(s.push(x)) == head + (selectable_spec(s.drop_first()) + opt));
        assert(selectable_spec(s) == head + selectable_spec(s.drop_first()));
        assert(head + (selectable_spec(s.drop_first()) + opt) =~= (head + selectable_spec(
            s.drop_first(),
        )) + opt);
    }
}

/// The views of a vector of name/summary pairs.
pub open spec fn pair_views(v: Seq<(String, String)>) -> Seq<(Seq<char>, Seq<char>)> {
    v.map_values(|p: (String, String)| (p.0@, p.1@))
}

/// The views of a vector of names.
pub open spec fn str_views(v: Seq<String>) -> Seq<Seq<char>> {
    v.map_values(|s: String| s@)
}

/// Pairs ascending by name.
pub open spec fn pairs_sorted(s: Seq<(Seq<char>, Seq<char>)>) -> bool {
    forall|i: int| 0 <= i && i + 1 < s.len() ==> chars_le(#[trigger] s[i].0, s[i + 1].0)
}

/// Names ascending.
pub open spec fn names_sorted(s: Seq<Seq<char>>) -> bool {
    forall|i: int| 0 <= i && i + 1 < s.len() ==> chars_le(#[trigger] s[i], s[i + 1])
}

/// Insert a pair into a name-sorted vector, keeping it sorted.
fn insert_sorted_pair(out: &mut Vec<(String, String)>, item: (String, String))
    requires
        pairs_sorted(pair_views(old(out)@)),
    ensures
        pairs_sorted(pair_views(final(out)@)),
        pair_views(final(out)@).to_multiset() == pair_views(old(out)@).to_multiset().insert(
            (item.0@, item.1@),
        ),
{
    let ghost ov = pair_views(old(out)@);
    let ghost itemv = (item.0@, item.1@);
    let mut p: usize = 0;
    while p < out.len() && str_le(&out[p].0, &item.0)
        invariant
            p <= out@.len(),
            out@ == old(out)@,
            ov == pair_views(out@),
            itemv == (item.0@, item.1@),
            forall|j: int| 0 <= j < p ==> chars_le(ov[j].0, itemv.0),
        decreases out@.len() - p,
    {
        proof {
            assert(ov[p as int] == (out@[p as int].0@, out@[p as int].1@));
        }
        p = p + 1;
    }
    proof {
        if p < out@.len() {
            assert(ov[p as int] == (out@[p as int].0@, out@[p as int].1@));
            lemma_chars_le_total(ov[p as int].0, itemv.0);
        }
    }
    out.insert(p, item);
    proof {
        assert(pair_views(out@) =~= ov.insert(p as int, itemv));
        crate::text::lemma_insert_to_multiset(ov, p as int, itemv);
        let s2 = ov.insert(p as int, itemv);
        assert forall|i: int| 0 <= i && i + 1 < s2.len() implies chars_le(
            #[trigger] s2[i].0,
            s2[i + 1].0,
        ) by {
            if i + 1 < p {
                assert(s2[i] == ov[i] && s2[i + 1] == ov[i + 1]);
            } else if i + 1 == p {
                assert(s2[i] == ov[i] && s2[i + 1] == itemv);
            } else if i == p {
                assert(s2[i] == itemv && s2[i + 1] == ov[i]);
            } else {
                assert(s2[i] == ov[i - 1] && s2[i + 1] == ov[i]);
            }
        }
    }
}

/// Insert a name into a sorted vector, keeping it sorted.
fn insert_sorted_name(out: &mut Vec<String>, item: String)
    requires
        names_sorted(str_views(old(out)@)),
    ensures
        names_sorted(str_views(final(out)@)),
        str_views(final(out)@).to_multiset() == str_views(old(out)@).to_multiset().insert(item@),
{
    let ghost ov = str_views(old(out)@);
    let ghost itemv = item@;
    let mut p: usize = 0;
    while p < out.len() && str_le(&out[p], &item)
        invariant
            p <= out@.len(),
            out@ == old(out)@,
            ov == str_views(out@),
            itemv == item@,
            forall|j: int| 0 <= j < p ==> chars_le(ov[j], itemv),
        decreases out@.len() - p,
    {
        proof {
            assert(ov[p as int] == out@[p as int]@);
        }
        p = p + 1;
    }
    proof {
        if p < out@.len() {
            assert(ov[p as int] == out@[p as int]@);
            lemma_chars_le_total(ov[p as int], itemv);
        }
    }
    out.insert(p, item);
    proof {
        assert(str_views(out@) =~= ov.insert(p as int, itemv));
        crate::text::lemma_insert_to_multiset(ov, p as int, itemv);
        let s2 = ov.insert(p as int, itemv);
        assert forall|i: int|
            0 <= i && i + 1 < s2.len() implies chars_le(#[trigger] s2[i], s2[i + 1]) by {
            if i + 1 < p {
                assert(s2[i] == ov[i] && s2[i + 1] == ov[i + 1]);
            } else if i + 1 == p {
                assert(s2[i] == ov[i] && s2[i + 1] == itemv);
            } else if i == p {
                assert(s2[i] == itemv && s2[i + 1] == ov[i]);
            } else {
                assert(s2[i] == ov[i - 1] && s2[i + 1] == ov[i]);
            }
        }
    }
}

impl RulesetManager {
    /// The candidates offered when choosing a source to enable: every
    /// catalog entry without required parameters that is neither
    /// obsolete nor deprecated, as (name, summary) pairs ascending by
    /// name.  The interactive prompt itself belongs to the embedding
    /// application.
    pub fn select_source_candidates(&self, index: &SourceIndex) -> (r: Vec<(String, String)>)
        ensures
            pairs_sorted(pair_views(r@)),
            pair_views(r@).to_multiset() == selectable_spec(index@).to_multiset(),
    {
        let ghost evs = index@;
        let mut r: Vec<(String, String)> = Vec::new();
        let mut i: usize = 0;
        proof {
            assert(evs.take(0) =~= Seq::<SourceEntryView>::empty());
            assert(pair_views(r@) =~= selectable_spec(evs.take(0)));
        }
        while i < index.sources.len()
            invariant
                i <= evs.len(),
                evs == index@,
                evs.len() == index.sources@.len(),
                pairs_sorted(pair_views(r@)),
                pair_views(r@).to_multiset() == selectable_spec(evs.take(i as int)).to_multiset(),
            decreases evs.len() - i,
        {
            proof {
                assert(evs[i as int] == index.sources@[i as int]@);
                assert(evs.take(i + 1) =~= evs.take(i as int).push(evs[i as int]));
                lemma_selectable_snoc(evs.take(i as int), evs[i as int]);
            }
            let entry: &SourceEntry = &index.sources[i];
            let ok: bool = entry.info.parameters.is_none() && entry.info.obsolete.is_none()
                && entry.info.deprecated.is_none();
            if ok {
                let item: (String, String) = (entry.name.clone(), entry.info.summary.clone());
                proof {
                    broadcast use vstd::seq_lib::group_to_multiset_ensures;

                    assert(selectable_spec(evs.take(i as int)) + seq![
                        (evs[i as int].name, evs[i as int].info.summary),
                    ] =~= selectable_spec(evs.take(i as int)).push(
                        (evs[i as int].name, evs[i as int].info.summary),
                    ));
                    assert(selectable_spec(evs.take(i + 1)).to_multiset() =~= selectable_spec(
                        evs.take(i as int),
                    ).to_multiset().insert((evs[i as int].name, evs[i as int].info.summary)));
                }
                insert_sorted_pair(&mut r, item);
            } else {
                proof {
                    assert(selectable_spec(evs.take(i as int)) + Seq::<
                        (Seq<char>, Seq<char>),
                    >::empty() =~= selectable_spec(evs.take(i as int)));
                }
            }
            i = i + 1;
        }
        proof {
            assert(evs.take(i as int) =~= evs);
        }
        r
    }

    /// The candidates offered when choosing a source to disable: the
    /// currently enabled names, ascending.
    pub fn select_enabled_candidates(&self) -> (r: Vec<String>)
        ensures
            names_sorted(str_views(r@)),
            str_views(r@).to_multiset() == enabled_sources_spec(self.markers_view()).to_multiset(),
    {
        let enabled: Vec<String> = self.get_enabled_sources();
        let ghost es = enabled_sources_spec(self.markers_view());
        let mut r: Vec<String> = Vec::new();
        let mut rest: Vec<String> = enabled;
        let ghost mut j: int = 0;
        proof {
            assert(es.take(0) =~= Seq::<Seq<char>>::empty());
            assert(str_views(r@) =~= es.take(0));
        }
        while rest.len() > 0
            invariant
                0 <= j <= es.len(),
                rest@.len() == es.len() - j,
                forall|l: int| 0 <= l < rest@.len() ==> rest@[l]@ == es[j + l],
                names_sorted(str_views(r@)),
                str_views(r@).to_multiset() == es.take(j).to_multiset(),
            decreases rest@.len(),
        {
            proof {
                broadcast use vstd::seq_lib::group_to_multiset_ensures;

                assert(es.take(j + 1) =~= es.take(j).push(es[j]));
                assert(es.take(j + 1).to_multiset() =~= es.take(j).to_multiset().insert(es[j]));
            }
            let name: String = rest.remove(0);
            proof {
                assert(name@ == es[j]);
            }
            insert_sorted_name(&mut r, name);
            proof {
                j = j + 1;
            }
        }
        proof {
            assert(es.take(j) =~= es);
        }
        r
    }
}

/// A store listing no enabled source has every marker disabled.
proof fn lemma_no_enabled_all_disabled(s: Seq<MarkerView>)
    requires
        enabled_sources_spec(s).len() == 0,
    ensures
        forall|i: int| 0 <= i < s.len() ==> s[i].disabled,
    decreases s.len(),
{
    if s.len() > 0 {
        if !s[0].disabled {
            assert(enabled_sources_spec(s).len() >= 1);
        }
        lemma_no_enabled_all_disabled(s.drop_first());
        assert forall|i: int| 0 <= i < s.len() implies s[i].disabled by {
            if i > 0 {
                assert(s[i] == s.drop_first()[i - 1]);
            }
        }
    }
}

/// How replacing one marker changes the number of enabled sources.
proof fn lemma_enabled_sources_update(s: Seq<MarkerView>, i: int, m: MarkerView)
    requires
        0 <= i < s.len(),
    ensures
        enabled_sources_spec(s.update(i, m)).len() == enabled_sources_spec(s).len() - (
        if s[i].disabled {
            0int
        } else {
            1int
        }) + (
        if m.disabled {
            0int
        } else {
            1int
        }),
    decreases s.len(),
{
    let s2 = s.update(i, m);
    if i == 0 {
        assert(s2[0] == m);
        assert(s2.drop_first() =~= s.drop_first());
    } else {
        assert(s2[0] == s[0]);
        assert(s2.drop_first() =~= s.drop_first().update(i - 1, m));
        lemma_enabled_sources_update(s.drop_first(), i - 1, m);
    }
}

/// Law: enabling a source into a store with nothing enabled leaves
/// exactly one enabled source when that source is the default itself,
/// and two — the source and the silently bootstrapped default — when
/// it is not.  The second part needs the name's flattened marker stem
/// to differ from the default's: a name such as `et-open` shares the
/// default's marker file and gets no separate one.
pub proof fn lemma_first_enable_bootstrap(s: Seq<MarkerView>, name: Seq<char>)
    requires
        forall|i: int, j: int| 0 <= i < j < s.len() ==> s[i].stem != s[j].stem,
        enabled_sources_spec(s).len() == 0,
    ensures
        name == default_source_name() ==> !enable_spec(s, name).2 && enabled_sources_spec(
            enable_spec(s, name).0,
        ).len() == 1,
        name != default_source_name() && safe_filename_spec(name) != safe_filename_spec(
            default_source_name(),
        ) ==> enable_spec(s, name).2 && enabled_sources_spec(enable_spec(s, name).0).len() == 2
            && is_enabled_spec(enable_spec(s, name).0, safe_filename_spec(name))
            && is_enabled_spec(
            enable_spec(s, name).0,
            safe_filename_spec(default_source_name()),
        ),
{
    let stem = safe_filename_spec(name);
    let dstem = safe_filename_spec(default_source_name());
    lemma_no_enabled_all_disabled(s);
    lemma_marker_idx(s, stem);
    let i = marker_idx(s, stem);
    let step = enable_primary(s, stem, name);
    let s1 = step.0;
    let si: int = if i >= 0 {
        i
    } else {
        s.len() as int
    };
    if i >= 0 {
        assert(s[i].disabled);
        assert(s1 == s.update(
            i,
            MarkerView { stem: s[i].stem, disabled: false, record: s[i].record },
        ));
        lemma_enabled_sources_update(
            s,
            i,
            MarkerView { stem: s[i].stem, disabled: false, record: s[i].record },
        );
        assert(enabled_sources_spec(s1).len() == 1);
        lemma_marker_idx_same_stems(s, s1, stem);
        assert(marker_idx(s1, stem) == si && !s1[si].disabled);
    } else {
        let fresh = MarkerView { stem: stem, disabled: false, record: fresh_record(name) };
        assert(s1 == s.push(fresh));
        lemma_enabled_sources_snoc(s, fresh);
        assert(enabled_sources_spec(s) + seq![fresh.record.source] =~= seq![
            fresh.record.source,
        ]);
        assert(enabled_sources_spec(s1).len() == 1);
        lemma_marker_idx_first(s1, stem, si);
        assert(marker_idx(s1, stem) == si && !s1[si].disabled);
    }
    assert(!(step.1 is AlreadyEnabled));
    if name == default_source_name() {
        assert(!bootstrap_applies(s1, step.1, name));
        assert(enable_spec(s, name).0 == s1 && !enable_spec(s, name).2);
    } else if stem != dstem {
        assert(bootstrap_applies(s1, step.1, name));
        lemma_marker_idx(s1, dstem);
        let d = marker_idx(s1, dstem);
        if d >= 0 {
            assert(s1[d].stem == dstem);
            assert(d != si);
            assert(s1[d] == s[d]);
            assert(s1[d].disabled);
            assert(!is_enabled_spec(s1, dstem));
            let dm = MarkerView {
                stem: s1[d].stem,
                disabled: false,
                record: fresh_record(default_source_name()),
            };
            let fin = apply_bootstrap(s1);
            assert(fin == s1.update(d, dm));
            lemma_enabled_sources_update(s1, d, dm);
            assert(enabled_sources_spec(fin).len() == 2);
            lemma_marker_idx_same_stems(s1, fin, stem);
            lemma_marker_idx_same_stems(s1, fin, dstem);
            assert(fin[si] == s1[si]);
            assert(is_enabled_spec(fin, stem));
            assert(is_enabled_spec(fin, dstem));
            assert(enable_spec(s, name).0 == fin && enable_spec(s, name).2);
        } else {
            assert(!is_enabled_spec(s1, dstem));
            let dm = MarkerView {
                stem: dstem,
                disabled: false,
                record: fresh_record(default_source_name()),
            };
            let fin = apply_bootstrap(s1);
            assert(fin == s1.push(dm));
            lemma_enabled_sources_snoc(s1, dm);
            assert(enabled_sources_spec(fin).len() == 2);
            assert(forall|j: int| 0 <= j < si ==> fin[j].stem != stem);
            assert(fin[si] == s1[si]);
            lemma_marker_idx_first(fin, stem, si);
            assert(is_enabled_spec(fin, stem));
            assert(forall|j: int| 0 <= j < s1.len() ==> fin[j].stem != dstem);
            lemma_marker_idx_first(fin, dstem, s1.len() as int);
            assert(is_enabled_spec(fin, dstem));
            assert(enable_spec(s, name).0 == fin && enable_spec(s, name).2);
        }
    }
}

/// Law: for an enabled source, disabling it and enabling it again
/// restores its marker exactly — same position, same record — because
/// re-enabling turns the disabled marker back on instead of creating a
/// fresh one.  The second enable reports a re-enable, never a create.
pub proof fn lemma_enable_disable_enable_round_trip(s: Seq<MarkerView>, name: Seq<char>)
    requires
        forall|i: int, j: int| 0 <= i < j < s.len() ==> s[i].stem != s[j].stem,
        is_enabled_spec(s, safe_filename_spec(name)),
    ensures
        disable_spec(s, name).1,
        enable_spec(disable_spec(s, name).0, name).1 is Reenabled,
        marker_idx(enable_spec(disable_spec(s, name).0, name).0, safe_filename_spec(name))
            == marker_idx(s, safe_filename_spec(name)),
        enable_spec(disable_spec(s, name).0, name).0[marker_idx(s, safe_filename_spec(name))]
            == s[marker_idx(s, safe_filename_spec(name))],
{
    let stem = safe_filename_spec(name);
    let i = marker_idx(s, stem);
    lemma_marker_idx(s, stem);
    let s1 = disable_spec(s, name).0;
    assert(s1 == s.update(i, MarkerView { stem: s[i].stem, disabled: true, record: s[i].record }));
    lemma_marker_idx_same_stems(s, s1, stem);
    assert(marker_idx(s1, stem) == i);
    let step = enable_primary(s1, stem, name);
    assert(s1[i].disabled);
    let s2 = step.0;
    assert(s2 == s1.update(
        i,
        MarkerView { stem: s1[i].stem, disabled: false, record: s1[i].record },
    ));
    assert(s2 =~= s);
    assert(step.1 is Reenabled);
    let dstem = safe_filename_spec(default_source_name());
    if bootstrap_applies(s2, step.1, name) && !is_enabled_spec(s2, dstem) {
        let fin = apply_bootstrap(s2);
        assert(dstem != stem) by {
            if dstem == stem {
                assert(is_enabled_spec(s2, dstem));
            }
        }
        let d = marker_idx(s2, dstem);
        lemma_marker_idx(s2, dstem);
        if d >= 0 {
            assert(d != i);
            assert(fin[i] == s[i]);
            lemma_marker_idx_same_stems(s2, fin, stem);
        } else {
            assert(fin == s2.push(
                MarkerView {
                    stem: dstem,
                    disabled: false,
                    record: fresh_record(default_source_name()),
                },
            ));
            assert(fin[i] == s[i]);
            assert(forall|j: int| 0 <= j < i ==> fin[j].stem != stem);
            lemma_marker_idx_first(fin, stem, i);
        }
    }
}

} // verus!
