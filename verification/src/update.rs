//! The update pipeline.
//!
//! One update run refreshes the catalog cache, decides which sources to
//! process (the enabled ones, or the single default source as a
//! transient fallback), and, per source, resolves the archive URL,
//! names its cache file, extracts the archive, parses every rule file
//! in it, and folds the records into the cross-source collection.  The
//! pieces that fetch bytes or touch disk live in the embedding
//! application; everything that decides or computes is here, with the
//! fold semantics stated over the map models of [`crate::merge`].

use vstd::prelude::*;

verus! {

use vstd::string::StringExecFns;
use vstd::string::StringSliceAdditionalSpecFns;
use crate::archive::ArchiveEntry;
use crate::archive::has_rules_ext_spec;
use crate::archive::has_rules_extension;
use crate::cache::cache_file_name;
use crate::cache::md5_hex;
use crate::merge::RuleSet;
use crate::merge::find_key;
use crate::merge::key_of;
use crate::merge::lemma_find_key_eq_map;
use crate::merge::lemma_sorted_keys_unique;
use crate::merge::lookup_map;
use crate::merge::map_of_records;
use crate::merge::merge_decision;
use crate::merge::merge_into_map;
use crate::paths::PathProvider;
use crate::paths::join_path;
use crate::rules::RuleRecordView;
use crate::rules::parse_rules;
use crate::rules::parse_text_spec;
use crate::rules::utf8_lossy;
use crate::rulesets::default_source_name;
use crate::text::chars_of;
use crate::text::replace_all;
use crate::text::replace_all_exec;
use crate::text::string_from_chars;

/// The URL template placeholder that the target product version
/// replaces.
pub open spec fn version_placeholder() -> Seq<char> {
    seq!['%', '(', '_', '_', 'v', 'e', 'r', 's', 'i', 'o', 'n', '_', '_', ')', 's']
}

/// Drives one update run's computations.
pub struct UpdateManager {
    pub cache_dir: String,
    pub rules_dir: String,
    pub suricata_version: String,
}

impl UpdateManager {
    /// A manager over the provider's directories, aimed at the default
    /// target product version.
    pub fn new<P: PathProvider>(path_provider: &P) -> (r: Self)
        ensures
            r.cache_dir@ == path_provider.spec_cache_dir(),
            r.rules_dir@ == path_provider.spec_rules_dir(),
            r.suricata_version@ == "7.0.0"@,
    {
        UpdateManager {
            cache_dir: path_provider.cache_dir(),
            rules_dir: path_provider.rules_dir(),
            suricata_version: Self::get_suricata_version(),
        }
    }

    /// The target product version the URL placeholder resolves to.
    pub fn get_suricata_version() -> (r: String)
        ensures
            r@ == "7.0.0"@,
    {
        String::from_str("7.0.0")
    }

    /// The template with every version placeholder replaced by the
    /// target product version.  No other templating is supported.
    pub fn resolve_url(&self, url_template: &str) -> (r: String)
        ensures
            r@ == replace_all(url_template@, version_placeholder(), self.suricata_version@),
    {
        let chars: Vec<char> = chars_of(url_template);
        let mut pat: Vec<char> = Vec::new();
        pat.push('%');
        pat.push('(');
        pat.push('_');
        pat.push('_');
        pat.push('v');
        pat.push('e');
        pat.push('r');
        pat.push('s');
        pat.push('i');
        pat.push('o');
        pat.push('n');
        pat.push('_');
        pat.push('_');
        pat.push(')');
        pat.push('s');
        proof {
            assert(pat@ =~= version_placeholder());
        }
        let to: Vec<char> = chars_of(self.suricata_version.as_str());
        let out: Vec<char> = replace_all_exec(&chars, &pat, &to);
        string_from_chars(&out)
    }

    /// Where a source's archive is cached: the hash-named file in the
    /// cache directory.
    pub fn cache_file_path(&self, url: &str) -> (r: String)
        ensures
            r@ == self.cache_dir@ + seq!['/'] + md5_hex(url.spec_bytes()) + ".tar.gz"@,
    {
        let name: String = cache_file_name(url);
        let r: String = join_path(self.cache_dir.as_str(), name.as_str());
        proof {
            assert(self.cache_dir@ + seq!['/'] + (md5_hex(url.spec_bytes()) + ".tar.gz"@)
                =~= self.cache_dir@ + seq!['/'] + md5_hex(url.spec_bytes()) + ".tar.gz"@);
        }
        r
    }

    /// Where the merged output goes: the fixed file name in the rules
    /// directory.
    pub fn get_output_path(&self) -> (r: String)
        ensures
            r@ == self.rules_dir@ + seq!['/'] + "suricata.rules"@,
    {
        join_path(self.rules_dir.as_str(), "suricata.rules")
    }
}

/// The sources an update processes: the enabled ones as listed, or,
/// when none is enabled, the single default source — used as a
/// transient fallback, never persisted as enabled.
pub fn effective_sources(enabled: Vec<String>) -> (r: Vec<String>)
    ensures
        enabled@.len() > 0 ==> r@ == enabled@,
        enabled@.len() == 0 ==> r@.len() == 1 && r@[0]@ == default_source_name(),
{
    if enabled.len() > 0 {
        enabled
    } else {
        let mut r: Vec<String> = enabled;
        r.push(String::from_str("et/open"));
        proof {
            reveal_strlit("et/open");
            assert("et/open"@ =~= default_source_name());
        }
        r
    }
}

/// The records one extracted entry contributes: every parsed record of
/// a rule file, nothing from any other file.
pub open spec fn entry_records(e: (Seq<char>, Seq<u8>)) -> Seq<RuleRecordView> {
    if has_rules_ext_spec(e.0) {
        parse_text_spec(utf8_lossy(e.1))
    } else {
        Seq::empty()
    }
}

/// All records of a source's extracted entries, in entry order.
pub open spec fn all_entry_records(entries: Seq<(Seq<char>, Seq<u8>)>) -> Seq<RuleRecordView>
    decreases entries.len(),
{
    if entries.len() == 0 {
        Seq::empty()
    } else {
        all_entry_records(entries.drop_last()) + entry_records(entries.last())
    }
}

/// One source's rule collection: each rule-file entry parsed, the
/// records folded by key by the revision-aware policy — the resident
/// record stays unless a later record's revision is strictly greater.
pub fn rules_from_entries(entries: &Vec<ArchiveEntry>) -> (r: RuleSet)
    ensures
        r.wf(),
        forall|k: (u32, u32)|
            find_key(r@, k) == lookup_map(
                merge_into_map(
                    Map::<(u32, u32), RuleRecordView>::empty(),
                    all_entry_records(entries@.map_values(|e: ArchiveEntry| e@)),
                ),
                k,
            ),
{
    let ghost evs = entries@.map_values(|e: ArchiveEntry| e@);
    let ghost m0e = Map::<(u32, u32), RuleRecordView>::empty();
    let mut rs: RuleSet = RuleSet::new();
    let ghost mut acc: Seq<RuleRecordView> = Seq::empty();
    proof {
        assert(evs.take(0) =~= Seq::<(Seq<char>, Seq<u8>)>::empty());
        assert(forall|k: (u32, u32)| find_key(rs@, k) is None);
        assert(forall|k: (u32, u32)| !m0e.contains_key(k));
    }
    let mut i: usize = 0;
    while i < entries.len()
        invariant
            i <= evs.len(),
            evs == entries@.map_values(|e: ArchiveEntry| e@),
            evs.len() == entries@.len(),
            m0e == Map::<(u32, u32), RuleRecordView>::empty(),
            acc == all_entry_records(evs.take(i as int)),
            rs.wf(),
            forall|k: (u32, u32)| find_key(rs@, k) == lookup_map(merge_into_map(m0e, acc), k),
        decreases evs.len() - i,
    {
        proof {
            assert(evs[i as int] == entries@[i as int]@);
            assert(evs.take(i + 1) =~= evs.take(i as int).push(evs[i as int]));
            assert(evs.take(i + 1).drop_last() =~= evs.take(i as int));
        }
        let entry: &ArchiveEntry = &entries[i];
        if has_rules_extension(entry.name.as_str()) {
            let records = parse_rules(&entry.content);
            let ghost recs = records@.map_values(|rec: crate::rules::RuleRecord| rec@);
            proof {
                assert(recs == entry_records(evs[i as int]));
                assert(acc + recs.take(0) =~= acc);
            }
            let mut records = records;
            let ghost mut j: int = 0;
            while records.len() > 0
                invariant
                    0 <= j <= recs.len(),
                    records@.len() == recs.len() - j,
                    forall|l: int| 0 <= l < records@.len() ==> records@[l]@ == recs[j + l],
                    m0e == Map::<(u32, u32), RuleRecordView>::empty(),
                    rs.wf(),
                    forall|k: (u32, u32)|
                        find_key(rs@, k) == lookup_map(merge_into_map(m0e, acc + recs.take(j)), k),
                decreases records@.len(),
            {
                let ghost pre = acc + recs.take(j);
                proof {
                    assert(acc + recs.take(j + 1) =~= pre.push(recs[j]));
                    assert(pre.push(recs[j]).drop_last() =~= pre);
                }
                let rec = records.remove(0);
                proof {
                    assert(rec@ == recs[j]);
                }
                let ghost before = rs@;
                rs.merge_keep_higher(rec);
                proof {
                    let prev = merge_into_map(m0e, pre);
                    assert(merge_into_map(m0e, pre.push(recs[j])) == prev.insert(
                        key_of(recs[j]),
                        merge_decision(lookup_map(prev, key_of(recs[j])), recs[j]),
                    ));
                    assert forall|k: (u32, u32)|
                        find_key(rs@, k) == lookup_map(
                        merge_into_map(m0e, acc + recs.take(j + 1)),
                        k,
                    ) by {
                        if k == key_of(recs[j]) {
                            assert(find_key(before, k) == lookup_map(prev, k));
                        } else {
                            assert(find_key(rs@, k) == find_key(before, k));
                        }
                    }
                    j = j + 1;
                }
            }
            proof {
                assert(recs.take(j) =~= recs);
                acc = acc + recs;
                assert(acc =~= all_entry_records(evs.take(i + 1)));
            }
        } else {
            proof {
                assert(entry_records(evs[i as int]) =~= Seq::<RuleRecordView>::empty());
                assert(all_entry_records(evs.take(i + 1)) =~= acc + Seq::<
                    RuleRecordView,
                >::empty());
                assert(acc + Seq::<RuleRecordView>::empty() =~= acc);
            }
        }
        i = i + 1;
    }
    proof {
        assert(evs.take(i as int) =~= evs);
    }
    rs
}

/// Fold one source's collection into the cross-source collection, in
/// key order of the incoming collection, each record by the
/// revision-aware policy: the resident record stays unless the incoming
/// revision is strictly greater.
pub fn merge_from_source(all: &mut RuleSet, source_rules: RuleSet)
    requires
        old(all).wf(),
        source_rules.wf(),
    ensures
        final(all).wf(),
        forall|k: (u32, u32)|
            find_key(final(all)@, k) == lookup_map(
                merge_into_map(map_of_records(old(all)@), source_rules@),
                k,
            ),
{
    proof {
        lemma_sorted_keys_unique(old(all)@);
        lemma_find_key_eq_map(old(all)@);
    }
    let ghost m0 = map_of_records(old(all)@);
    let ghost src = source_rules@;
    let mut records: Vec<crate::rules::RuleRecord> = source_rules.records;
    let ghost mut j: int = 0;
    proof {
        assert(src.take(0) =~= Seq::<RuleRecordView>::empty());
    }
    while records.len() > 0
        invariant
            0 <= j <= src.len(),
            records@.len() == src.len() - j,
            forall|l: int| 0 <= l < records@.len() ==> records@[l]@ == src[j + l],
            all.wf(),
            forall|k: (u32, u32)|
                find_key(all@, k) == lookup_map(merge_into_map(m0, src.take(j)), k),
        decreases records@.len(),
    {
        proof {
            assert(src.take(j + 1) =~= src.take(j).push(src[j]));
            assert(src.take(j + 1).drop_last() =~= src.take(j));
        }
        let rec = records.remove(0);
        proof {
            assert(rec@ == src[j]);
        }
        let ghost before = all@;
        all.merge_keep_higher(rec);
        proof {
            let prev = merge_into_map(m0, src.take(j));
            assert(merge_into_map(m0, src.take(j + 1)) == prev.insert(
                key_of(src[j]),
                merge_decision(lookup_map(prev, key_of(src[j])), src[j]),
            ));
            assert forall|k: (u32, u32)|
                find_key(all@, k) == lookup_map(merge_into_map(m0, src.take(j + 1)), k) by {
                if k == key_of(src[j]) {
                    assert(find_key(before, k) == lookup_map(prev, k));
                } else {
                    assert(find_key(all@, k) == find_key(before, k));
                }
            }
            j = j + 1;
        }
    }
    proof {
        assert(src.take(j) =~= src);
    }
}

} // verus!
