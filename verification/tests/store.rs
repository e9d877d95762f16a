use suricasta_rules::errors::SyncError;
use suricasta_rules::paths::UnixSystemPaths;
use suricasta_rules::rulesets::DisableOutcome;
use suricasta_rules::rulesets::EnableOutcome;
use suricasta_rules::rulesets::EnabledSource;
use suricasta_rules::rulesets::RulesetManager;
use suricasta_rules::sources::SourceEntry;
use suricasta_rules::sources::SourceIndex;
use suricasta_rules::sources::SourceInfo;

fn info(vendor: &str, summary: &str, url: &str) -> SourceInfo {
    SourceInfo {
        vendor: vendor.to_string(),
        summary: summary.to_string(),
        url: url.to_string(),
        description: None,
        license: None,
        homepage: None,
        min_version: None,
        checksum: None,
        parameters: None,
        replaces: None,
        deprecated: None,
        obsolete: None,
    }
}

#[test]
fn enabling_default_source_does_not_bootstrap() {
    // Catalog: only et/open.  Enabling it as the first source creates
    // one marker; the default bootstrap does not fire because it is the
    // default.
    let et_open = info("proofpoint/et", "ET Open", "https://example/et-open.tar.gz");
    let mut mgr = RulesetManager::new(&UnixSystemPaths);
    let report = mgr.enable_source("et/open", Some(&et_open)).unwrap();
    assert!(matches!(report.outcome, EnableOutcome::Created));
    assert!(!report.bootstrapped_default);
    assert_eq!(mgr.markers.len(), 1);
    assert_eq!(mgr.get_enabled_sources(), vec!["et/open".to_string()]);
}

#[test]
fn enabling_first_non_default_source_bootstraps_default() {
    let other = info("oisf/suricata", "Traffic ID", "https://example/tid.tar.gz");
    let mut mgr = RulesetManager::new(&UnixSystemPaths);
    let report = mgr.enable_source("oisf/trafficid", Some(&other)).unwrap();
    assert!(matches!(report.outcome, EnableOutcome::Created));
    assert!(report.bootstrapped_default);
    assert_eq!(mgr.markers.len(), 2);
    assert!(mgr.is_source_enabled("oisf/trafficid"));
    assert!(mgr.is_source_enabled("et/open"));
}

#[test]
fn colliding_stem_gets_no_second_marker() {
    // "et-open" is not the default source name, but it flattens to the
    // default's marker stem, so after enabling it the store already
    // sees the default as enabled and the bootstrap does not fire.
    let mut mgr = RulesetManager::new(&UnixSystemPaths);
    let report = mgr.enable_source("et-open", None).unwrap();
    assert!(matches!(report.outcome, EnableOutcome::Created));
    assert!(!report.bootstrapped_default);
    assert_eq!(mgr.markers.len(), 1);
    assert!(mgr.is_source_enabled("et/open"));
}

#[test]
fn enabling_obsolete_source_fails_and_changes_nothing() {
    let mut obsolete = info("x/y", "gone", "https://example/x.tar.gz");
    obsolete.obsolete = Some("no longer maintained".to_string());
    let mut mgr = RulesetManager::new(&UnixSystemPaths);
    let r = mgr.enable_source("x/y", Some(&obsolete));
    assert_eq!(r.unwrap_err(), SyncError::Conflict);
    assert_eq!(mgr.markers.len(), 0);
    assert!(!mgr.is_source_enabled("x/y"));
}

#[test]
fn enable_disable_enable_preserves_marker_record() {
    let mut mgr = RulesetManager::new(&UnixSystemPaths);
    mgr.load_marker(
        "x-src".to_string(),
        false,
        EnabledSource {
            source: "x/src".to_string(),
            url: Some("https://example/custom.tar.gz".to_string()),
            params: None,
            http_header: Some("Auth: token".to_string()),
            checksum: Some(true),
        },
    );
    assert!(mgr.is_source_enabled("x/src"));

    let d = mgr.disable_source("x/src");
    assert!(matches!(d, DisableOutcome::Disabled));
    assert!(!mgr.is_source_enabled("x/src"));

    let report = mgr.enable_source("x/src", None).unwrap();
    assert!(matches!(report.outcome, EnableOutcome::Reenabled));
    assert!(mgr.is_source_enabled("x/src"));

    let marker = &mgr.markers[0];
    assert_eq!(marker.stem, "x-src");
    assert!(!marker.disabled);
    assert_eq!(marker.record.source, "x/src");
    assert_eq!(
        marker.record.url,
        Some("https://example/custom.tar.gz".to_string())
    );
    assert_eq!(marker.record.http_header, Some("Auth: token".to_string()));
    assert_eq!(marker.record.checksum, Some(true));
}

#[test]
fn enabling_twice_is_a_no_op() {
    let mut mgr = RulesetManager::new(&UnixSystemPaths);
    mgr.enable_source("et/open", None).unwrap();
    let report = mgr.enable_source("et/open", None).unwrap();
    assert!(matches!(report.outcome, EnableOutcome::AlreadyEnabled));
    assert_eq!(mgr.markers.len(), 1);
}

#[test]
fn disabling_unknown_source_is_a_no_op() {
    let mut mgr = RulesetManager::new(&UnixSystemPaths);
    let d = mgr.disable_source("never/was");
    assert!(matches!(d, DisableOutcome::NotEnabled));
    assert_eq!(mgr.markers.len(), 0);
}

#[test]
fn marker_paths_carry_suffixes() {
    let mgr = RulesetManager::new(&UnixSystemPaths);
    assert_eq!(
        mgr.get_source_file_path("et/open"),
        "/var/lib/suricata/update/sources/et-open.yaml"
    );
    assert_eq!(
        mgr.get_disabled_file_path("et/open"),
        "/var/lib/suricata/update/sources/et-open.yaml.disabled"
    );
}

#[test]
fn selection_candidates_are_filtered_and_sorted() {
    let mut deprecated = info("v/d", "old", "https://example/d.tar.gz");
    deprecated.deprecated = Some("use something else".to_string());
    let mut with_params = info("v/p", "needs key", "https://example/p.tar.gz");
    with_params.parameters = Some(vec![("secret".to_string(), "".to_string())]);
    let mut obsolete = info("v/o", "gone", "https://example/o.tar.gz");
    obsolete.obsolete = Some("gone".to_string());
    let index = SourceIndex {
        version: 1,
        sources: vec![
            SourceEntry { name: "zeta/z".to_string(), info: info("v/z", "Zeta", "https://z") },
            SourceEntry { name: "dead/d".to_string(), info: deprecated },
            SourceEntry { name: "alpha/a".to_string(), info: info("v/a", "Alpha", "https://a") },
            SourceEntry { name: "paid/p".to_string(), info: with_params },
            SourceEntry { name: "old/o".to_string(), info: obsolete },
        ],
    };
    let mgr = RulesetManager::new(&UnixSystemPaths);
    let candidates = mgr.select_source_candidates(&index);
    assert_eq!(
        candidates,
        vec![
            ("alpha/a".to_string(), "Alpha".to_string()),
            ("zeta/z".to_string(), "Zeta".to_string()),
        ]
    );
}

#[test]
fn enabled_candidates_are_sorted() {
    let mut mgr = RulesetManager::new(&UnixSystemPaths);
    mgr.load_marker("b-src".to_string(), false, EnabledSource::new("b/src".to_string()));
    mgr.load_marker("a-src".to_string(), false, EnabledSource::new("a/src".to_string()));
    mgr.load_marker("c-src".to_string(), true, EnabledSource::new("c/src".to_string()));
    assert_eq!(
        mgr.select_enabled_candidates(),
        vec!["a/src".to_string(), "b/src".to_string()]
    );
}
