use std::io::Write;

use suricasta_rules::archive::extract_archive;
use suricasta_rules::archive::has_rules_extension;
use suricasta_rules::archive::ArchiveKind;
use suricasta_rules::archive::archive_kind;
use suricasta_rules::cache::cache_file_name;
use suricasta_rules::cache::use_cached;
use suricasta_rules::errors::status_is_success;
use suricasta_rules::errors::SyncError;
use suricasta_rules::paths::UnixSystemPaths;
use suricasta_rules::sources::SourceEntry;
use suricasta_rules::sources::SourceIndex;
use suricasta_rules::sources::SourceInfo;
use suricasta_rules::sources::SourceManager;
use suricasta_rules::update::effective_sources;
use suricasta_rules::update::UpdateManager;
use suricasta_rules::user_agent::windows_version_from_caption;
use suricasta_rules::user_agent::windows_version_from_ver;

#[test]
fn cache_is_fresh_below_the_window_and_stale_above() {
    // A cached file 800 seconds old is used; one 1000 seconds old is
    // not; a forced refresh never uses the cache.
    assert!(use_cached(false, Some(800)));
    assert!(!use_cached(false, Some(1000)));
    assert!(!use_cached(true, Some(10)));
    assert!(!use_cached(false, None));
    assert!(use_cached(false, Some(899)));
    assert!(!use_cached(false, Some(900)));
}

#[test]
fn http_status_classification() {
    assert!(status_is_success(200));
    assert!(status_is_success(204));
    assert!(status_is_success(299));
    assert!(!status_is_success(199));
    assert!(!status_is_success(301));
    assert!(!status_is_success(404));
    assert!(!status_is_success(500));
}

#[test]
fn url_template_resolution() {
    let mgr = UpdateManager::new(&UnixSystemPaths);
    assert_eq!(
        mgr.resolve_url("https://rules.example/suricata-%(__version__)s/etopen.tar.gz"),
        "https://rules.example/suricata-7.0.0/etopen.tar.gz"
    );
    assert_eq!(
        mgr.resolve_url("https://x/%(__version__)s/%(__version__)s.tar.gz"),
        "https://x/7.0.0/7.0.0.tar.gz"
    );
    assert_eq!(mgr.resolve_url("https://plain.example/a.tar.gz"), "https://plain.example/a.tar.gz");
    assert_eq!(UpdateManager::get_suricata_version(), "7.0.0");
}

#[test]
fn cache_names_derive_from_the_url_hash() {
    // md5("abc") in hex.
    assert_eq!(cache_file_name("abc"), "900150983cd24fb0d6963f7d28e17f72.tar.gz");
    let mgr = UpdateManager::new(&UnixSystemPaths);
    assert_eq!(
        mgr.cache_file_path("abc"),
        "/var/lib/suricata/update/cache/900150983cd24fb0d6963f7d28e17f72.tar.gz"
    );
    assert_eq!(
        mgr.get_output_path(),
        "/var/lib/suricata/rules/suricata.rules"
    );
}

#[test]
fn fallback_source_when_nothing_enabled() {
    assert_eq!(effective_sources(vec![]), vec!["et/open".to_string()]);
    assert_eq!(
        effective_sources(vec!["a/b".to_string()]),
        vec!["a/b".to_string()]
    );
}

#[test]
fn archive_kind_dispatch() {
    assert_eq!(archive_kind("x.tar.gz"), Some(ArchiveKind::TarGz));
    assert_eq!(archive_kind("x.zip"), Some(ArchiveKind::Zip));
    assert_eq!(archive_kind("x.tar"), None);
    assert_eq!(archive_kind("x.rar"), None);
}

#[test]
fn rules_extension_detection() {
    assert!(has_rules_extension("emerging.rules"));
    assert!(has_rules_extension("dir/sub/emerging.RULES"));
    assert!(!has_rules_extension(".rules"));
    assert!(!has_rules_extension("rules"));
    assert!(!has_rules_extension("emerging.rules.txt"));
    assert!(!has_rules_extension("dir.rules/file"));
}

#[test]
fn tar_gz_archives_extract_to_their_entries() {
    let data = b"alert tcp any any -> any any (sid:77;)\n";
    let mut builder = tar::Builder::new(Vec::new());
    let mut header = tar::Header::new_gnu();
    header.set_size(data.len() as u64);
    header.set_cksum();
    builder.append_data(&mut header, "suricata/test.rules", &data[..]).unwrap();
    let tar_bytes = builder.into_inner().unwrap();
    let mut gz = flate2::write::GzEncoder::new(Vec::new(), flate2::Compression::default());
    gz.write_all(&tar_bytes).unwrap();
    let bytes = gz.finish().unwrap();

    let entries = extract_archive("payload.tar.gz", &bytes).unwrap();
    assert_eq!(entries.len(), 1);
    assert_eq!(entries[0].name, "suricata/test.rules");
    assert_eq!(entries[0].content, data.to_vec());
}

#[test]
fn zip_archives_extract_to_their_entries() {
    let data = b"drop udp any any -> any any (sid:88;)\n";
    let mut zw = zip::ZipWriter::new(std::io::Cursor::new(Vec::new()));
    zw.start_file("inner.rules", zip::write::SimpleFileOptions::default()).unwrap();
    zw.write_all(data).unwrap();
    let bytes = zw.finish().unwrap().into_inner();

    let entries = extract_archive("payload.zip", &bytes).unwrap();
    assert_eq!(entries.len(), 1);
    assert_eq!(entries[0].name, "inner.rules");
    assert_eq!(entries[0].content, data.to_vec());
}

#[test]
fn unknown_archive_format_is_unsupported() {
    assert_eq!(
        extract_archive("payload.rar", &vec![1, 2, 3]).unwrap_err(),
        SyncError::UnsupportedFormat
    );
}

#[test]
fn unreadable_containers_are_corrupt() {
    assert_eq!(
        extract_archive("payload.tar.gz", &b"this is not gzip".to_vec()).unwrap_err(),
        SyncError::CorruptArchive
    );
    assert_eq!(
        extract_archive("payload.zip", &b"this is not a zip".to_vec()).unwrap_err(),
        SyncError::CorruptArchive
    );
}

fn info(summary: &str, url: &str) -> SourceInfo {
    SourceInfo {
        vendor: "v".to_string(),
        summary: summary.to_string(),
        url: url.to_string(),
        description: None,
        license: None,
        homepage: None,
        min_version: None,
        checksum: None,
        parameters: None,
        replaces: None,
        deprecated: None,
        obsolete: None,
    }
}

#[test]
fn catalog_diff_reports_added_removed_changed() {
    let old = SourceIndex {
        version: 1,
        sources: vec![
            SourceEntry { name: "a".to_string(), info: info("A", "https://a") },
            SourceEntry { name: "b".to_string(), info: info("B", "https://b") },
        ],
    };
    let new = SourceIndex {
        version: 1,
        sources: vec![
            SourceEntry { name: "b".to_string(), info: info("B", "https://b-moved") },
            SourceEntry { name: "c".to_string(), info: info("C", "https://c") },
        ],
    };
    let mgr = SourceManager::new(&UnixSystemPaths);
    let diff = mgr.compare_sources(Some(&old), &new);
    assert!(!diff.all_added);
    assert_eq!(diff.added, vec!["c".to_string()]);
    assert_eq!(diff.removed, vec!["a".to_string()]);
    assert_eq!(diff.changed, vec!["b".to_string()]);

    let fresh = mgr.compare_sources(None, &new);
    assert!(fresh.all_added);
    assert!(fresh.added.is_empty() && fresh.removed.is_empty() && fresh.changed.is_empty());

    assert_eq!(
        mgr.get_index_path(),
        "/var/lib/suricata/update/cache/index.yaml"
    );
}

#[test]
fn unchanged_catalogs_diff_to_nothing() {
    let idx = SourceIndex {
        version: 1,
        sources: vec![SourceEntry { name: "a".to_string(), info: info("A", "https://a") }],
    };
    let idx2 = SourceIndex {
        version: 1,
        sources: vec![SourceEntry { name: "a".to_string(), info: info("A", "https://a") }],
    };
    let mgr = SourceManager::new(&UnixSystemPaths);
    let diff = mgr.compare_sources(Some(&idx), &idx2);
    assert!(diff.added.is_empty() && diff.removed.is_empty() && diff.changed.is_empty());
}

#[test]
fn windows_version_mapping_from_ver_output() {
    assert_eq!(
        windows_version_from_ver("Microsoft Windows [Version 10.0.22631.4602]"),
        Some("11".to_string())
    );
    assert_eq!(
        windows_version_from_ver("Microsoft Windows [Version 6.1.7601]"),
        Some("7".to_string())
    );
    assert_eq!(
        windows_version_from_ver("Microsoft Windows [Version 6.3.9600]"),
        Some("8.1".to_string())
    );
    assert_eq!(
        windows_version_from_ver("Microsoft Windows [Version 5.1.2600]"),
        Some("5.1.2600".to_string())
    );
    assert_eq!(windows_version_from_ver("no version here"), None);
}

#[test]
fn windows_version_mapping_from_caption() {
    assert_eq!(
        windows_version_from_caption("Microsoft Windows 11 Pro\n"),
        Some("11".to_string())
    );
    assert_eq!(
        windows_version_from_caption("Microsoft Windows Server 2022 Datacenter"),
        Some("Server 2022".to_string())
    );
    assert_eq!(
        windows_version_from_caption("Microsoft Windows Server 2012"),
        Some("Server".to_string())
    );
    assert_eq!(windows_version_from_caption("Some Other OS"), None);
}

#[test]
fn user_agent_renders_exactly() {
    let ua = suricasta_rules::user_agent::UserAgent::new(
        "1.2.3".to_string(),
        "Linux".to_string(),
        "aarch64".to_string(),
        "Debian/12".to_string(),
    );
    assert_eq!(
        ua.to_string(),
        "Suricasta-Rules/1.2.3 (OS: Linux; CPU: aarch64; Dist: Debian/12)"
    );
}
