use suricasta_rules::paths::PathProvider;
use suricasta_rules::paths::UnixSystemPaths;
use suricasta_rules::rulesets::RulesetManager;
use suricasta_rules::user_agent::UserAgent;

#[test]
fn test_system_paths() {
    let paths = UnixSystemPaths;
    assert_eq!(paths.sources_dir(), "/var/lib/suricata/update/sources");
    assert_eq!(paths.cache_dir(), "/var/lib/suricata/update/cache");
    assert_eq!(paths.rules_dir(), "/var/lib/suricata/rules");
}

#[test]
fn test_safe_filename() {
    assert_eq!(RulesetManager::safe_filename("et/open"), "et-open");
    assert_eq!(RulesetManager::safe_filename("simple"), "simple");
    assert_eq!(RulesetManager::safe_filename("a/b/c"), "a-b-c");
}

#[test]
fn test_user_agent_format() {
    let ua = UserAgent::new(
        "0.1.0".to_string(),
        "Linux".to_string(),
        "x86_64".to_string(),
        "Ubuntu/22.04".to_string(),
    );
    let ua_string = ua.to_string();
    assert!(ua_string.starts_with("Suricasta-Rules/"));
    assert!(ua_string.contains("OS:"));
    assert!(ua_string.contains("CPU:"));
    assert!(ua_string.contains("Dist:"));
}

#[test]
fn test_extract_os_release_field() {
    let content = "NAME=\"Ubuntu\"\nVERSION_ID=\"20.04\"\nID=ubuntu";

    assert_eq!(
        UserAgent::extract_os_release_field(content, "NAME"),
        Some("Ubuntu".to_string())
    );
    assert_eq!(
        UserAgent::extract_os_release_field(content, "VERSION_ID"),
        Some("20.04".to_string())
    );
    assert_eq!(
        UserAgent::extract_os_release_field(content, "ID"),
        Some("ubuntu".to_string())
    );
    assert_eq!(
        UserAgent::extract_os_release_field(content, "NONEXISTENT"),
        None
    );
}
