use suricasta_rules::archive::ArchiveEntry;
use suricasta_rules::merge::RuleSet;
use suricasta_rules::rules::RuleRecord;
use suricasta_rules::update::merge_from_source;
use suricasta_rules::update::rules_from_entries;

fn record(gid: u32, sid: u32, rev: u32, enabled: bool, raw: &str) -> RuleRecord {
    RuleRecord {
        raw: raw.to_string(),
        enabled,
        sid,
        gid,
        rev,
        msg: String::new(),
    }
}

fn single_source(records: Vec<RuleRecord>) -> RuleSet {
    let mut rs = RuleSet::new();
    for r in records {
        rs.merge_keep_higher(r);
    }
    rs
}

#[test]
fn higher_revision_wins_regardless_of_order() {
    // Lower revision first.
    let mut all = RuleSet::new();
    merge_from_source(&mut all, single_source(vec![record(1, 10, 2, true, "low")]));
    merge_from_source(&mut all, single_source(vec![record(1, 10, 5, true, "high")]));
    assert_eq!(all.records.len(), 1);
    assert_eq!(all.records[0].rev, 5);
    assert_eq!(all.records[0].raw, "high");

    // Higher revision first.
    let mut all = RuleSet::new();
    merge_from_source(&mut all, single_source(vec![record(1, 10, 5, true, "high")]));
    merge_from_source(&mut all, single_source(vec![record(1, 10, 2, true, "low")]));
    assert_eq!(all.records.len(), 1);
    assert_eq!(all.records[0].rev, 5);
    assert_eq!(all.records[0].raw, "high");
}

#[test]
fn equal_revision_keeps_earliest_source() {
    let mut all = RuleSet::new();
    merge_from_source(&mut all, single_source(vec![record(1, 10, 3, true, "first")]));
    merge_from_source(&mut all, single_source(vec![record(1, 10, 3, true, "second")]));
    assert_eq!(all.records.len(), 1);
    assert_eq!(all.records[0].raw, "first");
}

#[test]
fn two_sources_same_sid_keeps_rev_five() {
    // Two sources each hold the key (1, 1000001), at revisions 2 and 5,
    // processed in that order: revision 5 survives and the output holds
    // exactly one line for the sid.
    let line2 = "alert tcp any any -> any any (msg:\"a\"; sid:1000001; rev:2;)";
    let line5 = "alert tcp any any -> any any (msg:\"b\"; sid:1000001; rev:5;)";
    let src1 = rules_from_entries(&vec![ArchiveEntry {
        name: "one.rules".to_string(),
        content: line2.as_bytes().to_vec(),
    }]);
    let src2 = rules_from_entries(&vec![ArchiveEntry {
        name: "two.rules".to_string(),
        content: line5.as_bytes().to_vec(),
    }]);
    let mut all = RuleSet::new();
    merge_from_source(&mut all, src1);
    merge_from_source(&mut all, src2);
    assert_eq!(all.records.len(), 1);
    assert_eq!(all.records[0].rev, 5);
    let out = all.render_output();
    assert_eq!(out, format!("{}\n", line5));
    assert_eq!(out.matches("1000001").count(), 1);
}

#[test]
fn disabled_record_survives_merge_but_not_output() {
    let line = "# alert tcp any any -> any any (msg:\"x\"; sid:1000002; rev:1;)";
    let src = rules_from_entries(&vec![ArchiveEntry {
        name: "a.rules".to_string(),
        content: line.as_bytes().to_vec(),
    }]);
    let mut all = RuleSet::new();
    merge_from_source(&mut all, src);
    assert_eq!(all.records.len(), 1);
    assert!(!all.records[0].enabled);
    assert_eq!(all.render_output(), "");
}

#[test]
fn output_is_sorted_and_filtered() {
    let mut all = RuleSet::new();
    all.merge_keep_higher(record(2, 1, 1, true, "g2s1"));
    all.merge_keep_higher(record(1, 9, 1, false, "g1s9-off"));
    all.merge_keep_higher(record(1, 2, 1, true, "g1s2"));
    all.merge_keep_higher(record(1, 11, 1, true, "g1s11"));
    let out = all.render_output();
    assert_eq!(out, "g1s2\ng1s11\ng2s1\n");
}

#[test]
fn within_one_source_highest_revision_wins() {
    let content = "alert tcp any any -> any any (sid:4; rev:9; msg:\"first\";)\n\
                   alert tcp any any -> any any (sid:4; rev:1; msg:\"second\";)\n";
    let src = rules_from_entries(&vec![ArchiveEntry {
        name: "a.rules".to_string(),
        content: content.as_bytes().to_vec(),
    }]);
    assert_eq!(src.records.len(), 1);
    // The revision-aware fold applies inside one source too: the later
    // line cannot displace a higher revision for the same key.
    assert_eq!(src.records[0].rev, 9);
    assert_eq!(src.records[0].msg, "first");
}

#[test]
fn non_rules_entries_are_ignored() {
    let src = rules_from_entries(&vec![
        ArchiveEntry {
            name: "readme.txt".to_string(),
            content: b"alert tcp any any -> any any (sid:1;)".to_vec(),
        },
        ArchiveEntry {
            name: "real.rules".to_string(),
            content: b"alert tcp any any -> any any (sid:2;)".to_vec(),
        },
    ]);
    assert_eq!(src.records.len(), 1);
    assert_eq!(src.records[0].sid, 2);
}

#[test]
fn merge_rerun_is_byte_for_byte_identical() {
    let entries = vec![
        ArchiveEntry {
            name: "b.rules".to_string(),
            content: b"alert tcp any any -> any any (sid:3; rev:2;)\n\
                       drop udp any any -> any any (sid:1; rev:1;)\n"
                .to_vec(),
        },
    ];
    let run = || {
        let mut all = RuleSet::new();
        merge_from_source(&mut all, rules_from_entries(&entries));
        all.render_output()
    };
    let first = run();
    let second = run();
    assert_eq!(first, second);
    assert_eq!(
        first,
        "drop udp any any -> any any (sid:1; rev:1;)\nalert tcp any any -> any any (sid:3; rev:2;)\n"
    );
}
