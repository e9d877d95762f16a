use suricasta_rules::rules::parse_rules;

fn parse_str(s: &str) -> Vec<suricasta_rules::rules::RuleRecord> {
    parse_rules(&s.as_bytes().to_vec())
}

#[test]
fn parses_full_rule_line() {
    let rules = parse_str(
        "alert tcp any any -> any any (msg:\"test rule\"; sid:2000001; gid:3; rev:4;)\n",
    );
    assert_eq!(rules.len(), 1);
    let r = &rules[0];
    assert!(r.enabled);
    assert_eq!(r.sid, 2000001);
    assert_eq!(r.gid, 3);
    assert_eq!(r.rev, 4);
    assert_eq!(r.msg, "test rule");
    assert_eq!(
        r.raw,
        "alert tcp any any -> any any (msg:\"test rule\"; sid:2000001; gid:3; rev:4;)"
    );
}

#[test]
fn fields_fall_back_to_defaults() {
    let rules = parse_str("drop udp any any -> any any (sid:7;)\n");
    assert_eq!(rules.len(), 1);
    assert_eq!(rules[0].sid, 7);
    assert_eq!(rules[0].gid, 1);
    assert_eq!(rules[0].rev, 1);
    assert_eq!(rules[0].msg, "");
}

#[test]
fn commented_rule_is_disabled_but_parsed() {
    let rules = parse_str("# alert tcp any any -> any any (msg:\"x\"; sid:1000002; rev:1;)\n");
    assert_eq!(rules.len(), 1);
    assert!(!rules[0].enabled);
    assert_eq!(rules[0].sid, 1000002);
    assert_eq!(
        rules[0].raw,
        "# alert tcp any any -> any any (msg:\"x\"; sid:1000002; rev:1;)"
    );
}

#[test]
fn zero_sid_is_rejected() {
    let rules = parse_str("alert tcp any any -> any any (sid:0;)\n");
    assert_eq!(rules.len(), 0);
}

#[test]
fn overflowing_sid_falls_back_and_rejects() {
    let rules = parse_str("alert tcp any any -> any any (sid:4294967296;)\n");
    assert_eq!(rules.len(), 0);
}

#[test]
fn non_rule_lines_are_skipped() {
    let text = "\n# just a comment\nnot a rule at all\nreject tcp any any -> any any (sid:9;)\n";
    let rules = parse_str(text);
    assert_eq!(rules.len(), 1);
    assert_eq!(rules[0].sid, 9);
}

#[test]
fn comment_without_sid_marker_is_skipped() {
    let rules = parse_str("# alert tcp any any -> any any (nothing here)\n");
    assert_eq!(rules.len(), 0);
}

#[test]
fn missing_semicolon_after_sid_fails_grammar() {
    let rules = parse_str("alert tcp any any -> any any (sid:12\n");
    assert_eq!(rules.len(), 0);
}

#[test]
fn action_keyword_is_required() {
    let rules = parse_str("block tcp any any -> any any (sid:12;)\n");
    assert_eq!(rules.len(), 0);
}

#[test]
fn raw_keeps_the_line_verbatim() {
    // Surrounding whitespace is ignored by the grammar but preserved in
    // the record's raw text; the carriage return belongs to the CRLF
    // line ending, not to the line.
    let rules = parse_str("   pass tcp any any -> any any (sid:5;)   \r\n");
    assert_eq!(rules.len(), 1);
    assert!(rules[0].enabled);
    assert_eq!(rules[0].sid, 5);
    assert_eq!(rules[0].raw, "   pass tcp any any -> any any (sid:5;)   ");
}

#[test]
fn sid_allows_spaces_after_marker() {
    let rules = parse_str("alert tcp any any -> any any (sid: 42;)\n");
    assert_eq!(rules.len(), 1);
    assert_eq!(rules[0].sid, 42);
}

#[test]
fn empty_msg_capture_falls_back_to_later_field() {
    // The first msg has an empty capture, so it cannot match; with no
    // other msg field the message defaults to empty.
    let rules = parse_str("alert tcp any any -> any any (msg:\"\"; sid:8;)\n");
    assert_eq!(rules.len(), 1);
    assert_eq!(rules[0].msg, "");
}
