use hosts_editor::parser::parse_hosts_content;
use hosts_editor::parser::get_ip_status;
use hosts_editor::errors::HostsError;

#[test]
fn round_trip_basic_line() {
    let entries = parse_hosts_content("1.2.3.4 a b\n");
    assert_eq!(entries.len(), 1);
    assert_eq!(entries[0].ip, "1.2.3.4");
    assert_eq!(entries[0].hostnames, vec!["a".to_string(), "b".to_string()]);
    assert_eq!(entries[0].line, "1.2.3.4 a b");
    assert!(entries[0].enabled);
}

#[test]
fn commented_line_is_disabled() {
    let entries = parse_hosts_content("# 1.2.3.4 a\n");
    assert_eq!(entries.len(), 1);
    assert_eq!(entries[0].ip, "1.2.3.4");
    assert_eq!(entries[0].hostnames, vec!["a".to_string()]);
    assert_eq!(entries[0].line, "# 1.2.3.4 a");
    assert!(!entries[0].enabled);
}

#[test]
fn doubly_commented_line_is_disabled() {
    let entries = parse_hosts_content("## 1.2.3.4 a\n");
    assert_eq!(entries.len(), 1);
    assert_eq!(entries[0].ip, "1.2.3.4");
    assert!(!entries[0].enabled);
}

#[test]
fn marker_without_blank_is_disabled() {
    let entries = parse_hosts_content("#1.2.3.4 a\n");
    assert_eq!(entries.len(), 1);
    assert_eq!(entries[0].ip, "1.2.3.4");
    assert!(!entries[0].enabled);
}

#[test]
fn address_without_hostnames_is_skipped() {
    assert_eq!(parse_hosts_content("1.2.3.4\n").len(), 0);
    assert_eq!(parse_hosts_content("1.2.3.4   \n").len(), 0);
}

#[test]
fn invalid_address_is_skipped() {
    assert_eq!(parse_hosts_content("notanip a b\n").len(), 0);
}

#[test]
fn blank_and_pure_comment_lines_are_skipped() {
    let content = "\n   \n# just a note\n##\n#\n";
    assert_eq!(parse_hosts_content(content).len(), 0);
}

#[test]
fn inline_comment_is_stripped_on_active_line() {
    let entries = parse_hosts_content("1.2.3.4 host # comment here\n");
    assert_eq!(entries.len(), 1);
    assert_eq!(entries[0].hostnames, vec!["host".to_string()]);
    assert_eq!(entries[0].line, "1.2.3.4 host # comment here");
}

#[test]
fn order_and_duplicates_are_kept() {
    let content = "1.1.1.1 one\n2.2.2.2 two\n1.1.1.1 again\n";
    let entries = parse_hosts_content(content);
    assert_eq!(entries.len(), 3);
    assert_eq!(entries[0].ip, "1.1.1.1");
    assert_eq!(entries[1].ip, "2.2.2.2");
    assert_eq!(entries[2].ip, "1.1.1.1");
    assert_eq!(entries[2].hostnames, vec!["again".to_string()]);
}

#[test]
fn ipv6_entries_parse() {
    let entries = parse_hosts_content("::1 localhost\nfe80::1 router\n");
    assert_eq!(entries.len(), 2);
    assert_eq!(entries[0].ip, "::1");
    assert_eq!(entries[1].ip, "fe80::1");
}

#[test]
fn last_line_without_newline_parses() {
    let entries = parse_hosts_content("1.2.3.4 a");
    assert_eq!(entries.len(), 1);
    assert_eq!(entries[0].line, "1.2.3.4 a");
}

#[test]
fn crlf_lines_parse() {
    let entries = parse_hosts_content("1.2.3.4 a\r\n# 5.6.7.8 b\r\n");
    assert_eq!(entries.len(), 2);
    assert_eq!(entries[0].line, "1.2.3.4 a");
    assert!(entries[0].enabled);
    assert!(!entries[1].enabled);
}

#[test]
fn status_of_enabled_entry() {
    let r = get_ip_status("1.2.3.4 a\n# 5.6.7.8 b\n", "1.2.3.4");
    assert_eq!(r.unwrap(), true);
}

#[test]
fn status_of_disabled_entry() {
    let r = get_ip_status("1.2.3.4 a\n# 5.6.7.8 b\n", "5.6.7.8");
    assert_eq!(r.unwrap(), false);
}

#[test]
fn status_of_missing_entry_is_not_found() {
    let r = get_ip_status("1.2.3.4 a\n", "9.9.9.9");
    assert!(matches!(r, Err(HostsError::NotFound)));
}

#[test]
fn status_takes_first_matching_entry() {
    let r = get_ip_status("# 1.2.3.4 a\n1.2.3.4 b\n", "1.2.3.4");
    assert_eq!(r.unwrap(), false);
}

#[test]
fn tab_separated_line_parses() {
    let entries = parse_hosts_content("1.2.3.4\thost\n");
    assert_eq!(entries.len(), 1);
    assert_eq!(entries[0].ip, "1.2.3.4");
    assert_eq!(entries[0].hostnames, vec!["host".to_string()]);
}

#[test]
fn leading_blanks_keep_line_active() {
    let entries = parse_hosts_content("   1.2.3.4 host\n");
    assert_eq!(entries.len(), 1);
    assert!(entries[0].enabled);
    assert_eq!(entries[0].line, "   1.2.3.4 host");
}
