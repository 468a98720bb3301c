use hosts_editor::errors::HostsError;
use hosts_editor::toggle::toggle_host_ip_status;

#[test]
fn comments_out_an_active_line() {
    let out = toggle_host_ip_status("1.2.3.4 site\n", "1.2.3.4").unwrap();
    assert_eq!(out, "# 1.2.3.4 site\n");
}

#[test]
fn uncomments_a_commented_line() {
    let out = toggle_host_ip_status("# 1.2.3.4 site\n", "1.2.3.4").unwrap();
    assert_eq!(out, "1.2.3.4 site\n");
}

#[test]
fn keeps_leading_blanks_and_drops_marker_blanks() {
    let out = toggle_host_ip_status("  #  1.2.3.4 site\n", "1.2.3.4").unwrap();
    assert_eq!(out, "  1.2.3.4 site\n");
}

#[test]
fn other_lines_pass_through_unchanged() {
    let content = "127.0.0.1 localhost\n1.2.3.4 site\n# a note\n";
    let out = toggle_host_ip_status(content, "1.2.3.4").unwrap();
    assert_eq!(out, "127.0.0.1 localhost\n# 1.2.3.4 site\n# a note\n");
}

#[test]
fn double_toggle_restores_content() {
    let content = "127.0.0.1 localhost\n1.2.3.4 site\n";
    let once = toggle_host_ip_status(content, "1.2.3.4").unwrap();
    let twice = toggle_host_ip_status(&once, "1.2.3.4").unwrap();
    assert_eq!(twice, content);
}

#[test]
fn double_toggle_restores_commented_content() {
    let content = "# 1.2.3.4 site\n9.9.9.9 other\n";
    let once = toggle_host_ip_status(content, "1.2.3.4").unwrap();
    let twice = toggle_host_ip_status(&once, "1.2.3.4").unwrap();
    assert_eq!(twice, content);
}

#[test]
fn all_matching_lines_toggle_in_one_call() {
    let content = "1.2.3.4 one\nother line\n# 1.2.3.4 two\n";
    let out = toggle_host_ip_status(content, "1.2.3.4").unwrap();
    assert_eq!(out, "# 1.2.3.4 one\nother line\n1.2.3.4 two\n");
}

#[test]
fn missing_address_is_not_found() {
    let r = toggle_host_ip_status("1.2.3.4 site\n", "9.9.9.9");
    assert!(matches!(r, Err(HostsError::NotFound)));
}

#[test]
fn match_is_exact_not_substring() {
    let r = toggle_host_ip_status("11.2.3.40 site\n", "1.2.3.4");
    assert!(matches!(r, Err(HostsError::NotFound)));
    let content = "1.2.3.4 a\n1.2.3.40 b\n";
    let out = toggle_host_ip_status(content, "1.2.3.4").unwrap();
    assert_eq!(out, "# 1.2.3.4 a\n1.2.3.40 b\n");
}

#[test]
fn address_alone_on_a_line_does_not_match() {
    let r = toggle_host_ip_status("1.2.3.4\n", "1.2.3.4");
    assert!(matches!(r, Err(HostsError::NotFound)));
}

#[test]
fn toggle_normalizes_line_endings() {
    let out = toggle_host_ip_status("1.2.3.4 a\r\nother\r\n", "1.2.3.4").unwrap();
    assert_eq!(out, "# 1.2.3.4 a\nother\n");
}

#[test]
fn toggle_terminates_last_line() {
    let out = toggle_host_ip_status("1.2.3.4 a", "1.2.3.4").unwrap();
    assert_eq!(out, "# 1.2.3.4 a\n");
}

#[test]
fn ipv6_address_toggles() {
    let out = toggle_host_ip_status("::1 localhost\n", "::1").unwrap();
    assert_eq!(out, "# ::1 localhost\n");
}

#[test]
fn tab_separated_line_toggles() {
    let out = toggle_host_ip_status("1.2.3.4\tsite\n", "1.2.3.4").unwrap();
    assert_eq!(out, "# 1.2.3.4\tsite\n");
}
