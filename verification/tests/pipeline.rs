use hosts_editor::errors::CommandError;
use hosts_editor::errors::HostsError;
use hosts_editor::pipeline::backup_path;
use hosts_editor::pipeline::choose_write_route;
use hosts_editor::pipeline::classify_helper_outcome;
use hosts_editor::pipeline::get_hosts_path;
use hosts_editor::pipeline::plan_toggle;
use hosts_editor::pipeline::probe_path;
use hosts_editor::pipeline::proceed_after_backup;
use hosts_editor::pipeline::Platform;
use hosts_editor::pipeline::WriteRoute;

#[test]
fn hosts_path_per_platform() {
    assert_eq!(
        get_hosts_path(Platform::Windows),
        "C:\\Windows\\System32\\drivers\\etc\\hosts"
    );
    assert_eq!(get_hosts_path(Platform::MacOs), "/etc/hosts");
    assert_eq!(get_hosts_path(Platform::Linux), "/etc/hosts");
}

#[test]
fn sibling_paths() {
    assert_eq!(backup_path("/etc/hosts"), "/etc/hosts.bak");
    assert_eq!(probe_path("/etc/hosts"), "/etc/hosts.test_write");
}

#[test]
fn plan_holds_snapshot_and_new_content() {
    let content = "1.2.3.4 site\nother\n";
    let plan = plan_toggle(content, "1.2.3.4").unwrap();
    assert_eq!(plan.backup_content, content);
    assert_eq!(plan.new_content, "# 1.2.3.4 site\nother\n");
}

#[test]
fn no_plan_when_address_missing() {
    let r = plan_toggle("1.2.3.4 site\n", "9.9.9.9");
    assert!(matches!(r, Err(HostsError::NotFound)));
}

#[test]
fn backup_failure_blocks_primary_write() {
    let plan = plan_toggle("1.2.3.4 site\n", "1.2.3.4").unwrap();
    assert!(proceed_after_backup(plan, false).is_none());
}

#[test]
fn backup_success_releases_primary_write() {
    let plan = plan_toggle("1.2.3.4 site\n", "1.2.3.4").unwrap();
    let released = proceed_after_backup(plan, true).unwrap();
    assert_eq!(released, "# 1.2.3.4 site\n");
}

#[test]
fn write_route_follows_probe() {
    assert_eq!(choose_write_route(true), WriteRoute::Direct);
    assert_eq!(choose_write_route(false), WriteRoute::Elevated);
}

#[test]
fn helper_success_classifies_ok() {
    assert!(classify_helper_outcome(true, true, "").is_ok());
}

#[test]
fn helper_failure_classifies_as_elevation_failure() {
    let r = classify_helper_outcome(true, false, "user cancelled");
    match r {
        Err(HostsError::ElevationFailure { message }) => assert_eq!(message, "user cancelled"),
        _ => panic!("expected an elevation failure"),
    }
    let r = classify_helper_outcome(false, false, "no such helper");
    assert!(matches!(r, Err(HostsError::ElevationFailure { .. })));
}

#[test]
fn not_found_message_matches() {
    let e = CommandError::not_found("9.9.9.9");
    assert_eq!(e.message, "IP address 9.9.9.9 not found in hosts file");
}

#[test]
fn error_messages_render_per_variant() {
    let e = CommandError::of_hosts_error(&HostsError::NotFound, "1.2.3.4");
    assert_eq!(e.message, "IP address 1.2.3.4 not found in hosts file");
    let e = CommandError::of_hosts_error(
        &HostsError::IoFailure { message: "denied".to_string() },
        "1.2.3.4",
    );
    assert_eq!(e.message, "Failed to access hosts file: denied");
    let e = CommandError::of_hosts_error(&HostsError::PermissionFailure, "1.2.3.4");
    assert_eq!(e.message, "No permission to write hosts file");
    let e = CommandError::of_hosts_error(
        &HostsError::ElevationFailure { message: "cancelled".to_string() },
        "1.2.3.4",
    );
    assert_eq!(e.message, "Failed to execute privileged operation: cancelled");
}
