//! The mutation pipeline and the privileged-write gateway decisions:
//! the platform hosts path, the backup path, the plan that a toggle
//! produces, the backup-before-write gate, the direct-versus-elevated
//! routing, and the classification of an elevation helper's outcome.
//!
//! The library only decides here; performing the reads, writes and the
//! helper invocation is the surrounding layer's work, which feeds the
//! outcomes back in as plain values.

use vstd::prelude::*;

use crate::errors::HostsError;
use crate::toggle::any_match;
use crate::toggle::is_target_token;
use crate::toggle::toggle_host_ip_status;
use crate::toggle::toggled_content;
use crate::text::split_lines;

verus! {

/// The platforms with a fixed, OS-protected hosts path.
#[derive(Debug, Clone, Copy, PartialEq, Eq, Structural)]
pub enum Platform {
    Windows,
    MacOs,
    Linux,
}

/// The canonical hosts-file path of a platform.
pub open spec fn hosts_path_spec(platform: Platform) -> Seq<char> {
    match platform {
        Platform::Windows => "C:\\Windows\\System32\\drivers\\etc\\hosts"@,
        Platform::MacOs => "/etc/hosts"@,
        Platform::Linux => "/etc/hosts"@,
    }
}

/// The system path of the hosts file on the given platform.
pub fn get_hosts_path(platform: Platform) -> (r: String)
    ensures
        r@ == hosts_path_spec(platform),
{
    match platform {
        Platform::Windows => String::from_str("C:\\Windows\\System32\\drivers\\etc\\hosts"),
        Platform::MacOs => String::from_str("/etc/hosts"),
        Platform::Linux => String::from_str("/etc/hosts"),
    }
}

/// The sibling path that receives the pre-mutation snapshot.
pub fn backup_path(path: &str) -> (r: String)
    ensures
        r@ == path@ + ".bak"@,
{
    String::from_str(path).concat(".bak")
}

/// The sibling path used as a disposable write-permission probe.
pub fn probe_path(path: &str) -> (r: String)
    ensures
        r@ == path@ + ".test_write"@,
{
    String::from_str(path).concat(".test_write")
}

/// A planned mutation: the snapshot to persist first, and the content
/// that may be written only once the snapshot is safe.
pub struct MutationPlan {
    pub backup_content: String,
    pub new_content: String,
}

/// Plans a toggle of `ip_address` over `content`: the backup holds the
/// content unchanged, the write holds the toggled content.  `NotFound`
/// yields no plan, so neither a backup nor a write can follow.
pub fn plan_toggle(content: &str, ip_address: &str) -> (r: Result<MutationPlan, HostsError>)
    requires
        is_target_token(ip_address@),
    ensures
        match r {
            Ok(p) => any_match(split_lines(content@), ip_address@) && p.backup_content@
                == content@ && p.new_content@ == toggled_content(content@, ip_address@),
            Err(e) => e is NotFound && !any_match(split_lines(content@), ip_address@),
        },
{
    match toggle_host_ip_status(content, ip_address) {
        Ok(new_content) => Ok(
            MutationPlan { backup_content: String::from_str(content), new_content },
        ),
        Err(e) => Err(e),
    }
}

/// What the backup-before-write gate decides for a given backup outcome.
pub open spec fn proceed_spec(new_content: Seq<char>, backup_ok: bool) -> Option<Seq<char>> {
    if backup_ok {
        Some(new_content)
    } else {
        None
    }
}

/// The backup-before-write gate: the primary write content is released
/// only when the snapshot was persisted; a failed backup yields nothing
/// to write.
pub fn proceed_after_backup(plan: MutationPlan, backup_ok: bool) -> (r: Option<String>)
    ensures
        match r {
            Some(c) => proceed_spec(plan.new_content@, backup_ok) == Some(c@),
            None => proceed_spec(plan.new_content@, backup_ok) is None,
        },
{
    if backup_ok {
        Some(plan.new_content)
    } else {
        None
    }
}

/// A failed backup always blocks the primary write: no content is ever
/// released for writing after a backup failure.
pub proof fn lemma_backup_failure_blocks_write(new_content: Seq<char>)
    ensures
        proceed_spec(new_content, false) is None,
{
}

/// How a write is routed: straight to the file, or through the
/// platform's elevation helper.
#[derive(Debug, Clone, Copy, PartialEq, Eq, Structural)]
pub enum WriteRoute {
    Direct,
    Elevated,
}

/// Routes the write by the writability probe: a writable target is
/// written directly, any other goes through the elevation helper.
pub fn choose_write_route(writable: bool) -> (r: WriteRoute)
    ensures
        (r == WriteRoute::Direct) == writable,
{
    if writable {
        WriteRoute::Direct
    } else {
        WriteRoute::Elevated
    }
}

/// Classifies the elevation helper's outcome: success only when the
/// helper was launched and exited successfully; anything else — launch
/// failure, non-zero exit, or the user cancelling the prompt — is an
/// elevation failure carrying the helper's diagnostic text.
pub fn classify_helper_outcome(launched: bool, exit_success: bool, diagnostic: &str) -> (r: Result<
    (),
    HostsError,
>)
    ensures
        r is Ok <==> launched && exit_success,
        match r {
            Ok(_) => true,
            Err(e) => e matches HostsError::ElevationFailure { message } && message@
                == diagnostic@,
        },
{
    if launched && exit_success {
        Ok(())
    } else {
        Err(HostsError::ElevationFailure { message: String::from_str(diagnostic) })
    }
}

} // verus!
