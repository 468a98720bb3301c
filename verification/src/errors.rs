//! The error taxonomy of the library, and the message-carrying error that
//! the surrounding shell layer receives.

use vstd::prelude::*;

verus! {

/// A classified failure of a hosts-file operation.
///
/// `NotFound` is the target address being absent from the content;
/// `IoFailure` an ordinary read or write error with no privilege
/// dimension; `PermissionFailure` a probe that found no write access
/// before any elevation attempt; `ElevationFailure` an elevation helper
/// that was invoked but failed or was cancelled, with its diagnostic text.
#[derive(Debug, Clone)]
pub enum HostsError {
    NotFound,
    IoFailure { message: String },
    PermissionFailure,
    ElevationFailure { message: String },
}

/// The message-carrying error handed to the shell layer.
#[derive(Debug, Clone)]
pub struct CommandError {
    pub message: String,
}

impl CommandError {
    /// The message reported when an address is absent from the file.
    pub fn not_found(address: &str) -> (r: CommandError)
        ensures
            r.message@ == "IP address "@ + address@ + " not found in hosts file"@,
    {
        let m = String::from_str("IP address ").concat(address).concat(
            " not found in hosts file",
        );
        CommandError { message: m }
    }

    /// Renders a classified error as one message for the shell layer.
    pub fn of_hosts_error(e: &HostsError, address: &str) -> (r: CommandError)
        ensures
            match e {
                HostsError::NotFound => r.message@ == "IP address "@ + address@
                    + " not found in hosts file"@,
                HostsError::IoFailure { message } => r.message@ == "Failed to access hosts file: "@
                    + message@,
                HostsError::PermissionFailure => r.message@
                    == "No permission to write hosts file"@,
                HostsError::ElevationFailure { message } => r.message@
                    == "Failed to execute privileged operation: "@ + message@,
            },
    {
        match e {
            HostsError::NotFound => CommandError::not_found(address),
            HostsError::IoFailure { message } => CommandError {
                message: String::from_str("Failed to access hosts file: ").concat(
                    message.as_str(),
                ),
            },
            HostsError::PermissionFailure => CommandError {
                message: String::from_str("No permission to write hosts file"),
            },
            HostsError::ElevationFailure { message } => CommandError {
                message: String::from_str("Failed to execute privileged operation: ").concat(
                    message.as_str(),
                ),
            },
        }
    }
}

} // verus!
