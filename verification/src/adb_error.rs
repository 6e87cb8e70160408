//! Errors from ADB operations.
use vstd::prelude::*;

use crate::text::{chars_of, push_str, string_of};

verus! {

/// Errors from ADB operations. Causes that come from the operating system or
/// from byte decoding are carried as their messages.
#[derive(Debug, Clone, PartialEq, Eq)]
pub enum AdbError {
    Io(String),
    ServerFailed(String),
    Protocol(String),
    NoDevice,
    DeviceNotOnline(String),
    DeviceNotFound(String),
    ShellError(String),
    InstallFailed(String),
    UninstallFailed(String),
    SyncError(String),
    Utf8(String),
    Parse(String),
    ConnectionRefused,
    Timeout(String),
}

/// `Result` with an [`AdbError`].
pub type Result<T> = core::result::Result<T, AdbError>;

impl AdbError {
    /// The human-readable message of this error.
    pub open spec fn message(&self) -> Seq<char> {
        match self {
            AdbError::Io(m) => "ADB I/O error: "@ + m@,
            AdbError::ServerFailed(m) => "ADB server returned FAIL: "@ + m@,
            AdbError::Protocol(m) => "ADB protocol error: "@ + m@,
            AdbError::NoDevice => "No device connected"@,
            AdbError::DeviceNotOnline(m) => "Device not online (state: "@ + m@ + ")"@,
            AdbError::DeviceNotFound(m) => "Device not found: "@ + m@,
            AdbError::ShellError(m) => "Shell command failed: "@ + m@,
            AdbError::InstallFailed(m) => "Install failed: "@ + m@,
            AdbError::UninstallFailed(m) => "Uninstall failed: "@ + m@,
            AdbError::SyncError(m) => "Sync protocol error: "@ + m@,
            AdbError::Utf8(m) => "UTF-8 decode error: "@ + m@,
            AdbError::Parse(m) => "Parse error: "@ + m@,
            AdbError::ConnectionRefused => "Connection refused - is ADB server running? (adb start-server)"@,
            AdbError::Timeout(m) => "Timeout: "@ + m@,
        }
    }

    /// The human-readable message of this error.
    pub fn to_string(&self) -> (r: String)
        ensures
            r@ == self.message(),
    {
        let mut v: Vec<char>;
        match self {
            AdbError::Io(m) => {
                v = chars_of("ADB I/O error: ");
                push_str(&mut v, m.as_str());
            },
            AdbError::ServerFailed(m) => {
                v = chars_of("ADB server returned FAIL: ");
                push_str(&mut v, m.as_str());
            },
            AdbError::Protocol(m) => {
                v = chars_of("ADB protocol error: ");
                push_str(&mut v, m.as_str());
            },
            AdbError::NoDevice => {
                v = chars_of("No device connected");
            },
            AdbError::DeviceNotOnline(m) => {
                v = chars_of("Device not online (state: ");
                push_str(&mut v, m.as_str());
                push_str(&mut v, ")");
            },
            AdbError::DeviceNotFound(m) => {
                v = chars_of("Device not found: ");
                push_str(&mut v, m.as_str());
            },
            AdbError::ShellError(m) => {
                v = chars_of("Shell command failed: ");
                push_str(&mut v, m.as_str());
            },
            AdbError::InstallFailed(m) => {
                v = chars_of("Install failed: ");
                push_str(&mut v, m.as_str());
            },
            AdbError::UninstallFailed(m) => {
                v = chars_of("Uninstall failed: ");
                push_str(&mut v, m.as_str());
            },
            AdbError::SyncError(m) => {
                v = chars_of("Sync protocol error: ");
                push_str(&mut v, m.as_str());
            },
            AdbError::Utf8(m) => {
                v = chars_of("UTF-8 decode error: ");
                push_str(&mut v, m.as_str());
            },
            AdbError::Parse(m) => {
                v = chars_of("Parse error: ");
                push_str(&mut v, m.as_str());
            },
            AdbError::ConnectionRefused => {
                v = chars_of("Connection refused - is ADB server running? (adb start-server)");
            },
            AdbError::Timeout(m) => {
                v = chars_of("Timeout: ");
                push_str(&mut v, m.as_str());
            },
        }
        string_of(v.as_slice())
    }
}

} // verus!
