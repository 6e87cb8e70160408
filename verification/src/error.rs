//! Errors of the automation layer: element lookup, coordinates, Portal
//! replies and the ADB calls beneath them.
use vstd::prelude::*;

use crate::adb_error::AdbError;
use crate::text::{chars_of, nat_to_dec, push_nat, push_str, string_of};

verus! {

/// Errors of the automation layer. Causes that come from HTTP, JSON decoding
/// or the operating system are carried as their messages.
#[derive(Debug, Clone, PartialEq, Eq)]
pub enum DroidrunError {
    Adb(AdbError),
    Http(String),
    Json(String),
    Io(String),
    NotConnected,
    PortalNotInstalled,
    PortalAccessibilityDisabled,
    PortalSetupFailed(String),
    PortalCommError(String),
    ElementNotFound(usize),
    ElementNoBounds(usize),
    ElementObscured(usize),
    InvalidBounds(String),
    NoDimensions,
    Parse(String),
    NotSupported(String),
    Timeout(String),
}

/// `Result` with a [`DroidrunError`].
pub type Result<T> = core::result::Result<T, DroidrunError>;

impl DroidrunError {
    /// The human-readable message of this error.
    pub open spec fn message(&self) -> Seq<char> {
        match self {
            DroidrunError::Adb(e) => "ADB error: "@ + e.message(),
            DroidrunError::Http(m) => "HTTP error: "@ + m@,
            DroidrunError::Json(m) => "JSON error: "@ + m@,
            DroidrunError::Io(m) => "I/O error: "@ + m@,
            DroidrunError::NotConnected => "Device not connected"@,
            DroidrunError::PortalNotInstalled => "Portal not installed on device"@,
            DroidrunError::PortalAccessibilityDisabled => "Portal accessibility service not enabled"@,
            DroidrunError::PortalSetupFailed(m) => "Portal setup failed: "@ + m@,
            DroidrunError::PortalCommError(m) => "Portal communication error: "@ + m@,
            DroidrunError::ElementNotFound(i) => "Element not found: index "@ + nat_to_dec(*i as nat),
            DroidrunError::ElementNoBounds(i) => "Element "@ + nat_to_dec(*i as nat) + " has no bounds"@,
            DroidrunError::ElementObscured(i) => "Element "@ + nat_to_dec(*i as nat) + " is fully obscured"@,
            DroidrunError::InvalidBounds(m) => "Invalid bounds format: "@ + m@,
            DroidrunError::NoDimensions => "Screen dimensions not available"@,
            DroidrunError::Parse(m) => "Parse error: "@ + m@,
            DroidrunError::NotSupported(m) => "Not supported: "@ + m@,
            DroidrunError::Timeout(m) => "Timeout: "@ + m@,
        }
    }

    /// The human-readable message of this error.
    pub fn to_string(&self) -> (r: String)
        ensures
            r@ == self.message(),
    {
        let mut v: Vec<char>;
        match self {
            DroidrunError::Adb(e) => {
                v = chars_of("ADB error: ");
                let s = e.to_string();
                push_str(&mut v, s.as_str());
            },
            DroidrunError::Http(m) => {
                v = chars_of("HTTP error: ");
                push_str(&mut v, m.as_str());
            },
            DroidrunError::Json(m) => {
                v = chars_of("JSON error: ");
                push_str(&mut v, m.as_str());
            },
            DroidrunError::Io(m) => {
                v = chars_of("I/O error: ");
                push_str(&mut v, m.as_str());
            },
            DroidrunError::NotConnected => {
                v = chars_of("Device not connected");
            },
            DroidrunError::PortalNotInstalled => {
                v = chars_of("Portal not installed on device");
            },
            DroidrunError::PortalAccessibilityDisabled => {
                v = chars_of("Portal accessibility service not enabled");
            },
            DroidrunError::PortalSetupFailed(m) => {
                v = chars_of("Portal setup failed: ");
                push_str(&mut v, m.as_str());
            },
            DroidrunError::PortalCommError(m) => {
                v = chars_of("Portal communication error: ");
                push_str(&mut v, m.as_str());
            },
            DroidrunError::ElementNotFound(i) => {
                v = chars_of("Element not found: index ");
                push_nat(&mut v, *i as u64);
            },
            DroidrunError::ElementNoBounds(i) => {
                v = chars_of("Element ");
                push_nat(&mut v, *i as u64);
                push_str(&mut v, " has no bounds");
            },
            DroidrunError::ElementObscured(i) => {
                v = chars_of("Element ");
                push_nat(&mut v, *i as u64);
                push_str(&mut v, " is fully obscured");
            },
            DroidrunError::InvalidBounds(m) => {
                v = chars_of("Invalid bounds format: ");
                push_str(&mut v, m.as_str());
            },
            DroidrunError::NoDimensions => {
                v = chars_of("Screen dimensions not available");
            },
            DroidrunError::Parse(m) => {
                v = chars_of("Parse error: ");
                push_str(&mut v, m.as_str());
            },
            DroidrunError::NotSupported(m) => {
                v = chars_of("Not supported: ");
                push_str(&mut v, m.as_str());
            },
            DroidrunError::Timeout(m) => {
                v = chars_of("Timeout: ");
                push_str(&mut v, m.as_str());
            },
        }
        string_of(v.as_slice())
    }
}

} // verus!
