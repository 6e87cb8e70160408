//! Data models for ADB operations.
use vstd::prelude::*;

use crate::text::{
    chars_eq, chars_of, copy_range, nat_to_dec, parse_u16, parse_unsigned, push_nat, push_str,
    starts_with, starts_with_chars, string_of, trim, trim_chars,
};

verus! {

/// Device state as reported by ADB.
#[derive(Debug, Clone, PartialEq, Eq)]
pub enum DeviceState {
    Device,
    Offline,
    Unauthorized,
    Authorizing,
    Connecting,
    Recovery,
    Bootloader,
    Unknown(String),
}

/// The name under which ADB reports each known state.
pub open spec fn state_name(s: DeviceState) -> Seq<char> {
    match s {
        DeviceState::Device => "device"@,
        DeviceState::Offline => "offline"@,
        DeviceState::Unauthorized => "unauthorized"@,
        DeviceState::Authorizing => "authorizing"@,
        DeviceState::Connecting => "connecting"@,
        DeviceState::Recovery => "recovery"@,
        DeviceState::Bootloader => "bootloader"@,
        DeviceState::Unknown(x) => x@,
    }
}

/// `t` is the ADB name of one of the known states.
pub open spec fn is_known_state_name(t: Seq<char>) -> bool {
    t == "device"@ || t == "offline"@ || t == "unauthorized"@ || t == "authorizing"@ || t
        == "connecting"@ || t == "recovery"@ || t == "bootloader"@
}

/// The state that `s` (after trimming) names: a known state, or `Unknown` holding the trimmed text.
pub open spec fn parses_state(s: Seq<char>, r: DeviceState) -> bool {
    let t = trim(s);
    &&& state_name(r) == t
    &&& (r is Unknown <==> !is_known_state_name(t))
}

/// Parsing the name of a state gives the state back (for an `Unknown` state:
/// when its text is trimmed and names no known state).
pub proof fn lemma_state_name_roundtrip(s: DeviceState, r: DeviceState)
    requires
        parses_state(state_name(s), r),
        s is Unknown ==> trim(state_name(s)) == state_name(s) && !is_known_state_name(
            state_name(s),
        ),
    ensures
        state_name(r) == state_name(s),
        (r is Unknown) == (s is Unknown),
        !(s is Unknown) ==> r == s,
{
    reveal_strlit("device");
    reveal_strlit("offline");
    reveal_strlit("unauthorized");
    reveal_strlit("authorizing");
    reveal_strlit("connecting");
    reveal_strlit("recovery");
    reveal_strlit("bootloader");
    let n = state_name(s);
    if !(s is Unknown) {
        assert(n.len() > 0);
        crate::text::lemma_trim_plain(n);
        assert(is_known_state_name(n));
        assert(!(r is Unknown));
        assert(state_name(r) == n);
        assert(state_name(r)[0] == n[0]);
        assert("device"@[0] == 'd' && "offline"@[0] == 'o' && "unauthorized"@[0] == 'u');
        assert("authorizing"@[0] == 'a' && "connecting"@[0] == 'c' && "recovery"@[0] == 'r');
        assert("bootloader"@[0] == 'b');
    }
}

impl DeviceState {
    pub open spec fn spec_is_online(&self) -> bool {
        *self is Device
    }

    /// Whether the device is usable (`device` state).
    pub fn is_online(&self) -> (b: bool)
        ensures
            b == self.spec_is_online(),
    {
        match self {
            DeviceState::Device => true,
            _ => false,
        }
    }

    /// Parses the state name ADB reports (surrounding whitespace is ignored).
    pub fn from(s: &str) -> (r: DeviceState)
        ensures
            parses_state(s@, r),
    {
        let c = chars_of(s);
        let t = trim_chars(c.as_slice());
        let t = t.as_slice();
        proof {
            reveal_strlit("device");
            reveal_strlit("offline");
            reveal_strlit("unauthorized");
            reveal_strlit("authorizing");
            reveal_strlit("connecting");
            reveal_strlit("recovery");
            reveal_strlit("bootloader");
        }
        if chars_eq(t, chars_of("device").as_slice()) {
            DeviceState::Device
        } else if chars_eq(t, chars_of("offline").as_slice()) {
            DeviceState::Offline
        } else if chars_eq(t, chars_of("unauthorized").as_slice()) {
            DeviceState::Unauthorized
        } else if chars_eq(t, chars_of("authorizing").as_slice()) {
            DeviceState::Authorizing
        } else if chars_eq(t, chars_of("connecting").as_slice()) {
            DeviceState::Connecting
        } else if chars_eq(t, chars_of("recovery").as_slice()) {
            DeviceState::Recovery
        } else if chars_eq(t, chars_of("bootloader").as_slice()) {
            DeviceState::Bootloader
        } else {
            DeviceState::Unknown(string_of(t))
        }
    }

    /// A copy of this state.
    pub fn duplicate(&self) -> (r: DeviceState)
        ensures
            r == *self,
    {
        match self {
            DeviceState::Device => DeviceState::Device,
            DeviceState::Offline => DeviceState::Offline,
            DeviceState::Unauthorized => DeviceState::Unauthorized,
            DeviceState::Authorizing => DeviceState::Authorizing,
            DeviceState::Connecting => DeviceState::Connecting,
            DeviceState::Recovery => DeviceState::Recovery,
            DeviceState::Bootloader => DeviceState::Bootloader,
            DeviceState::Unknown(x) => DeviceState::Unknown(x.clone()),
        }
    }

    /// The ADB name of this state.
    pub fn to_string(&self) -> (r: String)
        ensures
            r@ == state_name(*self),
    {
        match self {
            DeviceState::Device => string_of(chars_of("device").as_slice()),
            DeviceState::Offline => string_of(chars_of("offline").as_slice()),
            DeviceState::Unauthorized => string_of(chars_of("unauthorized").as_slice()),
            DeviceState::Authorizing => string_of(chars_of("authorizing").as_slice()),
            DeviceState::Connecting => string_of(chars_of("connecting").as_slice()),
            DeviceState::Recovery => string_of(chars_of("recovery").as_slice()),
            DeviceState::Bootloader => string_of(chars_of("bootloader").as_slice()),
            DeviceState::Unknown(x) => x.clone(),
        }
    }
}

/// Basic device info from `host:devices`.
#[derive(Debug, Clone)]
pub struct DeviceInfo {
    pub serial: String,
    pub state: DeviceState,
}

/// The port of a `tcp:PORT` socket specification.
pub open spec fn tcp_port(s: Seq<char>) -> Option<int> {
    if starts_with(s, "tcp:"@) {
        parse_unsigned(s.skip("tcp:"@.len() as int), u16::MAX as int)
    } else {
        None
    }
}

/// The port of a `tcp:PORT` socket specification.
pub fn tcp_port_of(s: &str) -> (r: Option<u16>)
    ensures
        r matches Some(p) ==> tcp_port(s@) == Some(p as int),
        r is None ==> tcp_port(s@) is None,
{
    let c = chars_of(s);
    let pre = chars_of("tcp:");
    if starts_with_chars(c.as_slice(), pre.as_slice()) {
        let rest = copy_range(c.as_slice(), pre.len(), c.len());
        assert(rest@ == s@.skip("tcp:"@.len() as int));
        parse_u16(rest.as_slice())
    } else {
        None
    }
}

/// A port forward entry.
#[derive(Debug, Clone)]
pub struct ForwardEntry {
    pub serial: String,
    pub local: String,
    pub remote: String,
}

impl ForwardEntry {
    /// The local port, when the local side is `tcp:PORT`.
    pub fn local_port(&self) -> (r: Option<u16>)
        ensures
            r matches Some(p) ==> tcp_port(self.local@) == Some(p as int),
            r is None ==> tcp_port(self.local@) is None,
    {
        tcp_port_of(self.local.as_str())
    }

    /// The remote port, when the remote side is `tcp:PORT`.
    pub fn remote_port(&self) -> (r: Option<u16>)
        ensures
            r matches Some(p) ==> tcp_port(self.remote@) == Some(p as int),
            r is None ==> tcp_port(self.remote@) is None,
    {
        tcp_port_of(self.remote.as_str())
    }
}

/// Shell command result with exit code.
#[derive(Debug, Clone)]
pub struct ShellOutput {
    pub stdout: String,
    pub exit_code: i32,
}

/// A reverse port forward entry (device-to-host).
#[derive(Debug, Clone)]
pub struct ReverseEntry {
    pub remote: String,
    pub local: String,
}

impl ReverseEntry {
    /// The remote (device-side) port, when it is `tcp:PORT`.
    pub fn remote_port(&self) -> (r: Option<u16>)
        ensures
            r matches Some(p) ==> tcp_port(self.remote@) == Some(p as int),
            r is None ==> tcp_port(self.remote@) is None,
    {
        tcp_port_of(self.remote.as_str())
    }

    /// The local (host-side) port, when it is `tcp:PORT`.
    pub fn local_port(&self) -> (r: Option<u16>)
        ensures
            r matches Some(p) ==> tcp_port(self.local@) == Some(p as int),
            r is None ==> tcp_port(self.local@) is None,
    {
        tcp_port_of(self.local.as_str())
    }
}

/// `S_IFDIR`.
pub const MODE_DIR: u32 = 0o40000;

/// `S_IFREG`.
pub const MODE_FILE: u32 = 0o100000;

/// `S_IFMT`: the file-type bits of a mode.
pub const MODE_TYPE_MASK: u32 = 0o170000;

/// The file-type field of a mode (`mode & S_IFMT`).
pub open spec fn file_type(mode: u32) -> u32 {
    mode & MODE_TYPE_MASK
}

/// File metadata from the sync STAT command.
#[derive(Debug, Clone)]
pub struct FileStat {
    pub mode: u32,
    pub size: u32,
    pub mtime: u32,
}

impl FileStat {
    /// Whether this is a directory.
    pub fn is_dir(&self) -> (b: bool)
        ensures
            b == (file_type(self.mode) == MODE_DIR),
    {
        (self.mode & MODE_TYPE_MASK) == MODE_DIR
    }

    /// Whether this is a regular file.
    pub fn is_file(&self) -> (b: bool)
        ensures
            b == (file_type(self.mode) == MODE_FILE),
    {
        (self.mode & MODE_TYPE_MASK) == MODE_FILE
    }

    /// Whether the file exists (a zero mode means it was not found).
    pub fn file_exists(&self) -> (b: bool)
        ensures
            b == (self.mode != 0),
    {
        self.mode != 0
    }

    /// The modification time, `mtime` seconds after the Unix epoch.
    pub fn modified_time(&self) -> (r: std::time::SystemTime)
        ensures
            r == time_after_epoch(self.mtime as u64),
    {
        system_time_at(self.mtime as u64)
    }
}

#[verifier::external_type_specification]
#[verifier::external_body]
pub struct ExSystemTime(std::time::SystemTime);

/// The point in time `secs` whole seconds after the Unix epoch, as std's
/// `UNIX_EPOCH + Duration::from_secs(secs)` gives it.
pub uninterp spec fn time_after_epoch(secs: u64) -> std::time::SystemTime;

/// `UNIX_EPOCH + Duration::from_secs(secs)` (`SystemTime + Duration`): a
/// fixed point in time, the same for the same `secs`. Limited to 32-bit
/// values, which every platform's `SystemTime` can represent (the addition
/// panics only where the result cannot be represented).
#[verifier::external_body]
fn system_time_at(secs: u64) -> (r: std::time::SystemTime)
    requires
        secs <= u32::MAX,
    ensures
        r == time_after_epoch(secs),
{
    std::time::UNIX_EPOCH + std::time::Duration::from_secs(secs)
}

/// Directory entry from the sync LIST command.
#[derive(Debug, Clone)]
pub struct SyncDirEntry {
    pub name: String,
    pub mode: u32,
    pub size: u32,
    pub mtime: u32,
}

impl SyncDirEntry {
    /// Whether this entry is a directory.
    pub fn is_dir(&self) -> (b: bool)
        ensures
            b == (file_type(self.mode) == MODE_DIR),
    {
        (self.mode & MODE_TYPE_MASK) == MODE_DIR
    }

    /// Whether this entry is a regular file.
    pub fn is_file(&self) -> (b: bool)
        ensures
            b == (file_type(self.mode) == MODE_FILE),
    {
        (self.mode & MODE_TYPE_MASK) == MODE_FILE
    }
}

/// Reboot mode.
#[derive(Debug, Clone, Copy, PartialEq, Eq)]
pub enum RebootMode {
    /// Normal reboot.
    Normal,
    /// Reboot into bootloader (fastboot).
    Bootloader,
    /// Reboot into recovery.
    Recovery,
    /// Reboot into sideload mode.
    Sideload,
}

pub open spec fn reboot_mode_name(m: RebootMode) -> Seq<char> {
    match m {
        RebootMode::Normal => ""@,
        RebootMode::Bootloader => "bootloader"@,
        RebootMode::Recovery => "recovery"@,
        RebootMode::Sideload => "sideload"@,
    }
}

impl RebootMode {
    /// The argument of the `reboot:` service for this mode.
    pub fn as_str(&self) -> (r: &str)
        ensures
            r@ == reboot_mode_name(*self),
    {
        match self {
            RebootMode::Normal => "",
            RebootMode::Bootloader => "bootloader",
            RebootMode::Recovery => "recovery",
            RebootMode::Sideload => "sideload",
        }
    }
}

/// Current foreground app information.
#[derive(Debug, Clone)]
pub struct CurrentApp {
    pub package: String,
    pub activity: String,
}

impl CurrentApp {
    /// `package/activity`.
    pub fn to_string(&self) -> (r: String)
        ensures
            r@ == self.package@ + "/"@ + self.activity@,
    {
        let mut v = chars_of(self.package.as_str());
        push_str(&mut v, "/");
        push_str(&mut v, self.activity.as_str());
        string_of(v.as_slice())
    }
}

/// Detailed app information from `dumpsys package`.
#[derive(Debug, Clone)]
pub struct AppDetail {
    pub package: String,
    pub version_name: Option<String>,
    pub version_code: Option<i64>,
    pub install_path: Option<String>,
    pub first_install_time: Option<String>,
    pub last_update_time: Option<String>,
}

/// Device tracking event (for `track_devices` stream).
#[derive(Debug, Clone)]
pub struct DeviceEvent {
    pub serial: String,
    pub state: DeviceState,
}

/// Screen dimensions in pixels.
#[derive(Debug, Clone, Copy, PartialEq, Eq)]
pub struct ScreenSize {
    pub width: u32,
    pub height: u32,
}

impl ScreenSize {
    /// `WIDTHxHEIGHT`.
    pub fn to_string(&self) -> (r: String)
        ensures
            r@ == nat_to_dec(self.width as nat) + "x"@ + nat_to_dec(self.height as nat),
    {
        let mut v: Vec<char> = Vec::new();
        push_nat(&mut v, self.width as u64);
        push_str(&mut v, "x");
        push_nat(&mut v, self.height as u64);
        string_of(v.as_slice())
    }
}

} // verus!
