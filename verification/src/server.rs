//! The ADB server: device enumeration, device selection, and server requests.
use vstd::prelude::*;

use crate::adb_error::AdbError;
use crate::device::{prefixed, AdbDevice, DEFAULT_HOST, DEFAULT_PORT};
use crate::models::{parses_state, DeviceEvent, DeviceInfo, DeviceState};
use crate::text::{
    chars_eq, chars_of, lines, lines_of, parse_hex, parse_hex_chars, push_str, string_of, trim,
    trim_chars, views, words, words_of,
};

verus! {

/// The ADB server at `host:port`.
#[derive(Debug, Clone)]
pub struct AdbServer {
    host: String,
    port: u16,
}

impl Default for AdbServer {
    /// The server at `127.0.0.1:5037`.
    fn default() -> (r: Self)
        ensures
            r.spec_host() == DEFAULT_HOST@,
            r.spec_port() == DEFAULT_PORT,
    {
        AdbServer { host: string_of(chars_of(DEFAULT_HOST).as_slice()), port: DEFAULT_PORT }
    }
}

/// The `(serial, state)` rows of a device list: each non-empty line with at
/// least one word gives its first word and its second word (`unknown` when absent).
pub open spec fn device_rows(ls: Seq<Seq<char>>) -> Seq<(Seq<char>, Seq<char>)>
    decreases ls.len(),
{
    if ls.len() == 0 {
        seq![]
    } else {
        let prev = device_rows(ls.drop_last());
        let w = words(ls.last());
        if ls.last().len() > 0 && w.len() >= 1 {
            prev.push(
                (
                    w[0],
                    if w.len() >= 2 {
                        w[1]
                    } else {
                        "unknown"@
                    },
                ),
            )
        } else {
            prev
        }
    }
}

/// `r` describes exactly the devices `rows`, in order.
pub open spec fn device_list_matches(r: Seq<DeviceInfo>, rows: Seq<(Seq<char>, Seq<char>)>) -> bool {
    &&& r.len() == rows.len()
    &&& forall|i: int|
        0 <= i < r.len() ==> (#[trigger] r[i]).serial@ == rows[i].0 && parses_state(
            rows[i].1,
            r[i].state,
        )
}

/// The devices of a `host:devices` answer.
pub fn parse_device_list(data: &str) -> (r: Vec<DeviceInfo>)
    ensures
        device_list_matches(r@, device_rows(lines(data@))),
{
    let c = chars_of(data);
    let ls = lines_of(c.as_slice());
    let ghost lv = views(ls@);
    let unknown = chars_of("unknown");
    let mut r: Vec<DeviceInfo> = Vec::new();
    let mut i: usize = 0;
    while i < ls.len()
        invariant
            i <= ls@.len(),
            lv == views(ls@),
            unknown@ == "unknown"@,
            device_list_matches(r@, device_rows(lv.take(i as int))),
        decreases ls@.len() - i,
    {
        assert(lv.take(i + 1).drop_last() == lv.take(i as int));
        assert(lv.take(i + 1).last() == ls@[i as int]@);
        let w = words_of(ls[i].as_slice());
        if ls[i].len() > 0 && w.len() >= 1 {
            assert(views(w@)[0] == w@[0]@);
            assert(w@.len() >= 2 ==> views(w@)[1] == w@[1]@);
            let st = if w.len() >= 2 {
                string_of(w[1].as_slice())
            } else {
                string_of(unknown.as_slice())
            };
            let state = DeviceState::from(st.as_str());
            r.push(DeviceInfo { serial: string_of(w[0].as_slice()), state });
        }
        i = i + 1;
    }
    assert(lv.take(ls@.len() as int) == lv);
    r
}

/// The events of one `host:track-devices` report.
pub fn parse_device_events(data: &str) -> (r: Vec<DeviceEvent>)
    ensures
        r@.len() == device_rows(lines(data@)).len(),
        forall|i: int|
            0 <= i < r@.len() ==> (#[trigger] r@[i]).serial@ == device_rows(lines(data@))[i].0
                && parses_state(device_rows(lines(data@))[i].1, r@[i].state),
{
    let list = parse_device_list(data);
    let mut r: Vec<DeviceEvent> = Vec::new();
    let mut i: usize = 0;
    while i < list.len()
        invariant
            i <= list@.len(),
            device_list_matches(list@, device_rows(lines(data@))),
            r@.len() == i,
            forall|k: int|
                0 <= k < i ==> (#[trigger] r@[k]).serial@ == list@[k].serial@ && r@[k].state
                    == list@[k].state,
        decreases list@.len() - i,
    {
        let d = &list[i];
        r.push(DeviceEvent { serial: d.serial.clone(), state: d.state.duplicate() });
        i = i + 1;
    }
    r
}

/// The version of a `host:version` answer (hexadecimal).
pub fn parse_server_version(s: &str) -> (r: Result<u32, AdbError>)
    ensures
        match parse_hex(trim(s@), u32::MAX as int) {
            Some(v) => r == Ok::<u32, AdbError>(v as u32),
            None => r matches Err(AdbError::Parse(m)) && m@ == "cannot parse version: "@ + s@,
        },
{
    let c = chars_of(s);
    let t = trim_chars(c.as_slice());
    match parse_hex_chars(t.as_slice(), u32::MAX as u64) {
        Some(v) => Ok(v as u32),
        None => Err(AdbError::Parse(prefixed("cannot parse version: ", s))),
    }
}

/// The index of the first online device.
pub open spec fn first_online(devices: Seq<DeviceInfo>) -> Option<int> {
    if exists|i: int| 0 <= i < devices.len() && devices[i].state is Device {
        Some(
            choose|i: int|
                0 <= i < devices.len() && devices[i].state is Device && forall|j: int|
                    0 <= j < i ==> !(devices[j].state is Device),
        )
    } else {
        None
    }
}

/// `host:connect:{addr}`.
pub fn connect_request(addr: &str) -> (r: String)
    ensures
        r@ == "host:connect:"@ + addr@,
{
    prefixed("host:connect:", addr)
}

/// `host:disconnect:{addr}`.
pub fn disconnect_request(addr: &str) -> (r: String)
    ensures
        r@ == "host:disconnect:"@ + addr@,
{
    prefixed("host:disconnect:", addr)
}

/// The request that blocks until a device reaches `state`.
pub fn wait_for_request(serial: Option<&str>, state: &str) -> (r: String)
    ensures
        r@ == match serial {
            Some(s) => "host-serial:"@ + s@ + ":wait-for-any-"@ + state@,
            None => "host:wait-for-any-"@ + state@,
        },
{
    match serial {
        Some(s) => {
            let mut v = chars_of("host-serial:");
            push_str(&mut v, s);
            push_str(&mut v, ":wait-for-any-");
            push_str(&mut v, state);
            string_of(v.as_slice())
        },
        None => prefixed("host:wait-for-any-", state),
    }
}

/// The error when waiting for `state` times out.
pub fn wait_for_timeout(state: &str) -> (e: AdbError)
    ensures
        e matches AdbError::Timeout(m) && m@ == "wait_for "@ + state@ + " timed out"@,
{
    let mut v = chars_of("wait_for ");
    push_str(&mut v, state);
    push_str(&mut v, " timed out");
    AdbError::Timeout(string_of(v.as_slice()))
}

impl AdbServer {
    pub closed spec fn spec_host(&self) -> Seq<char> {
        self.host@
    }

    pub closed spec fn spec_port(&self) -> u16 {
        self.port
    }

    /// The server at `host:port`.
    pub fn new(host: &str, port: u16) -> (r: AdbServer)
        ensures
            r.spec_host() == host@,
            r.spec_port() == port,
    {
        AdbServer { host: string_of(chars_of(host).as_slice()), port }
    }

    /// The server host.
    pub fn host(&self) -> (r: &str)
        ensures
            r@ == self.spec_host(),
    {
        self.host.as_str()
    }

    /// The server port.
    pub fn port(&self) -> (r: u16)
        ensures
            r == self.spec_port(),
    {
        self.port
    }

    /// A handle on device `serial` through this server.
    pub fn device_handle(&self, serial: &str) -> (d: AdbDevice)
        ensures
            d.spec_serial() == serial@,
            d.spec_host() == self.spec_host(),
            d.spec_port() == self.spec_port(),
    {
        AdbDevice::new(serial, self.host.as_str(), self.port)
    }

    /// A handle on the first online device of `devices`.
    pub fn first_online_device(&self, devices: &[DeviceInfo]) -> (r: Result<AdbDevice, AdbError>)
        ensures
            match first_online(devices@) {
                Some(i) => r matches Ok(d) && d.spec_serial() == devices@[i].serial@
                    && d.spec_host() == self.spec_host() && d.spec_port() == self.spec_port(),
                None => r == Err::<AdbDevice, AdbError>(AdbError::NoDevice),
            },
    {
        let mut i: usize = 0;
        while i < devices.len()
            invariant
                i <= devices@.len(),
                forall|j: int| 0 <= j < i ==> !(devices@[j].state is Device),
            decreases devices@.len() - i,
        {
            if devices[i].state.is_online() {
                let ghost k = i as int;
                assert(first_online(devices@) == Some(k)) by {
                    let c = choose|c: int|
                        0 <= c < devices@.len() && devices@[c].state is Device && forall|j: int|
                            0 <= j < c ==> !(devices@[j].state is Device);
                    assert(0 <= k < devices@.len() && devices@[k].state is Device && forall|j: int|
                        0 <= j < k ==> !(devices@[j].state is Device));
                    if c < k {
                        assert(!(devices@[c].state is Device));
                    } else if c > k {
                        assert(!(devices@[k].state is Device));
                    }
                }
                return Ok(self.device_handle(devices[i].serial.as_str()));
            }
            i = i + 1;
        }
        Err(AdbError::NoDevice)
    }

    /// A handle on device `serial` if `devices` lists it.
    pub fn listed_device(&self, devices: &[DeviceInfo], serial: &str) -> (r: Result<
        AdbDevice,
        AdbError,
    >)
        ensures
            (exists|i: int| 0 <= i < devices@.len() && devices@[i].serial@ == serial@) ==> (r matches Ok(d)
                && d.spec_serial() == serial@ && d.spec_host() == self.spec_host()
                && d.spec_port() == self.spec_port()),
            !(exists|i: int| 0 <= i < devices@.len() && devices@[i].serial@ == serial@) ==> (r matches Err(AdbError::DeviceNotFound(m)) && m@ == serial@),
    {
        let want = chars_of(serial);
        let mut i: usize = 0;
        while i < devices.len()
            invariant
                i <= devices@.len(),
                want@ == serial@,
                forall|j: int| 0 <= j < i ==> devices@[j].serial@ != serial@,
            decreases devices@.len() - i,
        {
            let c = chars_of(devices[i].serial.as_str());
            if chars_eq(c.as_slice(), want.as_slice()) {
                return Ok(self.device_handle(serial));
            }
            i = i + 1;
        }
        Err(AdbError::DeviceNotFound(string_of(want.as_slice())))
    }
}

} // verus!
