//! The ADB sync protocol (`sync:` service): message framing and decoding.
//!
//! Every message is a 4-byte ASCII tag followed by a little-endian `u32`
//! (a length, a mode, or a time) and, for some tags, a payload.
use vstd::prelude::*;
use vstd::string::StringSliceAdditionalSpecFns;
use vstd::utf8::encode_utf8;

use crate::adb_error::AdbError;
use crate::models::{FileStat, SyncDirEntry};
use crate::outside::{debug_str, spec_debug_str, spec_utf8_lossy, utf8_lossy};
use crate::text::{chars_eq, chars_of, nat_to_dec, push_nat, push_str, string_of};

verus! {

/// The tags of sync messages.
#[derive(Debug, Clone, Copy, PartialEq, Eq)]
pub enum SyncTag {
    Send,
    Recv,
    Stat,
    List,
    Data,
    Done,
    Dent,
    Quit,
    Okay,
    Fail,
}

/// The four ASCII bytes of a tag.
pub open spec fn tag_bytes(t: SyncTag) -> Seq<u8> {
    match t {
        SyncTag::Send => seq![83u8, 69u8, 78u8, 68u8],
        SyncTag::Recv => seq![82u8, 69u8, 67u8, 86u8],
        SyncTag::Stat => seq![83u8, 84u8, 65u8, 84u8],
        SyncTag::List => seq![76u8, 73u8, 83u8, 84u8],
        SyncTag::Data => seq![68u8, 65u8, 84u8, 65u8],
        SyncTag::Done => seq![68u8, 79u8, 78u8, 69u8],
        SyncTag::Dent => seq![68u8, 69u8, 78u8, 84u8],
        SyncTag::Quit => seq![81u8, 85u8, 73u8, 84u8],
        SyncTag::Okay => seq![79u8, 75u8, 65u8, 89u8],
        SyncTag::Fail => seq![70u8, 65u8, 73u8, 76u8],
    }
}

fn tag_vec(t: SyncTag) -> (r: Vec<u8>)
    ensures
        r@ == tag_bytes(t),
{
    let (a, b, c, d): (u8, u8, u8, u8) = match t {
        SyncTag::Send => (83, 69, 78, 68),
        SyncTag::Recv => (82, 69, 67, 86),
        SyncTag::Stat => (83, 84, 65, 84),
        SyncTag::List => (76, 73, 83, 84),
        SyncTag::Data => (68, 65, 84, 65),
        SyncTag::Done => (68, 79, 78, 69),
        SyncTag::Dent => (68, 69, 78, 84),
        SyncTag::Quit => (81, 85, 73, 84),
        SyncTag::Okay => (79, 75, 65, 89),
        SyncTag::Fail => (70, 65, 73, 76),
    };
    let mut r: Vec<u8> = Vec::new();
    r.push(a);
    r.push(b);
    r.push(c);
    r.push(d);
    assert(r@ =~= tag_bytes(t));
    r
}

/// The tag whose bytes are `w`, if any.
pub fn classify_tag(w: &[u8]) -> (r: Option<SyncTag>)
    requires
        w@.len() == 4,
    ensures
        r matches Some(t) ==> w@ == tag_bytes(t),
        r is None ==> forall|t: SyncTag| w@ != tag_bytes(t),
{
    let all = [
        SyncTag::Send,
        SyncTag::Recv,
        SyncTag::Stat,
        SyncTag::List,
        SyncTag::Data,
        SyncTag::Done,
        SyncTag::Dent,
        SyncTag::Quit,
        SyncTag::Okay,
        SyncTag::Fail,
    ];
    let mut k: usize = 0;
    while k < 10
        invariant
            w@.len() == 4,
            all@ == seq![
                SyncTag::Send,
                SyncTag::Recv,
                SyncTag::Stat,
                SyncTag::List,
                SyncTag::Data,
                SyncTag::Done,
                SyncTag::Dent,
                SyncTag::Quit,
                SyncTag::Okay,
                SyncTag::Fail,
            ],
            forall|j: int| 0 <= j < k ==> w@ != tag_bytes(#[trigger] all@[j]),
        decreases 10 - k,
    {
        let t = all[k];
        let tb = tag_vec(t);
        if w[0] == tb[0] && w[1] == tb[1] && w[2] == tb[2] && w[3] == tb[3] {
            assert(w@ =~= tag_bytes(t));
            return Some(t);
        }
        assert(w@[0] != tb@[0] || w@[1] != tb@[1] || w@[2] != tb@[2] || w@[3] != tb@[3]);
        k = k + 1;
    }
    assert forall|t: SyncTag| w@ != tag_bytes(t) by {
        match t {
            SyncTag::Send => assert(all@[0] == t),
            SyncTag::Recv => assert(all@[1] == t),
            SyncTag::Stat => assert(all@[2] == t),
            SyncTag::List => assert(all@[3] == t),
            SyncTag::Data => assert(all@[4] == t),
            SyncTag::Done => assert(all@[5] == t),
            SyncTag::Dent => assert(all@[6] == t),
            SyncTag::Quit => assert(all@[7] == t),
            SyncTag::Okay => assert(all@[8] == t),
            SyncTag::Fail => assert(all@[9] == t),
        }
    }
    None
}

// ---- little-endian u32 ----

/// The value of four little-endian bytes.
pub open spec fn le_value(b: Seq<u8>) -> int {
    b[0] + 256 * b[1] + 65536 * b[2] + 16777216 * b[3]
}

/// The four little-endian bytes of `v` (`u32::to_le_bytes`).
pub open spec fn le_bytes(v: int) -> Seq<u8> {
    seq![
        (v % 256) as u8,
        ((v / 256) % 256) as u8,
        ((v / 65536) % 256) as u8,
        ((v / 16777216) % 256) as u8,
    ]
}

/// Encoding a `u32` as four little-endian bytes and reading them back gives
/// the same value.
pub proof fn lemma_le_roundtrip(v: u32)
    ensures
        le_value(le_bytes(v as int)) == v,
{
    let x = v as int;
    let b = le_bytes(x);
    assert(b[0] == x % 256);
    assert(b[1] == (x / 256) % 256);
    assert(b[2] == (x / 65536) % 256);
    assert(b[3] == (x / 16777216) % 256);
    assert(x % 256 + 256 * ((x / 256) % 256) + 65536 * ((x / 65536) % 256) + 16777216 * ((x
        / 16777216) % 256) == x) by (nonlinear_arith)
        requires
            0 <= x < 0x1_0000_0000,
    ;
}

/// `u32::to_le_bytes`.
pub fn le_vec(v: u32) -> (r: Vec<u8>)
    ensures
        r@ == le_bytes(v as int),
{
    let mut r: Vec<u8> = Vec::new();
    r.push((v % 256) as u8);
    r.push(((v / 256) % 256) as u8);
    r.push(((v / 65536) % 256) as u8);
    r.push(((v / 16777216) % 256) as u8);
    assert(r@ =~= le_bytes(v as int));
    r
}

/// `u32::from_le_bytes(b[off..off + 4])`.
pub fn read_le(b: &[u8], off: usize) -> (r: u32)
    requires
        off + 4 <= b@.len(),
    ensures
        r == le_value(b@.subrange(off as int, off + 4)),
{
    let r = b[off] as u32 + 256 * (b[off + 1] as u32) + 65536 * (b[off + 2] as u32) + 16777216 * (
    b[off + 3] as u32);
    r
}

// ---- requests ----

/// A sync request: tag, little-endian payload length, payload.
pub open spec fn request_bytes(t: SyncTag, payload: Seq<u8>) -> Seq<u8> {
    tag_bytes(t) + le_bytes(payload.len() as int) + payload
}

fn push_all(out: &mut Vec<u8>, b: &[u8])
    ensures
        final(out)@ == old(out)@ + b@,
{
    out.extend_from_slice(b);
}

/// A sync request carrying a device path (`RECV`, `STAT`, `LIST`).
pub fn path_request(t: SyncTag, path: &str) -> (r: Vec<u8>)
    requires
        path.spec_bytes().len() <= u32::MAX,
    ensures
        r@ == request_bytes(t, path.spec_bytes()),
{
    let pb = path.as_bytes();
    let mut r = tag_vec(t);
    let n = le_vec(pb.len() as u32);
    push_all(&mut r, n.as_slice());
    push_all(&mut r, pb);
    r
}

/// The `QUIT` message that ends a sync session.
pub fn quit_message() -> (r: Vec<u8>)
    ensures
        r@ == tag_bytes(SyncTag::Quit) + le_bytes(0),
{
    let mut r = tag_vec(SyncTag::Quit);
    let z = le_vec(0);
    push_all(&mut r, z.as_slice());
    r
}

/// Largest `DATA` payload.
pub const CHUNK_SIZE: usize = 65536;

/// The `DATA` messages that carry `data`, in chunks of at most `CHUNK_SIZE` bytes.
pub open spec fn data_frames(data: Seq<u8>) -> Seq<u8>
    decreases data.len(),
{
    if data.len() == 0 {
        seq![]
    } else {
        let n = if data.len() < CHUNK_SIZE {
            data.len() as int
        } else {
            CHUNK_SIZE as int
        };
        tag_bytes(SyncTag::Data) + le_bytes(n) + data.take(n) + data_frames(data.skip(n))
    }
}

/// The path-and-mode argument of `SEND`: `{remote},33188` (mode `0o100644`).
pub open spec fn send_target(remote: Seq<char>) -> Seq<u8> {
    encode_utf8(remote + ",33188"@)
}

/// A complete upload: `SEND` with the target, the data, then `DONE` with `mtime`.
pub open spec fn upload_bytes(remote: Seq<char>, data: Seq<u8>, mtime: u32) -> Seq<u8> {
    request_bytes(SyncTag::Send, send_target(remote)) + data_frames(data) + tag_bytes(
        SyncTag::Done,
    ) + le_bytes(mtime as int)
}

/// Frames an upload of `data` to `remote` with modification time `mtime`.
pub fn encode_upload(remote: &str, data: &[u8], mtime: u32) -> (r: Vec<u8>)
    requires
        send_target(remote@).len() <= u32::MAX,
    ensures
        r@ == upload_bytes(remote@, data@, mtime),
{
    let mut target = chars_of(remote);
    push_str(&mut target, ",33188");
    let ts = string_of(target.as_slice());
    let tb = ts.as_str().as_bytes();
    let mut r = tag_vec(SyncTag::Send);
    let n = le_vec(tb.len() as u32);
    push_all(&mut r, n.as_slice());
    push_all(&mut r, tb);
    let ghost head = r@;
    assert(head == request_bytes(SyncTag::Send, send_target(remote@)));
    let total = data.len();
    let mut off: usize = 0;
    assert(data@.skip(0) == data@);
    while off < total
        invariant
            total == data@.len(),
            off <= total,
            head + data_frames(data@) == r@ + data_frames(data@.skip(off as int)),
        decreases total - off,
    {
        let rest = total - off;
        let n: usize = if rest < CHUNK_SIZE {
            rest
        } else {
            CHUNK_SIZE
        };
        let ghost before = r@;
        let ghost tail = data@.skip(off as int);
        let d = tag_vec(SyncTag::Data);
        push_all(&mut r, d.as_slice());
        let l = le_vec(n as u32);
        push_all(&mut r, l.as_slice());
        let mut k: usize = off;
        while k < off + n
            invariant
                off <= k <= off + n <= total == data@.len(),
                r@ == before + tag_bytes(SyncTag::Data) + le_bytes(n as int) + data@.subrange(
                    off as int,
                    k as int,
                ),
            decreases off + n - k,
        {
            r.push(data[k]);
            assert(data@.subrange(off as int, k + 1) == data@.subrange(off as int, k as int).push(
                data@[k as int],
            ));
            k = k + 1;
        }
        assert(tail.take(n as int) == data@.subrange(off as int, off + n));
        assert(tail.skip(n as int) == data@.skip(off + n));
        assert(data_frames(tail) == tag_bytes(SyncTag::Data) + le_bytes(n as int) + tail.take(
            n as int,
        ) + data_frames(tail.skip(n as int)));
        assert(before + data_frames(tail) =~= r@ + data_frames(data@.skip(off + n)));
        off = off + n;
    }
    assert(data@.skip(total as int) =~= Seq::<u8>::empty());
    assert(data_frames(data@.skip(total as int)) == Seq::<u8>::empty());
    let dn = tag_vec(SyncTag::Done);
    push_all(&mut r, dn.as_slice());
    let m = le_vec(mtime);
    push_all(&mut r, m.as_slice());
    assert(r@ =~= upload_bytes(remote@, data@, mtime));
    r
}

// ---- replies ----

/// `format!("{:?}", [a, b, c, d])` for four bytes.
pub open spec fn debug_bytes4(w: Seq<u8>) -> Seq<char> {
    "["@ + nat_to_dec(w[0] as nat) + ", "@ + nat_to_dec(w[1] as nat) + ", "@ + nat_to_dec(
        w[2] as nat,
    ) + ", "@ + nat_to_dec(w[3] as nat) + "]"@
}

/// The error for an upload answered with neither `OKAY` nor `FAIL`.
pub fn unexpected_upload_reply(w: &[u8]) -> (e: AdbError)
    requires
        w@.len() == 4,
    ensures
        e matches AdbError::Protocol(m) && m@ == "unexpected sync response: "@ + debug_bytes4(
            w@,
        ),
{
    let mut v = chars_of("unexpected sync response: [");
    push_nat(&mut v, w[0] as u64);
    push_str(&mut v, ", ");
    push_nat(&mut v, w[1] as u64);
    push_str(&mut v, ", ");
    push_nat(&mut v, w[2] as u64);
    push_str(&mut v, ", ");
    push_nat(&mut v, w[3] as u64);
    push_str(&mut v, "]");
    assert(v@ =~= "unexpected sync response: "@ + debug_bytes4(w@)) by {
        reveal_strlit("unexpected sync response: [");
        reveal_strlit("unexpected sync response: ");
        reveal_strlit("[");
    }
    AdbError::Protocol(string_of(v.as_slice()))
}

/// The error for an upload of a file answered with `FAIL` and message `msg`.
pub fn file_upload_failed(msg: &[u8]) -> (e: AdbError)
    ensures
        e matches AdbError::ServerFailed(m) && m@ == "push failed: "@ + spec_utf8_lossy(msg@),
{
    let mut v = chars_of("push failed: ");
    let s = utf8_lossy(msg);
    push_str(&mut v, s.as_str());
    AdbError::ServerFailed(string_of(v.as_slice()))
}

/// The error for a sync exchange answered with `FAIL` and message `msg`.
pub fn sync_failed(msg: &[u8]) -> (e: AdbError)
    ensures
        e matches AdbError::SyncError(m) && m@ == spec_utf8_lossy(msg@),
{
    AdbError::SyncError(utf8_lossy(msg))
}

/// The error for an unexpected tag `w`, after the text `what`.
pub fn unexpected_tag(what: &str, w: &[u8]) -> (e: AdbError)
    ensures
        e matches AdbError::SyncError(m) && m@ == what@ + spec_debug_str(spec_utf8_lossy(w@)),
{
    let mut v = chars_of(what);
    let s = utf8_lossy(w);
    let d = debug_str(s.as_str());
    push_str(&mut v, d.as_str());
    AdbError::SyncError(string_of(v.as_slice()))
}

/// Checks the tag of a `STAT` reply: anything but `STAT` is an error that
/// shows the tag.
pub fn expect_stat_reply(header: &[u8]) -> (r: Result<(), AdbError>)
    requires
        header@.len() == 4,
    ensures
        header@ == tag_bytes(SyncTag::Stat) ==> r is Ok,
        header@ != tag_bytes(SyncTag::Stat) ==> (r matches Err(AdbError::SyncError(m)) && m@
            == "expected STAT, got "@ + spec_debug_str(spec_utf8_lossy(header@))),
{
    match classify_tag(header) {
        Some(SyncTag::Stat) => Ok(()),
        _ => Err(unexpected_tag("expected STAT, got ", header)),
    }
}

/// Whether a `LIST` reply goes on after the tag `id`: `Ok(true)` for `DENT`
/// (an entry follows), `Ok(false)` for `DONE`; any other tag is an error that
/// shows it.
pub fn list_reply_continues(id: &[u8]) -> (r: Result<bool, AdbError>)
    requires
        id@.len() == 4,
    ensures
        id@ == tag_bytes(SyncTag::Dent) ==> r == Ok::<bool, AdbError>(true),
        id@ == tag_bytes(SyncTag::Done) ==> r == Ok::<bool, AdbError>(false),
        id@ != tag_bytes(SyncTag::Dent) && id@ != tag_bytes(SyncTag::Done) ==> (r matches Err(
            AdbError::SyncError(m),
        ) && m@ == "expected DENT/DONE, got "@ + spec_debug_str(spec_utf8_lossy(id@))),
{
    match classify_tag(id) {
        Some(SyncTag::Dent) => Ok(true),
        Some(SyncTag::Done) => Ok(false),
        _ => Err(unexpected_tag("expected DENT/DONE, got ", id)),
    }
}

/// The file metadata of a 12-byte `STAT` reply body: mode, size, mtime.
pub fn parse_stat_body(b: &[u8]) -> (r: FileStat)
    requires
        b@.len() == 12,
    ensures
        r.mode == le_value(b@.subrange(0, 4)),
        r.size == le_value(b@.subrange(4, 8)),
        r.mtime == le_value(b@.subrange(8, 12)),
{
    FileStat { mode: read_le(b, 0), size: read_le(b, 4), mtime: read_le(b, 8) }
}

/// The fields of a 16-byte `DENT` header: mode, size, mtime, name length.
pub fn parse_dent_header(b: &[u8]) -> (r: (u32, u32, u32, u32))
    requires
        b@.len() == 16,
    ensures
        r.0 == le_value(b@.subrange(0, 4)),
        r.1 == le_value(b@.subrange(4, 8)),
        r.2 == le_value(b@.subrange(8, 12)),
        r.3 == le_value(b@.subrange(12, 16)),
{
    (read_le(b, 0), read_le(b, 4), read_le(b, 8), read_le(b, 12))
}

/// A directory entry from a `DENT` message; the `.` and `..` entries are skipped.
pub fn dent_entry(name: &[u8], mode: u32, size: u32, mtime: u32) -> (r: Option<SyncDirEntry>)
    ensures
        ({
            let n = spec_utf8_lossy(name@);
            if n == "."@ || n == ".."@ {
                r is None
            } else {
                r matches Some(e) && e.name@ == n && e.mode == mode && e.size == size && e.mtime
                    == mtime
            }
        }),
{
    let s = utf8_lossy(name);
    let c = chars_of(s.as_str());
    if chars_eq(c.as_slice(), chars_of(".").as_slice()) || chars_eq(
        c.as_slice(),
        chars_of("..").as_slice(),
    ) {
        None
    } else {
        Some(SyncDirEntry { name: s, mode, size, mtime })
    }
}

} // verus!
