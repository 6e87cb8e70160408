//! The ADB smart-socket wire protocol, as pure functions over bytes and text.
//!
//! Request:  `[4-char hex length][payload]`
//! Response: `OKAY` | `FAIL[4-char hex length][error message]`
use vstd::prelude::*;
use vstd::string::StringSliceAdditionalSpecFns;
use vstd::utf8::{decode_utf8, valid_utf8};

use crate::adb_error::AdbError;
use crate::outside::{spec_utf8_lossy, string_from_utf8, utf8_error_text, utf8_lossy};
use crate::text::{
    chars_of, hex4, hex4_chars, lemma_hex4_roundtrip, parse_hex, parse_hex_chars, push_str, string_of,
};

verus! {

/// The framed form of a host request: `{len:04X}{cmd}`, where `len` counts bytes.
pub open spec fn request_text(cmd: &str) -> Seq<char> {
    hex4(cmd.len() as nat) + cmd@
}

/// Frames a command for the ADB server: `format!("{:04X}{}", cmd.len(), cmd)`.
pub fn format_request(cmd: &str) -> (r: String)
    ensures
        r@ == request_text(cmd),
{
    let n = cmd.len();
    let mut v = hex4_chars(n as u64);
    push_str(&mut v, cmd);
    string_of(v.as_slice())
}

/// The first four characters of a framed request are its length prefix:
/// read as a hexadecimal length, they give back the command's byte length
/// (for commands shorter than 64 KiB, which the prefix can express).
pub proof fn lemma_request_length_roundtrip(cmd: &str)
    requires
        cmd.len() < 0x10000,
    ensures
        request_text(cmd).len() == 4 + cmd@.len(),
        parse_hex(request_text(cmd).take(4), usize::MAX as int) == Some(cmd.len() as int),
        request_text(cmd).skip(4) == cmd@,
{
    lemma_hex4_roundtrip(cmd.len() as nat, usize::MAX as int);
    assert(request_text(cmd).take(4) =~= hex4(cmd.len() as nat));
    assert(request_text(cmd).skip(4) =~= cmd@);
}

/// `OKAY`.
pub open spec fn okay_word() -> Seq<u8> {
    seq![79u8, 75u8, 65u8, 89u8]
}

/// `FAIL`.
pub open spec fn fail_word() -> Seq<u8> {
    seq![70u8, 65u8, 73u8, 76u8]
}

/// The kind of a 4-byte status word.
#[derive(Debug, Clone, Copy, PartialEq, Eq)]
pub enum StatusWord {
    Okay,
    Fail,
    Other,
}

/// Whether a 4-byte word equals the 4-byte tag `t0 t1 t2 t3`.
pub fn word_is(w: &[u8], t0: u8, t1: u8, t2: u8, t3: u8) -> (b: bool)
    requires
        w@.len() == 4,
    ensures
        b == (w@ == seq![t0, t1, t2, t3]),
{
    let b = w[0] == t0 && w[1] == t1 && w[2] == t2 && w[3] == t3;
    if b {
        assert(w@ =~= seq![t0, t1, t2, t3]);
    }
    b
}

/// Classifies the status word of a response.
pub fn classify_status(word: &[u8]) -> (r: StatusWord)
    requires
        word@.len() == 4,
    ensures
        (r is Okay) == (word@ == okay_word()),
        (r is Fail) == (word@ == fail_word()),
{
    if word_is(word, 79, 75, 65, 89) {
        StatusWord::Okay
    } else if word_is(word, 70, 65, 73, 76) {
        StatusWord::Fail
    } else {
        StatusWord::Other
    }
}

/// The error for a status word that is neither `OKAY` nor `FAIL`.
pub fn unexpected_status_error(word: &[u8]) -> (e: AdbError)
    ensures
        e matches AdbError::Protocol(m) && m@ == "expected OKAY/FAIL, got: "@ + spec_utf8_lossy(
            word@,
        ),
{
    let mut v = chars_of("expected OKAY/FAIL, got: ");
    let s = utf8_lossy(word);
    push_str(&mut v, s.as_str());
    AdbError::Protocol(string_of(v.as_slice()))
}

/// The outcome of reading a 4-byte hex length prefix.
pub open spec fn length_prefix_ok(word: Seq<u8>, n: int) -> bool {
    valid_utf8(word) && parse_hex(decode_utf8(word), usize::MAX as int) == Some(n)
}

/// Parses the 4-byte hexadecimal length that prefixes a response payload.
pub fn parse_length_prefix(word: Vec<u8>) -> (r: Result<usize, AdbError>)
    requires
        word@.len() == 4,
    ensures
        match r {
            Ok(n) => length_prefix_ok(word@, n as int),
            Err(AdbError::Protocol(m)) => if valid_utf8(word@) {
                parse_hex(decode_utf8(word@), usize::MAX as int) is None && m@
                    == "invalid hex length: "@ + decode_utf8(word@)
            } else {
                m@ == "invalid length bytes"@
            },
            Err(_) => false,
        },
{
    let ghost w = word@;
    match string_from_utf8(word) {
        Ok(s) => {
            let c = chars_of(s.as_str());
            match parse_hex_chars(c.as_slice(), usize::MAX as u64) {
                Some(n) => Ok(n as usize),
                None => {
                    let mut v = chars_of("invalid hex length: ");
                    push_str(&mut v, s.as_str());
                    Err(AdbError::Protocol(string_of(v.as_slice())))
                },
            }
        },
        Err(_) => Err(AdbError::Protocol(string_of(chars_of("invalid length bytes").as_slice()))),
    }
}

/// Decodes a response payload as UTF-8 text.
pub fn decode_payload(bytes: Vec<u8>) -> (r: Result<String, AdbError>)
    ensures
        r is Ok <==> valid_utf8(bytes@),
        r matches Ok(s) ==> s@ == decode_utf8(bytes@),
        r matches Err(e) ==> e is Utf8,
{
    match string_from_utf8(bytes) {
        Ok(s) => Ok(s),
        Err(e) => Err(AdbError::Utf8(utf8_error_text(&e))),
    }
}

/// The error reported when a command is not answered with `OKAY`.
pub fn command_failed_error(cmd: &str, cause: &AdbError) -> (e: AdbError)
    ensures
        e matches AdbError::ServerFailed(m) && m@ == "command '"@ + cmd@ + "' failed: "@
            + cause.message(),
{
    let mut v = chars_of("command '");
    push_str(&mut v, cmd);
    push_str(&mut v, "' failed: ");
    let m = cause.to_string();
    push_str(&mut v, m.as_str());
    AdbError::ServerFailed(string_of(v.as_slice()))
}

} // verus!
