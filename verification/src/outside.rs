//! Calls into std functions that vstd does not specify, and into the `regex`
//! crate. Each item here is trusted: its contract is taken from the callee's
//! documentation and is not proved.
use vstd::prelude::*;
use vstd::utf8::{decode_utf8, valid_utf8};

verus! {

#[verifier::external_type_specification]
#[verifier::external_body]
pub struct ExFromUtf8Error(std::string::FromUtf8Error);

/// `String::from_utf8`: succeeds exactly on valid UTF-8, and then holds the
/// decoded characters.
#[verifier::external_body]
pub(crate) fn string_from_utf8(bytes: Vec<u8>) -> (r: Result<String, std::string::FromUtf8Error>)
    ensures
        r is Ok <==> valid_utf8(bytes@),
        r matches Ok(s) ==> s@ == decode_utf8(bytes@),
{
    String::from_utf8(bytes)
}

/// The `Display` text of a `FromUtf8Error`; nothing is claimed of its wording.
#[verifier::external_body]
pub(crate) fn utf8_error_text(e: &std::string::FromUtf8Error) -> String {
    e.to_string()
}

/// What `String::from_utf8_lossy` makes of a byte sequence.
pub uninterp spec fn spec_utf8_lossy(bytes: Seq<u8>) -> Seq<char>;

/// `String::from_utf8_lossy(bytes).to_string()`: on valid UTF-8 it is the
/// decoded text; on other input, what the name stands for.
#[verifier::external_body]
pub(crate) fn utf8_lossy(bytes: &[u8]) -> (r: String)
    ensures
        r@ == spec_utf8_lossy(bytes@),
        valid_utf8(bytes@) ==> r@ == decode_utf8(bytes@),
{
    String::from_utf8_lossy(bytes).to_string()
}

/// What `format!("{:?}", s)` makes of a string (quoted, with escapes).
pub uninterp spec fn spec_debug_str(s: Seq<char>) -> Seq<char>;

/// `format!("{:?}", s)` for a string.
#[verifier::external_body]
pub(crate) fn debug_str(s: &str) -> (r: String)
    ensures
        r@ == spec_debug_str(s@),
{
    format!("{:?}", s)
}

/// The text of capture groups 1 and 2 of the first match of the regular
/// expression `pattern` in `hay` (`None` when the pattern does not compile or
/// does not match; an absent group is empty).
pub uninterp spec fn regex_first_groups(pattern: Seq<char>, hay: Seq<char>) -> Option<
    (Seq<char>, Seq<char>),
>;

/// `Regex::new(pattern)` then `captures(hay)`, keeping groups 1 and 2.
#[verifier::external_body]
pub(crate) fn regex_groups(pattern: &str, hay: &str) -> (r: Option<(String, String)>)
    ensures
        r matches Some((a, b)) ==> regex_first_groups(pattern@, hay@) == Some((a@, b@)),
        r is None ==> regex_first_groups(pattern@, hay@) is None,
{
    let caps = regex::Regex::new(pattern).ok()?.captures(hay)?;
    let g1 = caps.get(1).map_or("", |m| m.as_str()).to_string();
    let g2 = caps.get(2).map_or("", |m| m.as_str()).to_string();
    Some((g1, g2))
}

} // verus!
