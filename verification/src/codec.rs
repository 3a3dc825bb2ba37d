//! Encodings that other crates implement: base64, lossy UTF-8 and RFC 3339
//! timestamps.
use time::format_description::well_known::Rfc3339;
use crate::text::decimal;
use vstd::prelude::*;

verus! {

/// Names the standard base64 text, with padding, of a byte string.
pub uninterp spec fn base64_text(bytes: Seq<u8>) -> Seq<char>;

/// Names the bytes that a standard base64 text stands for; none for a text that
/// is not base64.
pub uninterp spec fn base64_bytes(text: Seq<char>) -> Option<Seq<u8>>;

/// Whether the base64 text of `n` bytes is short enough to be allocated.
pub open spec fn base64_fits(n: nat) -> bool {
    n / 3 * 4 + 4 <= usize::MAX / 2
}

/// `base64_simd::Base64::encode_to_string` with `base64_simd::STANDARD`: the text
/// is a function of the bytes, and decoding it with the same alphabet gives the
/// bytes back. The call panics where the text would not fit in memory.
#[verifier::external_body]
pub(crate) fn base64_encode(bytes: &[u8]) -> (r: String)
    requires
        base64_fits(bytes@.len()),
    ensures
        r@ == base64_text(bytes@),
        base64_bytes(r@) == Some(bytes@),
{
    base64_simd::STANDARD.encode_to_string(bytes)
}

/// `base64_simd::Base64::decode_to_vec` with `base64_simd::STANDARD`: what comes
/// back is a function of the text, and an error where the text is not base64.
#[verifier::external_body]
pub(crate) fn base64_decode(text: &str) -> (r: Option<Vec<u8>>)
    ensures
        match r {
            Some(bytes) => base64_bytes(text@) == Some(bytes@),
            None => base64_bytes(text@) is None,
        },
{
    base64_simd::STANDARD.decode_to_vec(text.as_bytes()).ok()
}

/// Names the text that a byte string is shown as: invalid UTF-8 is replaced.
pub uninterp spec fn lossy_text(bytes: Seq<u8>) -> Seq<char>;

/// `String::from_utf8_lossy`: the text is a function of the bytes, and valid UTF-8
/// is decoded as it stands.
#[verifier::external_body]
pub(crate) fn lossy(bytes: &[u8]) -> (r: String)
    ensures
        r@ == lossy_text(bytes@),
        vstd::utf8::valid_utf8(bytes@) ==> r@ == vstd::utf8::decode_utf8(bytes@),
{
    String::from_utf8_lossy(bytes).into_owned()
}

/// Names what an RFC 3339 timestamp parses to: nanoseconds since the Unix epoch, or the
/// parser's message.
pub uninterp spec fn rfc3339_nanos(text: Seq<char>) -> Result<i128, Seq<char>>;

/// `time::OffsetDateTime::parse` with the RFC 3339 format, then
/// `time::OffsetDateTime::unix_timestamp_nanos`: the result is a function of the text.
#[verifier::external_body]
pub(crate) fn parse_rfc3339(text: &str) -> (r: Result<i128, String>)
    ensures
        match r {
            Ok(nanos) => rfc3339_nanos(text@) == Ok::<i128, Seq<char>>(nanos),
            Err(m) => rfc3339_nanos(text@) == Err::<i128, Seq<char>>(m@),
        },
{
    match time::OffsetDateTime::parse(text, &Rfc3339) {
        Ok(t) => Ok(t.unix_timestamp_nanos()),
        Err(e) => Err(e.to_string()),
    }
}

/// Names how a Unix time is printed in RFC 3339: nothing where the time is out of
/// the calendar's range, and nothing within where it cannot be formatted.
pub uninterp spec fn rfc3339_text(secs: i64) -> Option<Option<Seq<char>>>;

/// `time::OffsetDateTime::from_unix_timestamp`, then
/// `time::OffsetDateTime::format` with the RFC 3339 format: the result is a
/// function of the seconds.
#[verifier::external_body]
pub(crate) fn format_rfc3339(secs: i64) -> (r: Option<Option<String>>)
    ensures
        match r {
            Some(Some(text)) => rfc3339_text(secs) == Some(Some(text@)),
            Some(None) => rfc3339_text(secs) == Some(None::<Seq<char>>),
            None => rfc3339_text(secs) is None,
        },
{
    match time::OffsetDateTime::from_unix_timestamp(secs) {
        Ok(t) => Some(t.format(&Rfc3339).ok()),
        Err(_) => None,
    }
}

/// Names how a Unix time is displayed with its offset; nothing where the time is
/// out of the calendar's range.
pub uninterp spec fn datetime_text(secs: i64) -> Option<Seq<char>>;

/// `time::OffsetDateTime::from_unix_timestamp`, then the `Display` form of
/// `time::OffsetDateTime`: the result is a function of the seconds.
#[verifier::external_body]
pub(crate) fn display_datetime(secs: i64) -> (r: Option<String>)
    ensures
        match r {
            Some(text) => datetime_text(secs) == Some(text@),
            None => datetime_text(secs) is None,
        },
{
    match time::OffsetDateTime::from_unix_timestamp(secs) {
        Ok(t) => Some(t.to_string()),
        Err(_) => None,
    }
}

/// `String::from_utf8`: it accepts exactly the byte strings that are valid UTF-8, and
/// the text holds the characters that they encode.
#[verifier::external_body]
pub(crate) fn utf8_string(bytes: Vec<u8>) -> (r: Option<String>)
    ensures
        match r {
            Some(s) => vstd::utf8::valid_utf8(bytes@) && s@ == vstd::utf8::decode_utf8(bytes@),
            None => !vstd::utf8::valid_utf8(bytes@),
        },
{
    String::from_utf8(bytes).ok()
}

/// Names how `serde_json` prints the value that a JSON text stands for; nothing where
/// the text is not JSON.
pub uninterp spec fn json_canonical(text: Seq<char>) -> Option<Seq<char>>;

/// `serde_json::from_str` to a `serde_json::Value`, then the `Display` form of
/// `serde_json::Value`: the result is a function of the text.
#[verifier::external_body]
pub(crate) fn canonical_json(text: &str) -> (r: Option<String>)
    ensures
        match r {
            Some(shown) => json_canonical(text@) == Some(shown@),
            None => json_canonical(text@) is None,
        },
{
    match serde_json::from_str::<serde_json::Value>(text) {
        Ok(value) => Some(value.to_string()),
        Err(_) => None,
    }
}

/// Names the whole number under a name in a JSON text: nothing where the text is not
/// JSON, and nothing within where it is not an object with a whole number there.
pub uninterp spec fn json_u64_in(text: Seq<char>, name: Seq<char>) -> Option<Option<u64>>;

/// The JSON text of an object with one number in it.
pub open spec fn json_number(name: Seq<char>, n: u64) -> Seq<char> {
    "{\""@ + name + "\":"@ + decimal(n as nat) + "}"@
}

/// Whether a name needs no escape in a JSON text: lower-case letters alone.
pub open spec fn plain_name(name: Seq<char>) -> bool {
    forall|i: int| 0 <= i < name.len() ==> 'a' <= #[trigger] name[i] <= 'z'
}

/// `serde_json::from_str` to a `serde_json::Value`, then the value at the name with
/// `serde_json::Value::as_u64`: the result is a function of the text and the name, and
/// an object with one number under a plain name gives that number.
#[verifier::external_body]
pub(crate) fn json_u64_field(text: &str, name: &str) -> (r: Option<Option<u64>>)
    ensures
        r == json_u64_in(text@, name@),
        forall|n: u64|
            plain_name(name@) && text@ == #[trigger] json_number(name@, n) ==> r == Some(Some(n)),
{
    match serde_json::from_str::<serde_json::Value>(text) {
        Ok(value) => Some(value[name].as_u64()),
        Err(_) => None,
    }
}

} // verus!
