//! The encodings that the records pass through: Zstandard for the stored
//! values, JSON for the lines they were built from, UTF-8 for text.
//!
//! None of them is implemented here. Each function below calls the crate
//! that implements it, and its contract names the result of that call:
//! the same bytes always give the same result. Of the two that write, it
//! is claimed besides that what they write is read back as what it was
//! written from.

use vstd::prelude::*;
use vstd::string::StrSliceExecFns;
use vstd::string::StringSliceAdditionalSpecFns;
use vstd::utf8::valid_utf8;

verus! {

/// What `zstd::stream::decode_all` makes of `data`: the decompressed
/// bytes, or `None` where `data` is no Zstandard frame.
pub uninterp spec fn zstd_decode(data: Seq<u8>) -> Option<Seq<u8>>;

/// What `zstd::stream::encode_all` makes of `data` at this level: the
/// Zstandard frame, or `None` where the compressor fails.
pub uninterp spec fn zstd_encode(data: Seq<u8>, level: i32) -> Option<Seq<u8>>;

/// The string that `serde_json` finds in the JSON document `doc` under the
/// JSON pointer `pointer`. `None` where `doc` is no JSON, where the pointer
/// leads nowhere, and where it leads to something that is no string.
pub uninterp spec fn json_pointer_str(doc: Seq<u8>, pointer: Seq<char>) -> Option<Seq<char>>;

/// The string that `serde_json` finds in the JSON document `doc` in the
/// member `name` of its top-level object. `None` where `doc` is no JSON
/// object, where it has no such member, and where the member is no string.
pub uninterp spec fn json_field_str(doc: Seq<u8>, name: Seq<char>) -> Option<Seq<char>>;

/// The text of the JSON string literal `literal` as `serde_json` reads it,
/// or `None` where `literal` is no JSON string literal.
pub uninterp spec fn json_string_decode(literal: Seq<u8>) -> Option<Seq<char>>;

/// The JSON string literal that `serde_json` writes for `text`. It writes
/// one for every text, so this is never `None`.
pub uninterp spec fn json_string_encode(text: Seq<char>) -> Option<Seq<u8>>;

/// The string found in the JSON document `doc` under `name`: under the
/// JSON pointer `name` if it starts with a slash, in the member `name` of
/// the top-level object otherwise.
pub open spec fn json_lookup(doc: Seq<u8>, name: Seq<char>) -> Option<Seq<char>> {
    if name.len() > 0 && name[0] == '/' {
        json_pointer_str(doc, name)
    } else {
        json_field_str(doc, name)
    }
}

/// `zstd::stream::decode_all` on a slice.
#[verifier::external_body]
pub(crate) fn decompress(data: &[u8]) -> (r: Option<Vec<u8>>)
    ensures
        match r {
            Some(bytes) => zstd_decode(data@) == Some(bytes@),
            None => zstd_decode(data@) is None,
        },
{
    zstd::stream::decode_all(data).ok()
}

/// `zstd::stream::encode_all` on a slice. What it writes,
/// `zstd::stream::decode_all` reads back as the same bytes.
#[verifier::external_body]
pub(crate) fn compress(data: &[u8], level: i32) -> (r: Option<Vec<u8>>)
    ensures
        match r {
            Some(bytes) => zstd_encode(data@, level) == Some(bytes@) && zstd_decode(bytes@)
                == Some(data@),
            None => zstd_encode(data@, level) is None,
        },
{
    zstd::stream::encode_all(data, level).ok()
}

/// `serde_json::Value::pointer` on the document parsed from `doc`.
#[verifier::external_body]
pub(crate) fn json_pointer_text(doc: &[u8], pointer: &str) -> (r: Option<String>)
    ensures
        match r {
            Some(text) => json_pointer_str(doc@, pointer@) == Some(text@),
            None => json_pointer_str(doc@, pointer@) is None,
        },
{
    let value: serde_json::Value = serde_json::from_slice(doc).ok()?;
    value.pointer(pointer)?.as_str().map(String::from)
}

/// `serde_json::Value::get` on the document parsed from `doc`.
#[verifier::external_body]
pub(crate) fn json_field_text(doc: &[u8], name: &str) -> (r: Option<String>)
    ensures
        match r {
            Some(text) => json_field_str(doc@, name@) == Some(text@),
            None => json_field_str(doc@, name@) is None,
        },
{
    let value: serde_json::Value = serde_json::from_slice(doc).ok()?;
    value.get(name)?.as_str().map(String::from)
}

/// The string found in the JSON document `doc` under `name`, which is a
/// JSON pointer if it starts with a slash and the name of a member of the
/// top-level object otherwise.
pub fn lookup_text(doc: &[u8], name: &str) -> (r: Option<String>)
    ensures
        match r {
            Some(text) => json_lookup(doc@, name@) == Some(text@),
            None => json_lookup(doc@, name@) is None,
        },
{
    if name.unicode_len() > 0 && name.get_char(0) == '/' {
        json_pointer_text(doc, name)
    } else {
        json_field_text(doc, name)
    }
}

/// `serde_json::from_slice` to a `String`.
#[verifier::external_body]
pub(crate) fn read_json_string(literal: &[u8]) -> (r: Option<String>)
    ensures
        match r {
            Some(text) => json_string_decode(literal@) == Some(text@),
            None => json_string_decode(literal@) is None,
        },
{
    serde_json::from_slice::<String>(literal).ok()
}

/// `serde_json::to_vec` on a string slice. It writes to memory and text
/// can always be written, so it does not fail. What it writes,
/// `serde_json` reads back as the same text.
#[verifier::external_body]
pub(crate) fn write_json_string(text: &str) -> (r: Option<Vec<u8>>)
    ensures
        r is Some,
        match r {
            Some(literal) => json_string_encode(text@) == Some(literal@) && json_string_decode(
                literal@,
            ) == Some(text@),
            None => json_string_encode(text@) is None,
        },
{
    serde_json::to_vec(text).ok()
}

/// `std::str::from_utf8`: the bytes as text, where they are UTF-8.
#[verifier::external_body]
pub(crate) fn text_of(bytes: &[u8]) -> (r: Option<&str>)
    ensures
        r is Some == valid_utf8(bytes@),
        r matches Some(text) ==> text.spec_bytes() == bytes@,
{
    std::str::from_utf8(bytes).ok()
}

/// `String::push`.
#[verifier::external_body]
pub(crate) fn push_char(text: &mut String, c: char)
    ensures
        final(text)@ == old(text)@.push(c),
{
    text.push(c)
}

} // verus!
