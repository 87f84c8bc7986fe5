//! Strings and the bytes that they are made of.
use vstd::prelude::*;
use vstd::utf8::{
    encode_utf8, encode_utf8_decode_utf8, encode_utf8_valid_utf8, is_ascii_chars,
    is_ascii_chars_encode_utf8, valid_utf8,
};

verus! {

/// The bytes of a string.
pub open spec fn text_bytes(text: String) -> Seq<u8> {
    encode_utf8(text@)
}

/// `String::from_utf8`: the string with these bytes, if they are valid UTF-8; the bytes are
/// kept as they are.
#[verifier::external_body]
fn string_from_utf8(bytes: Vec<u8>) -> (r: Option<String>)
    ensures
        match r {
            Some(text) => valid_utf8(bytes@) && encode_utf8(text@) == bytes@,
            None => !valid_utf8(bytes@),
        },
{
    String::from_utf8(bytes).ok()
}

/// `core::str::from_utf8`: the same for borrowed bytes.
#[verifier::external_body]
pub(crate) fn str_from_utf8(bytes: &[u8]) -> (r: Option<&str>)
    ensures
        match r {
            Some(text) => valid_utf8(bytes@) && encode_utf8(text@) == bytes@,
            None => !valid_utf8(bytes@),
        },
{
    core::str::from_utf8(bytes).ok()
}

/// All bytes are ASCII.
pub open spec fn ascii(bytes: Seq<u8>) -> bool {
    forall|i: int| 0 <= i < bytes.len() ==> #[trigger] bytes[i] < 0x80
}

/// ASCII bytes are valid UTF-8.
proof fn lemma_ascii_is_utf8(bytes: Seq<u8>)
    requires
        ascii(bytes),
    ensures
        valid_utf8(bytes),
{
    let chars = Seq::new(bytes.len(), |i: int| bytes[i] as char);
    assert(is_ascii_chars(chars));
    is_ascii_chars_encode_utf8(chars);
    assert(encode_utf8(chars) =~= bytes);
    encode_utf8_valid_utf8(chars);
}

/// The string with these bytes.
pub fn ascii_string(bytes: Vec<u8>) -> (text: String)
    requires
        ascii(bytes@),
    ensures
        text_bytes(text) == bytes@,
{
    proof {
        lemma_ascii_is_utf8(bytes@);
    }
    match string_from_utf8(bytes) {
        Some(text) => text,
        None => String::new(),
    }
}

/// The string slice with these bytes.
pub fn ascii_str(bytes: &[u8]) -> (text: &str)
    requires
        ascii(bytes@),
    ensures
        encode_utf8(text@) == bytes@,
{
    proof {
        lemma_ascii_is_utf8(bytes@);
    }
    match str_from_utf8(bytes) {
        Some(text) => text,
        None => "",
    }
}

} // verus!
