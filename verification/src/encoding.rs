//! From bytes to text.
use vstd::prelude::*;

verus! {

/// The text that `String::from_utf8_lossy` makes of bytes that are not valid
/// UTF-8. Which of the bytes one replacement character stands for is left
/// unsaid.
pub uninterp spec fn repaired_text(bytes: Seq<u8>) -> Seq<char>;

/// The text of a byte sequence: what it encodes where it is valid UTF-8, and
/// the repaired text where it is not.
pub open spec fn lossy(bytes: Seq<u8>) -> Seq<char> {
    if vstd::utf8::valid_utf8(bytes) {
        vstd::utf8::decode_utf8(bytes)
    } else {
        repaired_text(bytes)
    }
}

/// Calls `String::from_utf8_lossy`. Valid UTF-8 comes out as the text that it
/// encodes. Of other bytes, the invalid ones are replaced by U+FFFD, so that
/// character occurs in the result.
#[verifier::external_body]
pub(crate) fn decode_lossy(bytes: &[u8]) -> (text: String)
    ensures
        vstd::utf8::valid_utf8(bytes@) ==> text@ == vstd::utf8::decode_utf8(bytes@),
        !vstd::utf8::valid_utf8(bytes@) ==> text@ == repaired_text(bytes@),
        !vstd::utf8::valid_utf8(bytes@) ==> text@.contains('\u{fffd}'),
{
    String::from_utf8_lossy(bytes).into_owned()
}

/// Calls `std::str::from_utf8`, which succeeds exactly on valid UTF-8 and then
/// gives a string slice over the same bytes.
#[verifier::external_body]
pub(crate) fn decode_exact(bytes: &[u8]) -> (text: Option<&str>)
    ensures
        match text {
            Some(s) => vstd::utf8::encode_utf8(s@) == bytes@,
            None => !vstd::utf8::valid_utf8(bytes@),
        },
{
    std::str::from_utf8(bytes).ok()
}

/// The text whose characters have the given bytes as their codes.
pub open spec fn ascii_text(bytes: Seq<u8>) -> Seq<char> {
    bytes.map_values(|b: u8| b as char)
}

pub open spec fn is_ascii_bytes(bytes: Seq<u8>) -> bool {
    forall|i: int| 0 <= i < bytes.len() ==> #[trigger] bytes[i] < 128
}

pub proof fn lemma_ascii_text_encodes(bytes: Seq<u8>)
    requires
        is_ascii_bytes(bytes),
    ensures
        vstd::utf8::encode_utf8(ascii_text(bytes)) == bytes,
{
    let text = ascii_text(bytes);
    assert(vstd::utf8::is_ascii_chars(text)) by {
        assert forall|i: int| 0 <= i < text.len() implies '\0' <= #[trigger] text[i] <= '\u{7f}' by {
            assert(bytes[i] < 128);
        }
    }
    vstd::utf8::is_ascii_chars_encode_utf8(text);
    assert(vstd::utf8::encode_utf8(text) =~= bytes) by {
        assert forall|i: int| 0 <= i < bytes.len() implies #[trigger] vstd::utf8::encode_utf8(
            text,
        )[i] == bytes[i] by {
            assert(bytes[i] < 128);
            assert(text[i] as u8 == bytes[i]);
        }
    }
}

/// The bytes of a text, encoded in UTF-8.
pub fn bytes_of(text: &str) -> (bytes: Vec<u8>)
    ensures
        bytes@ == vstd::utf8::encode_utf8(text@),
{
    vstd::slice::slice_to_vec(text.as_bytes())
}

} // verus!
