//! Conversion where a platform string is text: its bytes are its UTF-8 form,
//! and bytes that are not UTF-8 stand for no string.

use vstd::prelude::*;
use vstd::utf8::*;
use crate::error::EncodingError;
use crate::text::from_utf8;
use crate::text::lemma_longest_prefix_unique;
use crate::text::string_from_utf8;
use crate::text::string_into_bytes;
use crate::text::valid_prefix_len;

verus! {

/// The text that `bytes` stand for, or the first byte behind their longest
/// UTF-8 prefix.
pub open spec fn bytes_to_text(bytes: Seq<u8>) -> Result<Seq<char>, EncodingError> {
    if valid_utf8(bytes) {
        Ok(decode_utf8(bytes))
    } else {
        Err(EncodingError::Byte(bytes[valid_prefix_len(bytes)]))
    }
}

/// The bytes of a text.
pub open spec fn text_to_bytes(text: Seq<char>) -> Seq<u8> {
    encode_utf8(text)
}

/// Reads a platform string from borrowed bytes.
pub fn os_str_from_bytes(string: &[u8]) -> (r: Result<&str, EncodingError>)
    ensures
        match r {
            Ok(text) => bytes_to_text(string@) == Ok::<Seq<char>, EncodingError>(text@),
            Err(e) => bytes_to_text(string@) == Err::<Seq<char>, EncodingError>(e),
        },
{
    match from_utf8(string) {
        Ok(text) => {
            proof {
                encode_utf8_decode_utf8(text@);
            }
            Ok(text)
        },
        Err(defect) => {
            proof {
                lemma_longest_prefix_unique(string@, defect.valid_up_to as int);
                if defect.valid_up_to == string@.len() {
                    assert(string@.subrange(0, string@.len() as int) =~= string@);
                }
            }
            Err(EncodingError::Byte(string[defect.valid_up_to]))
        },
    }
}

/// The bytes of a borrowed platform string.
pub fn os_str_to_bytes(string: &str) -> (r: &[u8])
    ensures
        r@ == text_to_bytes(string@),
{
    string.as_bytes()
}

/// Reads a platform string from owned bytes.
pub fn os_string_from_vec(string: Vec<u8>) -> (r: Result<String, EncodingError>)
    ensures
        match r {
            Ok(text) => bytes_to_text(string@) == Ok::<Seq<char>, EncodingError>(text@),
            Err(e) => bytes_to_text(string@) == Err::<Seq<char>, EncodingError>(e),
        },
{
    match string_from_utf8(string) {
        Ok(text) => {
            proof {
                encode_utf8_decode_utf8(text@);
            }
            Ok(text)
        },
        Err((bytes, defect)) => {
            proof {
                lemma_longest_prefix_unique(bytes@, defect.valid_up_to as int);
                if defect.valid_up_to == bytes@.len() {
                    assert(bytes@.subrange(0, bytes@.len() as int) =~= bytes@);
                }
            }
            Err(EncodingError::Byte(bytes[defect.valid_up_to]))
        },
    }
}

/// The bytes of an owned platform string.
pub fn os_string_into_vec(string: String) -> (r: Vec<u8>)
    ensures
        r@ == text_to_bytes(string@),
{
    string_into_bytes(string)
}

/// Reading the bytes of a text gives the text back.
pub proof fn lemma_round_trip(text: Seq<char>)
    ensures
        bytes_to_text(text_to_bytes(text)) == Ok::<Seq<char>, EncodingError>(text),
{
    encode_utf8_valid_utf8(text);
    encode_utf8_decode_utf8(text);
}

/// Where bytes can be read as text, the bytes of that text are the same
/// bytes.
pub proof fn lemma_partial_round_trip(bytes: Seq<u8>)
    ensures
        bytes_to_text(bytes) matches Ok(text) ==> text_to_bytes(text) == bytes,
{
    if valid_utf8(bytes) {
        decode_utf8_encode_utf8(bytes);
    }
}

} // verus!
