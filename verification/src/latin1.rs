//! ISO-8859-1, the encoding of the country files: every byte is the
//! character with the same number.

use vstd::prelude::*;
use encoding::all::ISO_8859_1;
use encoding::{DecoderTrap, EncoderTrap, Encoding};

verus! {

/// The text that ISO-8859-1 bytes stand for.
pub open spec fn latin1_text(bytes: Seq<u8>) -> Seq<char> {
    Seq::new(bytes.len(), |i: int| bytes[i] as char)
}

/// Whether ISO-8859-1 has a byte for every character of `text`.
pub open spec fn is_latin1(text: Seq<char>) -> bool {
    forall|i: int| 0 <= i < text.len() ==> (#[trigger] text[i]) as u32 <= 0xff
}

/// The ISO-8859-1 bytes of a text that `is_latin1`.
pub open spec fn latin1_bytes(text: Seq<char>) -> Seq<u8> {
    Seq::new(text.len(), |i: int| text[i] as u8)
}

/// Calls `decode` of `encoding::all::ISO_8859_1` with the strict trap.
///
/// Trusted: the decoder turns each byte into the character with the same
/// number and has no invalid byte, so that the call always succeeds.
#[verifier::external_body]
pub(crate) fn decode_latin1(bytes: &[u8]) -> (text: Option<Vec<char>>)
    ensures
        text is Some,
        text->0@ == latin1_text(bytes@),
{
    ISO_8859_1.decode(bytes, DecoderTrap::Strict).ok().map(|s| s.chars().collect())
}

/// Calls `encode` of `encoding::all::ISO_8859_1` with the strict trap.
///
/// Trusted: the encoder turns each character up to U+00FF into the byte with
/// the same number, and fails on the first character beyond U+00FF.
#[verifier::external_body]
pub(crate) fn encode_latin1(text: &[char]) -> (bytes: Option<Vec<u8>>)
    ensures
        bytes is Some <==> is_latin1(text@),
        bytes is Some ==> bytes->0@ == latin1_bytes(text@),
{
    let s: String = text.iter().collect();
    ISO_8859_1.encode(&s, EncoderTrap::Strict).ok()
}

/// Decoding and encoding again gives the bytes back.
pub proof fn lemma_latin1_round_trip(bytes: Seq<u8>)
    ensures
        is_latin1(latin1_text(bytes)),
        latin1_bytes(latin1_text(bytes)) == bytes,
{
    assert forall|i: int| 0 <= i < bytes.len() implies (#[trigger] latin1_text(bytes)[i]) as u32
        <= 0xff && latin1_text(bytes)[i] as u8 == bytes[i] by {
        lemma_byte_as_char(bytes[i]);
    }
    assert(latin1_bytes(latin1_text(bytes)) =~= bytes);
}

/// A byte taken as a character keeps its number.
pub proof fn lemma_byte_as_char(b: u8)
    ensures
        (b as char) as u32 == b,
        (b as char) as u8 == b,
{
}

} // verus!
