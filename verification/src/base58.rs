//! Bytes as base58 text.

use vstd::prelude::*;

verus! {

/// The text that `bs58::encode` gives for bytes.
pub uninterp spec fn base58_text(bytes: Seq<u8>) -> Seq<char>;

/// The bytes that `bs58::decode` gives for a text, if it gives any.
pub uninterp spec fn base58_bytes(text: Seq<char>) -> Option<Seq<u8>>;

/// The characters of the alphabet: ASCII letters and digits but for those that are easily
/// mistaken for each other.
pub open spec fn is_base58(c: char) -> bool {
    ('1' <= c <= '9' || 'A' <= c <= 'Z' || 'a' <= c <= 'z') && c != 'I' && c != 'O' && c != 'l'
}

/// `bs58::encode` into a string: a text for the bytes over the base58 alphabet, empty only for
/// no bytes, from which decoding gives the bytes back.
#[verifier::external_body]
pub(crate) fn encode(bytes: &[u8]) -> (text: String)
    ensures
        text@ == base58_text(bytes@),
        base58_bytes(text@) == Some(bytes@),
        forall|i: int| 0 <= i < text@.len() ==> is_base58(#[trigger] text@[i]),
        bytes@.len() > 0 ==> text@.len() > 0,
{
    bs58::encode(bytes).into_string()
}

/// `bs58::decode` into a vector: the bytes for a text, which there are exactly for texts over
/// the base58 alphabet.
#[verifier::external_body]
pub(crate) fn decode(text: &str) -> (bytes: Option<Vec<u8>>)
    ensures
        match bytes {
            Some(bytes) => base58_bytes(text@) == Some(bytes@),
            None => base58_bytes(text@) is None,
        },
        bytes is Some <==> forall|i: int| 0 <= i < text@.len() ==> is_base58(#[trigger] text@[i]),
{
    bs58::decode(text).into_vec().ok()
}

} // verus!
