//! Fixed-size digests.

use vstd::prelude::*;
use vstd::std_specs::cmp::PartialEqSpec;
use vstd::std_specs::cmp::PartialEqSpecImpl;

use crate::base58;
use crate::base58::base58_bytes;
use crate::base58::base58_text;
use crate::base58::is_base58;

verus! {

pub const HASH_BYTES: usize = 32;

/// A 32-byte digest.
#[derive(Clone, Copy, Debug, PartialOrd, Ord, Hash)]
pub struct Hash(pub [u8; 32]);

impl View for Hash {
    type V = Seq<u8>;

    open spec fn view(&self) -> Seq<u8> {
        self.0@
    }
}

/// Whether two arrays hold the same bytes.
pub fn equal_bytes<const N: usize>(left: &[u8; N], right: &[u8; N]) -> (equal: bool)
    ensures
        equal == (left@ == right@),
        equal == (*left == *right),
{
    let mut i: usize = 0;
    while i < N
        invariant
            i <= N,
            forall|j: int| 0 <= j < i ==> left@[j] == right@[j],
        decreases N - i,
    {
        if left[i] != right[i] {
            assert(left@[i as int] != right@[i as int]);
            return false;
        }
        i += 1;
    }
    assert(left@ =~= right@);
    assert(*left =~= *right);
    true
}

impl Default for Hash {
    fn default() -> (hash: Self)
        ensures
            hash@ == Seq::new(32, |i: int| 0u8),
    {
        let hash = Hash([0u8;32]);
        assert(hash@ =~= Seq::new(32, |i: int| 0u8));
        hash
    }
}

impl PartialEq for Hash {
    fn eq(&self, other: &Self) -> (equal: bool) {
        equal_bytes(&self.0, &other.0)
    }
}

impl PartialEqSpecImpl for Hash {
    open spec fn obeys_eq_spec() -> bool {
        true
    }

    open spec fn eq_spec(&self, other: &Self) -> bool {
        *self == *other
    }
}

impl Eq for Hash {

}

/// Why a text is not a hash.
#[derive(Clone, Copy, Debug, PartialEq, Eq, Structural)]
pub enum ParseHashError {
    WrongSize,
    Invalid,
}

/// The hash that a text stands for.
pub open spec fn parse_hash(text: Seq<char>) -> Result<Seq<u8>, ParseHashError> {
    match base58_bytes(text) {
        None => Err(ParseHashError::Invalid),
        Some(bytes) => if bytes.len() == 32 {
            Ok(bytes)
        } else {
            Err(ParseHashError::WrongSize)
        },
    }
}

impl Hash {
    /// The hash with the given bytes.
    pub fn new(bytes: &[u8]) -> (hash: Self)
        requires
            bytes@.len() == 32,
        ensures
            hash@ == bytes@,
    {
        let mut copy = [0u8;32];
        let mut i: usize = 0;
        while i < 32
            invariant
                i <= 32,
                bytes@.len() == 32,
                forall|j: int| 0 <= j < i ==> copy@[j] == bytes@[j],
            decreases 32 - i,
        {
            copy[i] = bytes[i];
            i += 1;
        }
        assert(copy@ =~= bytes@);
        Hash(copy)
    }

    /// Reads a hash from its base58 text.
    pub fn parse(text: &str) -> (hash: Result<Self, ParseHashError>)
        ensures
            match (hash, parse_hash(text@)) {
                (Ok(hash), Ok(bytes)) => hash@ == bytes,
                (Err(err), Err(expected)) => err == expected,
                _ => false,
            },
    {
        match base58::decode(text) {
            None => Err(ParseHashError::Invalid),
            Some(bytes) => {
                if bytes.len() != HASH_BYTES {
                    Err(ParseHashError::WrongSize)
                } else {
                    Ok(Hash::new(bytes.as_slice()))
                }
            },
        }
    }

    /// The base58 text of the hash, from which it can be read again.
    pub fn to_base58(&self) -> (text: String)
        ensures
            text@ == base58_text(self@),
            parse_hash(text@) == Ok::<Seq<u8>, ParseHashError>(self@),
            text@.len() > 0,
            forall|i: int| 0 <= i < text@.len() ==> is_base58(#[trigger] text@[i]),
    {
        base58::encode(vstd::array::array_as_slice(&self.0))
    }
}

/// A text stands for a hash exactly where it is the base58 text of 32 bytes, and then for these;
/// base58 of any other length has the wrong size, and anything else is not valid.
pub proof fn law_hash_is_base58_of_its_bytes(text: Seq<char>, bytes: Seq<u8>)
    ensures
        parse_hash(text) == Ok::<Seq<u8>, ParseHashError>(bytes) <==> base58_bytes(text) == Some(
            bytes,
        ) && bytes.len() == 32,
        parse_hash(text) == Err::<Seq<u8>, ParseHashError>(ParseHashError::WrongSize) <==> (
        base58_bytes(text) matches Some(other) && other.len() != 32),
        parse_hash(text) == Err::<Seq<u8>, ParseHashError>(ParseHashError::Invalid)
            <==> base58_bytes(text) is None,
{
}

/// Hashes are equal exactly where all of their bytes are.
pub proof fn law_equal_hashes_have_equal_bytes(hash: crate::hash::Hash, other: crate::hash::Hash)
    ensures
        PartialEqSpec::eq_spec(&hash, &other) <==> hash@ == other@,
        hash == other <==> hash@ == other@,
        hash@.len() == 32,
{
    if hash@ == other@ {
        assert(hash.0 =~= other.0);
    }
}

} // verus!
