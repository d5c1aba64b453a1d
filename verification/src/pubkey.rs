//! Addresses of accounts and nodes.

use vstd::array::spec_array_fill_for_copy_type;
use vstd::prelude::*;
use vstd::std_specs::cmp::PartialEqSpec;
use vstd::std_specs::cmp::PartialEqSpecImpl;

use crate::base58;
use crate::base58::base58_text;
use crate::hash::equal_bytes;

verus! {

pub const PUBKEY_BYTES: usize = 32;

/// A 32-byte public key.
#[derive(Clone, Copy, Debug, PartialOrd, Ord, Hash)]
pub struct Pubkey(pub [u8; 32]);

impl View for Pubkey {
    type V = Seq<u8>;

    open spec fn view(&self) -> Seq<u8> {
        self.0@
    }
}

impl Pubkey {
    /// The key made of all zeroes.
    pub open spec fn spec_default() -> Pubkey {
        Pubkey(spec_array_fill_for_copy_type::<u8, 32>(0))
    }

    /// The key with the given bytes.
    pub fn new(bytes: &[u8]) -> (pubkey: Self)
        requires
            bytes@.len() == 32,
        ensures
            pubkey@ == bytes@,
    {
        let mut key = [0u8;32];
        let mut i: usize = 0;
        while i < 32
            invariant
                i <= 32,
                bytes@.len() == 32,
                forall|j: int| 0 <= j < i ==> key@[j] == bytes@[j],
            decreases 32 - i,
        {
            key[i] = bytes[i];
            i += 1;
        }
        assert(key@ =~= bytes@);
        Pubkey(key)
    }

    pub fn as_bytes(&self) -> (bytes: &[u8])
        ensures
            bytes@ == self@,
    {
        vstd::array::array_as_slice(&self.0)
    }

    /// The base58 text of the key.
    pub fn to_base58(&self) -> (text: String)
        ensures
            text@ == base58_text(self@),
    {
        base58::encode(vstd::array::array_as_slice(&self.0))
    }
}

impl Default for Pubkey {
    fn default() -> (pubkey: Self)
        ensures
            pubkey == Pubkey::spec_default(),
    {
        Pubkey([0u8;32])
    }
}

impl PartialEq for Pubkey {
    fn eq(&self, other: &Self) -> (equal: bool) {
        equal_bytes(&self.0, &other.0)
    }
}

impl PartialEqSpecImpl for Pubkey {
    open spec fn obeys_eq_spec() -> bool {
        true
    }

    open spec fn eq_spec(&self, other: &Self) -> bool {
        *self == *other
    }
}

impl Eq for Pubkey {

}

/// The default key is made of zeroes.
pub proof fn law_default_pubkey_is_zero()
    ensures
        Pubkey::spec_default()@ == Seq::new(32, |i: int| 0u8),
{
    assert(Pubkey::spec_default()@ =~= Seq::new(32, |i: int| 0u8));
}

/// Keys are equal exactly where all of their bytes are.
pub proof fn law_equal_pubkeys_have_equal_bytes(pubkey: Pubkey, other: Pubkey)
    ensures
        PartialEqSpec::eq_spec(&pubkey, &other) <==> pubkey@ == other@,
        pubkey == other <==> pubkey@ == other@,
        pubkey@.len() == 32,
{
    if pubkey@ == other@ {
        assert(pubkey.0 =~= other.0);
    }
}

} // verus!
