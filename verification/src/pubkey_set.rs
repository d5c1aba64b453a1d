//! Sets of public keys.

use vstd::prelude::*;

use crate::byte_map::ByteMap;
use crate::byte_map::Key32;
use crate::pubkey::Pubkey;

verus! {

/// A set of public keys.
#[derive(Debug)]
pub struct PubkeySet {
    keys: ByteMap<Key32, ()>,
}

impl View for PubkeySet {
    type V = Set<Seq<u8>>;

    closed spec fn view(&self) -> Set<Seq<u8>> {
        self.keys@.dom()
    }
}

impl PubkeySet {
    pub fn new() -> (set: Self)
        ensures
            set@ == Set::<Seq<u8>>::empty(),
    {
        let set = PubkeySet { keys: ByteMap::new() };
        assert(set@ =~= Set::empty());
        set
    }

    /// The set of the keys in a list.
    pub fn from_keys(keys: &Vec<Pubkey>) -> (set: Self)
        ensures
            forall|bytes: Seq<u8>| #[trigger]
                set@.contains(bytes) <==> exists|i: int|
                    0 <= i < keys@.len() && (#[trigger] keys@[i])@ == bytes,
    {
        let mut set = PubkeySet::new();
        let mut i: usize = 0;
        while i < keys.len()
            invariant
                i <= keys@.len(),
                forall|bytes: Seq<u8>| #[trigger]
                    set@.contains(bytes) <==> exists|j: int|
                        0 <= j < i && (#[trigger] keys@[j])@ == bytes,
            decreases keys@.len() - i,
        {
            let ghost before = set@;
            set.insert(&keys[i]);
            proof {
                assert forall|bytes: Seq<u8>| #[trigger]
                    set@.contains(bytes) <==> exists|j: int|
                        0 <= j < i + 1 && (#[trigger] keys@[j])@ == bytes by {
                    if bytes == keys@[i as int]@ {
                        assert(keys@[i as int]@ == bytes);
                    } else if before.contains(bytes) {
                        let j = choose|j: int| 0 <= j < i && (#[trigger] keys@[j])@ == bytes;
                        assert(keys@[j]@ == bytes);
                    }
                }
            }
            i += 1;
        }
        set
    }

    pub fn contains(&self, pubkey: &Pubkey) -> (contained: bool)
        ensures
            contained == self@.contains(pubkey@),
    {
        self.keys.get(&pubkey.0).is_some()
    }

    pub fn insert(&mut self, pubkey: &Pubkey)
        ensures
            final(self)@ == old(self)@.insert(pubkey@),
    {
        self.keys.insert(&pubkey.0, ());
        assert(self@ =~= old(self)@.insert(pubkey@));
    }

    pub fn clear(&mut self)
        ensures
            final(self)@ == Set::<Seq<u8>>::empty(),
    {
        self.keys = ByteMap::new();
        assert(self@ =~= Set::empty());
    }
}

} // verus!
