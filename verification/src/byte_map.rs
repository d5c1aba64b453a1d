//! Ordered maps keyed by byte strings of a fixed length.

use std::collections::BTreeMap;

use vstd::bytes::lemma_auto_spec_u128_to_from_le_bytes;
use vstd::bytes::lemma_auto_spec_u32_to_from_le_bytes;
use vstd::bytes::spec_u128_from_le_bytes;
use vstd::bytes::spec_u128_to_le_bytes;
use vstd::bytes::spec_u32_from_le_bytes;
use vstd::bytes::spec_u32_to_le_bytes;
use vstd::bytes::u128_from_le_bytes;
use vstd::bytes::u32_from_le_bytes;
use vstd::laws_cmp::group_laws_cmp;
use vstd::laws_cmp::obeys_cmp;
use vstd::prelude::*;
use vstd::slice::slice_subrange;
use vstd::std_specs::btree::axiom_key_obeys_cmp_spec_meaning;
use vstd::std_specs::iter::IteratorSpec;

verus! {

/// An integer form of byte strings of one length.
pub trait ByteKey: Ord + Sized {
    /// Length of the byte strings.
    spec fn spec_width() -> nat;

    spec fn spec_from_bytes(bytes: Seq<u8>) -> Self;

    spec fn spec_to_bytes(self) -> Seq<u8>;

    /// The integer form is ordered as its integers are.
    proof fn lemma_obeys()
        ensures
            obeys_cmp::<Self>(),
    ;

    /// Each byte string has its own integer form.
    proof fn lemma_round_trip(bytes: Seq<u8>)
        requires
            bytes.len() == Self::spec_width(),
        ensures
            Self::spec_from_bytes(bytes).spec_to_bytes() == bytes,
    ;

    /// Each integer form belongs to a byte string.
    proof fn lemma_round_trip_back(key: Self)
        ensures
            key.spec_to_bytes().len() == Self::spec_width(),
            Self::spec_from_bytes(key.spec_to_bytes()) == key,
    ;

    fn from_bytes(bytes: &[u8]) -> (key: Self)
        requires
            bytes@.len() == Self::spec_width(),
        ensures
            key == Self::spec_from_bytes(bytes@),
    ;

    fn duplicate(&self) -> (key: Self)
        ensures
            key == *self,
    ;
}

/// Keys of 32 bytes.
pub type Key32 = (u128, u128);

/// Keys of 20 bytes.
pub type Key20 = (u128, u32);

impl ByteKey for (u128, u128) {
    open spec fn spec_width() -> nat {
        32
    }

    open spec fn spec_from_bytes(bytes: Seq<u8>) -> Self {
        (
            spec_u128_from_le_bytes(bytes.subrange(0, 16)),
            spec_u128_from_le_bytes(bytes.subrange(16, 32)),
        )
    }

    open spec fn spec_to_bytes(self) -> Seq<u8> {
        spec_u128_to_le_bytes(self.0) + spec_u128_to_le_bytes(self.1)
    }

    proof fn lemma_obeys() {
        broadcast use group_laws_cmp;

    }

    proof fn lemma_round_trip(bytes: Seq<u8>) {
        lemma_auto_spec_u128_to_from_le_bytes();
        assert(bytes.subrange(0, 16) + bytes.subrange(16, 32) =~= bytes);
    }

    proof fn lemma_round_trip_back(key: Self) {
        lemma_auto_spec_u128_to_from_le_bytes();
        let bytes = key.spec_to_bytes();
        assert(bytes.subrange(0, 16) =~= spec_u128_to_le_bytes(key.0));
        assert(bytes.subrange(16, 32) =~= spec_u128_to_le_bytes(key.1));
    }

    fn from_bytes(bytes: &[u8]) -> (key: Self) {
        (
            u128_from_le_bytes(slice_subrange(bytes, 0, 16)),
            u128_from_le_bytes(slice_subrange(bytes, 16, 32)),
        )
    }

    fn duplicate(&self) -> (key: Self) {
        (self.0, self.1)
    }
}

impl ByteKey for (u128, u32) {
    open spec fn spec_width() -> nat {
        20
    }

    open spec fn spec_from_bytes(bytes: Seq<u8>) -> Self {
        (
            spec_u128_from_le_bytes(bytes.subrange(0, 16)),
            spec_u32_from_le_bytes(bytes.subrange(16, 20)),
        )
    }

    open spec fn spec_to_bytes(self) -> Seq<u8> {
        spec_u128_to_le_bytes(self.0) + spec_u32_to_le_bytes(self.1)
    }

    proof fn lemma_obeys() {
        broadcast use group_laws_cmp;

    }

    proof fn lemma_round_trip(bytes: Seq<u8>) {
        lemma_auto_spec_u128_to_from_le_bytes();
        lemma_auto_spec_u32_to_from_le_bytes();
        assert(bytes.subrange(0, 16) + bytes.subrange(16, 20) =~= bytes);
    }

    proof fn lemma_round_trip_back(key: Self) {
        lemma_auto_spec_u128_to_from_le_bytes();
        lemma_auto_spec_u32_to_from_le_bytes();
        let bytes = key.spec_to_bytes();
        assert(bytes.subrange(0, 16) =~= spec_u128_to_le_bytes(key.0));
        assert(bytes.subrange(16, 20) =~= spec_u32_to_le_bytes(key.1));
    }

    fn from_bytes(bytes: &[u8]) -> (key: Self) {
        (
            u128_from_le_bytes(slice_subrange(bytes, 0, 16)),
            u32_from_le_bytes(slice_subrange(bytes, 16, 20)),
        )
    }

    fn duplicate(&self) -> (key: Self) {
        (self.0, self.1)
    }
}

/// A map from byte strings of one length to values.
#[derive(Clone, Debug)]
pub struct ByteMap<K: ByteKey, V> {
    entries: BTreeMap<K, V>,
}

impl<K: ByteKey, V> View for ByteMap<K, V> {
    type V = Map<Seq<u8>, V>;

    closed spec fn view(&self) -> Map<Seq<u8>, V> {
        Map::new(
            |bytes: Seq<u8>|
                bytes.len() == K::spec_width() && self.entries@.contains_key(
                    K::spec_from_bytes(bytes),
                ),
            |bytes: Seq<u8>| self.entries@[K::spec_from_bytes(bytes)],
        )
    }
}

impl<K: ByteKey, V> ByteMap<K, V> {
    pub fn new() -> (map: Self)
        ensures
            map@ == Map::<Seq<u8>, V>::empty(),
    {
        let map = ByteMap { entries: BTreeMap::new() };
        assert(map@ =~= Map::<Seq<u8>, V>::empty());
        map
    }

    proof fn lemma_integer_key(&self, key: K)
        ensures
            self@.contains_key(key.spec_to_bytes()) == self.entries@.contains_key(key),
            self@.contains_key(key.spec_to_bytes()) ==> self@[key.spec_to_bytes()]
                == self.entries@[key],
    {
        K::lemma_round_trip_back(key);
    }

    pub fn get(&self, bytes: &[u8]) -> (value: Option<&V>)
        requires
            bytes@.len() == K::spec_width(),
        ensures
            match value {
                Some(v) => self@.contains_key(bytes@) && *v == self@[bytes@],
                None => !self@.contains_key(bytes@),
            },
    {
        proof {
            K::lemma_obeys();
        }
        let key = K::from_bytes(bytes);
        self.entries.get(&key)
    }

    /// The value of a key in its integer form.
    pub fn get_key(&self, key: &K) -> (value: Option<&V>)
        ensures
            match value {
                Some(v) => self@.contains_key(key.spec_to_bytes()) && *v
                    == self@[key.spec_to_bytes()],
                None => !self@.contains_key(key.spec_to_bytes()),
            },
    {
        proof {
            K::lemma_obeys();
            self.lemma_integer_key(*key);
        }
        self.entries.get(key)
    }

    pub fn insert(&mut self, bytes: &[u8], value: V)
        requires
            bytes@.len() == K::spec_width(),
        ensures
            final(self)@ == old(self)@.insert(bytes@, value),
    {
        proof {
            K::lemma_obeys();
        }
        let key = K::from_bytes(bytes);
        self.entries.insert(key, value);
        proof {
            assert forall|b: Seq<u8>| b.len() == K::spec_width() && K::spec_from_bytes(b) == key
                implies b == bytes@ by {
                K::lemma_round_trip(b);
                K::lemma_round_trip(bytes@);
            }
            assert(self@ =~= old(self)@.insert(bytes@, value));
        }
    }

    /// Replaces the value of a key in its integer form.
    pub fn insert_key(&mut self, key: K, value: V)
        ensures
            final(self)@ == old(self)@.insert(key.spec_to_bytes(), value),
    {
        proof {
            K::lemma_obeys();
            K::lemma_round_trip_back(key);
        }
        self.entries.insert(key, value);
        proof {
            assert forall|b: Seq<u8>| b.len() == K::spec_width() && K::spec_from_bytes(b) == key
                implies b == key.spec_to_bytes() by {
                K::lemma_round_trip(b);
            }
            assert(self@ =~= old(self)@.insert(key.spec_to_bytes(), value));
        }
    }

    /// Removes a key in its integer form.
    pub fn remove_key(&mut self, key: &K) -> (value: Option<V>)
        ensures
            final(self)@ == old(self)@.remove(key.spec_to_bytes()),
            match value {
                Some(v) => old(self)@.contains_key(key.spec_to_bytes()) && v == old(
                    self,
                )@[key.spec_to_bytes()],
                None => !old(self)@.contains_key(key.spec_to_bytes()),
            },
    {
        proof {
            K::lemma_obeys();
            self.lemma_integer_key(*key);
            K::lemma_round_trip_back(*key);
        }
        let value = self.entries.remove(key);
        proof {
            assert forall|b: Seq<u8>| b.len() == K::spec_width() && K::spec_from_bytes(b) == *key
                implies b == key.spec_to_bytes() by {
                K::lemma_round_trip(b);
            }
            assert(self@ =~= old(self)@.remove(key.spec_to_bytes()));
        }
        value
    }

    pub fn remove(&mut self, bytes: &[u8]) -> (value: Option<V>)
        requires
            bytes@.len() == K::spec_width(),
        ensures
            final(self)@ == old(self)@.remove(bytes@),
            match value {
                Some(v) => old(self)@.contains_key(bytes@) && v == old(self)@[bytes@],
                None => !old(self)@.contains_key(bytes@),
            },
    {
        proof {
            K::lemma_round_trip(bytes@);
        }
        let key = K::from_bytes(bytes);
        self.remove_key(&key)
    }

    pub fn is_empty(&self) -> (empty: bool)
        ensures
            empty == (self@ == Map::<Seq<u8>, V>::empty()),
    {
        proof {
            if self.entries@.dom().is_empty() {
                assert(self@ =~= Map::<Seq<u8>, V>::empty());
            } else {
                let key = self.entries@.dom().choose();
                self.lemma_integer_key(key);
            }
        }
        self.entries.is_empty()
    }

    /// The keys in their integer form, in ascending order.
    pub fn keys(&self) -> (keys: Vec<K>)
        ensures
            keys@.no_duplicates(),
            forall|i: int|
                0 <= i < keys@.len() ==> self@.contains_key((#[trigger] keys@[i]).spec_to_bytes()),
            forall|bytes: Seq<u8>| #[trigger]
                self@.contains_key(bytes) ==> keys@.contains(K::spec_from_bytes(bytes))
                    && K::spec_from_bytes(bytes).spec_to_bytes() == bytes,
    {
        proof {
            K::lemma_obeys();
        }
        broadcast use axiom_key_obeys_cmp_spec_meaning;

        let ghost all = IteratorSpec::remaining(&self.entries.keys()).unref();
        let mut keys: Vec<K> = Vec::new();
        for key in iter: self.entries.keys()
            invariant
                keys@.len() == iter.index(),
                iter.index() <= iter.seq().len(),
                iter.seq().unref() == all,
                forall|i: int| 0 <= i < keys@.len() ==> #[trigger] keys@[i] == *iter.seq()[i],
        {
            keys.push(key.duplicate());
        }
        proof {
            assert(keys@ =~= all);
            assert forall|i: int| 0 <= i < keys@.len() implies self@.contains_key(
                (#[trigger] keys@[i]).spec_to_bytes(),
            ) by {
                assert(all.to_set().contains(keys@[i]));
                self.lemma_integer_key(keys@[i]);
            }
            assert forall|bytes: Seq<u8>| #[trigger] self@.contains_key(bytes) implies keys@.contains(
                K::spec_from_bytes(bytes),
            ) && K::spec_from_bytes(bytes).spec_to_bytes() == bytes by {
                K::lemma_round_trip(bytes);
                assert(all.to_set().contains(K::spec_from_bytes(bytes)));
            }
        }
        keys
    }
}

} // verus!
