//! Helpers for collections of the standard library.

use std::collections::HashMap;
use std::sync::Arc;

use vstd::prelude::*;
use vstd::std_specs::iter::IteratorSpec;

use crate::clock::Slot;

verus! {

/// `Arc::clone` of the standard library: a pointer to the same value.
#[verifier::external_body]
pub(crate) fn share<T>(value: &Arc<T>) -> (shared: Arc<T>)
    ensures
        shared == *value,
{
    value.clone()
}

/// The slots of a map, in the order it is walked.
pub(crate) fn slots_of<V>(map: &HashMap<Slot, V>) -> (slots: Vec<Slot>)
    ensures
        slots@.no_duplicates(),
        slots@.to_set() == map@.dom(),
{
    let mut slots: Vec<Slot> = Vec::new();
    let ghost all = IteratorSpec::remaining(&map.keys()).unref();
    for slot in iter: map.keys()
        invariant
            slots@.len() == iter.index(),
            iter.index() <= iter.seq().len(),
            iter.seq().unref() == all,
            forall|i: int| 0 <= i < slots@.len() ==> #[trigger] slots@[i] == *iter.seq()[i],
    {
        slots.push(*slot);
    }
    assert(slots@ =~= all);
    slots
}

} // verus!
