//! Counts by source address.

use vstd::prelude::*;

verus! {

/// `left` comes before `right` in the order of strings: at the first character in which they
/// differ its character is the smaller one, or it ends there.
pub open spec fn precedes(left: Seq<char>, right: Seq<char>) -> bool
    decreases left.len(),
{
    if right.len() == 0 {
        false
    } else if left.len() == 0 {
        true
    } else if left[0] != right[0] {
        left[0] < right[0]
    } else {
        precedes(left.drop_first(), right.drop_first())
    }
}

pub(crate) proof fn lemma_precedes_irreflexive(text: Seq<char>)
    ensures
        !precedes(text, text),
    decreases text.len(),
{
    if text.len() > 0 {
        lemma_precedes_irreflexive(text.drop_first());
    }
}

pub(crate) proof fn lemma_precedes_transitive(a: Seq<char>, b: Seq<char>, c: Seq<char>)
    requires
        precedes(a, b),
        precedes(b, c),
    ensures
        precedes(a, c),
    decreases a.len(),
{
    if a.len() > 0 && a[0] == b[0] && b[0] == c[0] {
        lemma_precedes_transitive(a.drop_first(), b.drop_first(), c.drop_first());
    }
}

pub(crate) proof fn lemma_precedes_total(a: Seq<char>, b: Seq<char>)
    ensures
        precedes(a, b) || precedes(b, a) || a == b,
    decreases a.len(),
{
    if a.len() > 0 && b.len() > 0 && a[0] == b[0] {
        lemma_precedes_total(a.drop_first(), b.drop_first());
        if a.drop_first() == b.drop_first() {
            assert(a =~= seq![a[0]] + a.drop_first());
            assert(b =~= seq![b[0]] + b.drop_first());
        }
    } else if a.len() == 0 && b.len() == 0 {
        assert(a =~= b);
    }
}

/// How two strings compare.
#[derive(Clone, Copy, Debug, PartialEq, Eq, Structural)]
pub enum StringOrder {
    Before,
    Same,
    After,
}

fn string_order(left: &str, right: &str) -> (order: StringOrder)
    ensures
        match order {
            StringOrder::Before => precedes(left@, right@),
            StringOrder::Same => left@ == right@,
            StringOrder::After => precedes(right@, left@),
        },
{
    let left_len = left.unicode_len();
    let right_len = right.unicode_len();
    let mut i: usize = 0;
    assert(left@.skip(0) =~= left@);
    assert(right@.skip(0) =~= right@);
    while i < left_len && i < right_len
        invariant
            left_len == left@.len(),
            right_len == right@.len(),
            i <= left_len,
            i <= right_len,
            left@.take(i as int) == right@.take(i as int),
            precedes(left@, right@) == precedes(left@.skip(i as int), right@.skip(i as int)),
            precedes(right@, left@) == precedes(right@.skip(i as int), left@.skip(i as int)),
        decreases left_len - i,
    {
        let l = left.get_char(i);
        let r = right.get_char(i);
        if l != r {
            if l < r {
                return StringOrder::Before;
            }
            return StringOrder::After;
        }
        proof {
            assert(left@.skip(i as int).drop_first() =~= left@.skip(i + 1));
            assert(right@.skip(i as int).drop_first() =~= right@.skip(i + 1));
            assert(left@.take(i + 1) =~= left@.take(i as int).push(l));
            assert(right@.take(i + 1) =~= right@.take(i as int).push(r));
        }
        i += 1;
    }
    if left_len == right_len {
        proof {
            assert(left@.take(i as int) =~= left@);
            assert(right@.take(i as int) =~= right@);
        }
        StringOrder::Same
    } else if left_len < right_len {
        StringOrder::Before
    } else {
        StringOrder::After
    }
}

/// A count for each of some sources, in the order of their names.
pub struct SourceCounts {
    entries: Vec<(String, usize)>,
}

/// Entries are in the strict order of their names.
pub open spec fn ascending(entries: Seq<(Seq<char>, usize)>) -> bool {
    forall|i: int, j: int|
        0 <= i < j < entries.len() ==> precedes(
            (#[trigger] entries[i]).0,
            (#[trigger] entries[j]).0,
        )
}

/// The counts by name.
pub open spec fn counts_of(entries: Seq<(Seq<char>, usize)>) -> Map<Seq<char>, usize> {
    Map::new(
        |source: Seq<char>|
            exists|i: int| 0 <= i < entries.len() && (#[trigger] entries[i]).0 == source,
        |source: Seq<char>|
            entries[choose|i: int| 0 <= i < entries.len() && (#[trigger] entries[i]).0 == source].1,
    )
}

pub(crate) proof fn lemma_entry_unique(entries: Seq<(Seq<char>, usize)>, i: int)
    requires
        ascending(entries),
        0 <= i < entries.len(),
    ensures
        counts_of(entries).contains_key(entries[i].0),
        counts_of(entries)[entries[i].0] == entries[i].1,
{
    let source = entries[i].0;
    let j = choose|j: int| 0 <= j < entries.len() && (#[trigger] entries[j]).0 == source;
    lemma_precedes_irreflexive(source);
    if i < j {
        assert(precedes(entries[i].0, entries[j].0));
    } else if j < i {
        assert(precedes(entries[j].0, entries[i].0));
    }
}

impl View for SourceCounts {
    type V = Map<Seq<char>, usize>;

    open spec fn view(&self) -> Map<Seq<char>, usize> {
        counts_of(self.spec_entries())
    }
}

impl SourceCounts {
    /// The entries in order.
    pub closed spec fn spec_entries(&self) -> Seq<(Seq<char>, usize)> {
        self.entries@.map_values(|entry: (String, usize)| (entry.0@, entry.1))
    }

    pub open spec fn wf(&self) -> bool {
        ascending(self.spec_entries())
    }

    pub fn new() -> (counts: Self)
        ensures
            counts.wf(),
            counts@ == Map::<Seq<char>, usize>::empty(),
            counts.spec_entries() == Seq::<(Seq<char>, usize)>::empty(),
    {
        let counts = SourceCounts { entries: Vec::new() };
        assert(counts.spec_entries() =~= Seq::empty());
        assert(counts@ =~= Map::<Seq<char>, usize>::empty());
        counts
    }

    pub fn len(&self) -> (len: usize)
        ensures
            len == self.spec_entries().len(),
    {
        self.entries.len()
    }

    /// The name and the count at a position.
    pub fn entry(&self, index: usize) -> (entry: (&str, usize))
        requires
            index < self.spec_entries().len(),
        ensures
            (entry.0@, entry.1) == self.spec_entries()[index as int],
    {
        (self.entries[index].0.as_str(), self.entries[index].1)
    }

    /// Adds to the count of a source.
    pub fn count(&mut self, source: &str, count: usize)
        requires
            old(self).wf(),
            old(self)@.contains_key(source@) ==> old(self)@[source@] + count <= usize::MAX,
        ensures
            final(self).wf(),
            final(self)@ == old(self)@.insert(
                source@,
                (if old(self)@.contains_key(source@) {
                    old(self)@[source@] + count
                } else {
                    count as int
                }) as usize,
            ),
    {
        let ghost before = self.spec_entries();
        let mut i: usize = 0;
        while i < self.entries.len()
            invariant
                i <= self.entries@.len(),
                before == self.spec_entries(),
                before == old(self).spec_entries(),
                old(self).entries == self.entries,
                ascending(before),
                old(self)@.contains_key(source@) ==> old(self)@[source@] + count <= usize::MAX,
                forall|j: int| 0 <= j < i ==> precedes((#[trigger] before[j]).0, source@),
            decreases self.entries@.len() - i,
        {
            assert(before[i as int].0 == self.entries@[i as int].0@);
            match string_order(self.entries[i].0.as_str(), source) {
                StringOrder::Before => {},
                StringOrder::Same => {
                    proof {
                        lemma_entry_unique(before, i as int);
                    }
                    let sum = self.entries[i].1 + count;
                    let name = self.entries[i].0.clone();
                    self.entries.set(i, (name, sum));
                    proof {
                        let after = self.spec_entries();
                        assert(after =~= before.update(i as int, (source@, sum)));
                        lemma_counts_update(before, i as int, sum);
                    }
                    return;
                },
                StringOrder::After => {
                    self.entries.insert(i, (source.to_owned(), count));
                    proof {
                        let after = self.spec_entries();
                        assert(after =~= before.insert(i as int, (source@, count)));
                        assert forall|j: int| i <= j < before.len() implies precedes(
                            source@,
                            (#[trigger] before[j]).0,
                        ) by {
                            if j > i {
                                assert(precedes(before[i as int].0, before[j].0));
                                lemma_precedes_transitive(source@, before[i as int].0, before[j].0);
                            }
                        }
                        lemma_counts_insert(before, i as int, (source@, count));
                    }
                    return;
                },
            }
            i += 1;
        }
        self.entries.push((source.to_owned(), count));
        proof {
            let after = self.spec_entries();
            assert(after =~= before.insert(i as int, (source@, count)));
            lemma_counts_insert(before, i as int, (source@, count));
        }
    }
}

proof fn lemma_counts_update(entries: Seq<(Seq<char>, usize)>, i: int, sum: usize)
    requires
        ascending(entries),
        0 <= i < entries.len(),
    ensures
        ascending(entries.update(i, (entries[i].0, sum))),
        counts_of(entries.update(i, (entries[i].0, sum))) == counts_of(entries).insert(
            entries[i].0,
            sum,
        ),
{
    let after = entries.update(i, (entries[i].0, sum));
    assert forall|j: int, k: int| 0 <= j < k < after.len() implies precedes(
        (#[trigger] after[j]).0,
        (#[trigger] after[k]).0,
    ) by {
        assert(after[j].0 == entries[j].0 && after[k].0 == entries[k].0);
    }
    lemma_same_counts(entries, after, i, sum);
}

proof fn lemma_same_counts(
    before: Seq<(Seq<char>, usize)>,
    after: Seq<(Seq<char>, usize)>,
    i: int,
    sum: usize,
)
    requires
        ascending(before),
        ascending(after),
        0 <= i < before.len(),
        after == before.update(i, (before[i].0, sum)),
    ensures
        counts_of(after) == counts_of(before).insert(before[i].0, sum),
{
    let target = counts_of(before).insert(before[i].0, sum);
    assert forall|source: Seq<char>| #[trigger]
        counts_of(after).contains_key(source) == target.contains_key(source) && (
    target.contains_key(source) ==> counts_of(after)[source] == target[source]) by {
        if target.contains_key(source) {
            if source == before[i].0 {
                assert(after[i].0 == source);
                lemma_entry_unique(after, i);
            } else {
                let j = choose|j: int| 0 <= j < before.len() && (#[trigger] before[j]).0 == source;
                assert(after[j] == before[j]);
                lemma_entry_unique(after, j);
                lemma_entry_unique(before, j);
            }
        } else if counts_of(after).contains_key(source) {
            let j = choose|j: int| 0 <= j < after.len() && (#[trigger] after[j]).0 == source;
            assert(before[j].0 == source);
        }
    }
    assert(counts_of(after) =~= target);
}

pub(crate) proof fn lemma_counts_insert(
    before: Seq<(Seq<char>, usize)>,
    i: int,
    entry: (Seq<char>, usize),
)
    requires
        ascending(before),
        0 <= i <= before.len(),
        forall|j: int| 0 <= j < i ==> precedes((#[trigger] before[j]).0, entry.0),
        forall|j: int| i <= j < before.len() ==> precedes(entry.0, (#[trigger] before[j]).0),
    ensures
        ascending(before.insert(i, entry)),
        !counts_of(before).contains_key(entry.0),
        counts_of(before.insert(i, entry)) == counts_of(before).insert(entry.0, entry.1),
{
    let after = before.insert(i, entry);
    lemma_precedes_irreflexive(entry.0);
    assert forall|j: int, k: int| 0 <= j < k < after.len() implies precedes(
        (#[trigger] after[j]).0,
        (#[trigger] after[k]).0,
    ) by {
        let bj = if j < i {
            j
        } else {
            j - 1
        };
        let bk = if k < i {
            k
        } else {
            k - 1
        };
        if j != i {
            assert(after[j] == before[bj]);
        }
        if k != i {
            assert(after[k] == before[bk]);
        }
    }
    let target = counts_of(before).insert(entry.0, entry.1);
    assert forall|source: Seq<char>| #[trigger]
        counts_of(after).contains_key(source) == target.contains_key(source) && (
    target.contains_key(source) ==> counts_of(after)[source] == target[source]) by {
        if source == entry.0 {
            assert(after[i].0 == source);
            lemma_entry_unique(after, i);
        } else if counts_of(before).contains_key(source) {
            let j = choose|j: int| 0 <= j < before.len() && (#[trigger] before[j]).0 == source;
            let k = if j < i {
                j
            } else {
                j + 1
            };
            assert(after[k] == before[j]);
            lemma_entry_unique(after, k);
            lemma_entry_unique(before, j);
        } else if counts_of(after).contains_key(source) {
            let k = choose|k: int| 0 <= k < after.len() && (#[trigger] after[k]).0 == source;
            let j = if k < i {
                k
            } else {
                k - 1
            };
            assert(after[k] == before[j]);
        }
    }
    assert(counts_of(after) =~= target);
}

/// One name comes before another exactly where they agree up to a place at which the first one
/// ends and the other goes on, or has the smaller character.
pub proof fn law_names_are_ordered(left: Seq<char>, right: Seq<char>)
    ensures
        precedes(left, right) <==> exists|place: int|
            {
                &&& 0 <= place <= left.len()
                &&& place < right.len()
                &&& left.take(place) == #[trigger] right.take(place)
                &&& place < left.len() ==> left[place] < right[place]
            },
    decreases left.len(),
{
    if left.len() == 0 {
        if right.len() > 0 {
            assert(left.take(0) =~= right.take(0));
        }
    } else if right.len() > 0 && left[0] == right[0] {
        let shorter = left.drop_first();
        let other = right.drop_first();
        law_names_are_ordered(shorter, other);
        if precedes(left, right) {
            let place = choose|place: int|
                {
                    &&& 0 <= place <= shorter.len()
                    &&& place < other.len()
                    &&& shorter.take(place) == #[trigger] other.take(place)
                    &&& place < shorter.len() ==> shorter[place] < other[place]
                };
            assert(left.take(place + 1) =~= seq![left[0]] + shorter.take(place));
            assert(right.take(place + 1) =~= seq![right[0]] + other.take(place));
            assert(left.take(place + 1) == right.take(place + 1));
        }
        if exists|place: int|
            {
                &&& 0 <= place <= left.len()
                &&& place < right.len()
                &&& left.take(place) == #[trigger] right.take(place)
                &&& place < left.len() ==> left[place] < right[place]
            } {
            let place = choose|place: int|
                {
                    &&& 0 <= place <= left.len()
                    &&& place < right.len()
                    &&& left.take(place) == #[trigger] right.take(place)
                    &&& place < left.len() ==> left[place] < right[place]
                };
            assert(place > 0);
            assert(shorter.take(place - 1) =~= left.take(place).drop_first());
            assert(other.take(place - 1) =~= right.take(place).drop_first());
            assert(shorter.take(place - 1) == other.take(place - 1));
        }
    } else if right.len() > 0 {
        assert(left.take(0) =~= right.take(0));
        if exists|place: int|
            {
                &&& 0 <= place <= left.len()
                &&& place < right.len()
                &&& left.take(place) == #[trigger] right.take(place)
                &&& place < left.len() ==> left[place] < right[place]
            } {
            let place = choose|place: int|
                {
                    &&& 0 <= place <= left.len()
                    &&& place < right.len()
                    &&& left.take(place) == #[trigger] right.take(place)
                    &&& place < left.len() ==> left[place] < right[place]
                };
            if place > 0 {
                assert(left.take(place)[0] == right.take(place)[0]);
            }
        }
    }
}

/// The count under a name is that of its entry, and a name without an entry has none.
pub proof fn law_entries_are_counts(entries: Seq<(Seq<char>, usize)>, source: Seq<char>)
    requires
        ascending(entries),
    ensures
        counts_of(entries).contains_key(source) <==> exists|i: int|
            0 <= i < entries.len() && (#[trigger] entries[i]).0 == source,
        forall|i: int|
            0 <= i < entries.len() && (#[trigger] entries[i]).0 == source ==> counts_of(
                entries,
            )[source] == entries[i].1,
{
    assert forall|i: int|
        0 <= i < entries.len() && (#[trigger] entries[i]).0 == source implies counts_of(
        entries,
    )[source] == entries[i].1 by {
        lemma_entry_unique(entries, i);
    }
}

} // verus!
