//! Entries by name.

use crate::order::{
    lemma_precedes, lemma_text_chain, lemma_text_total, precedes, text_at_most, text_within,
};
use vstd::prelude::*;
use vstd::utf8::encode_utf8;

verus! {

/// The entry with its name taken by its characters.
pub open spec fn named<T>(entry: (String, T)) -> (Seq<char>, T) {
    (entry.0@, entry.1)
}

/// Whether each name comes before the next one.
pub open spec fn sorted<T>(entries: Seq<(Seq<char>, T)>) -> bool {
    forall|i: int, j: int|
        0 <= i < j < entries.len() ==> !text_within(
            (#[trigger] entries[j]).0,
            (#[trigger] entries[i]).0,
        )
}

/// The entry of the given name.
pub open spec fn found<T>(entries: Seq<(Seq<char>, T)>, name: Seq<char>) -> Option<T> {
    if exists|i: int| 0 <= i < entries.len() && (#[trigger] entries[i]).0 == name {
        Some(
            entries[choose|i: int|
                0 <= i < entries.len() && (#[trigger] entries[i]).0 == name].1,
        )
    } else {
        None
    }
}

/// No two entries share a name.
proof fn lemma_found<T>(entries: Seq<(Seq<char>, T)>, at: int)
    requires
        sorted(entries),
        0 <= at < entries.len(),
    ensures
        found(entries, entries[at].0) == Some(entries[at].1),
{
    let name = entries[at].0;
    let i = choose|i: int| 0 <= i < entries.len() && (#[trigger] entries[i]).0 == name;
    lemma_text_total(name, name);
}

/// Recording an entry at place `at`, anew or in place of another of its name, makes it the one that is
/// found under its name, and changes what is found under no other.
proof fn lemma_recorded<T>(
    before: Seq<(Seq<char>, T)>,
    after: Seq<(Seq<char>, T)>,
    at: int,
)
    requires
        sorted(before),
        sorted(after),
        0 <= at < after.len(),
        at <= before.len(),
        after == before.insert(at, after[at]) || (at < before.len() && before[at].0 == after[at].0
            && after == before.update(at, after[at])),
    ensures
        found(after, after[at].0) == Some(after[at].1),
        forall|other: Seq<char>|
            other != after[at].0 ==> #[trigger] found(after, other) == found(before, other),
{
    lemma_found(after, at);
    assert forall|other: Seq<char>| other != after[at].0 implies #[trigger] found(after, other)
        == found(before, other) by {
        if exists|i: int| 0 <= i < before.len() && (#[trigger] before[i]).0 == other {
            let i = choose|i: int| 0 <= i < before.len() && (#[trigger] before[i]).0 == other;
            let j = if after.len() > before.len() && i >= at {
                i + 1
            } else {
                i
            };
            assert(after[j] == before[i]);
            lemma_found(before, i);
            lemma_found(after, j);
        } else {
            if exists|j: int| 0 <= j < after.len() && (#[trigger] after[j]).0 == other {
                let j = choose|j: int| 0 <= j < after.len() && (#[trigger] after[j]).0 == other;
                let i = if after.len() > before.len() && j > at {
                    j - 1
                } else {
                    j
                };
                assert(before[i] == after[j]);
            }
        }
    }
}

/// Entries in the order of their names.
#[derive(Debug)]
pub struct Entries<T> {
    list: Vec<(String, T)>,
}

impl<T> Entries<T> {
    #[verifier::type_invariant]
    spec fn valid(self) -> bool {
        sorted(self.list@.map_values(|entry: (String, T)| named(entry)))
    }

    /// The names with their entries.
    pub closed spec fn held(self) -> Seq<(Seq<char>, T)> {
        self.list@.map_values(|entry: (String, T)| named(entry))
    }

    /// No entries.
    pub fn new() -> (entries: Self)
        ensures
            entries.held() == Seq::<(Seq<char>, T)>::empty(),
    {
        let entries = Entries { list: Vec::new() };
        assert(entries.held() =~= Seq::<(Seq<char>, T)>::empty());
        entries
    }

    /// The number of entries.
    pub fn len(&self) -> (n: usize)
        ensures
            n == self.held().len(),
            sorted(self.held()),
    {
        proof {
            use_type_invariant(self);
        }
        self.list.len()
    }

    /// The entry at place `i`.
    pub fn at(&self, i: usize) -> (entry: &T)
        requires
            i < self.held().len(),
        ensures
            *entry == self.held()[i as int].1,
    {
        &self.list[i].1
    }

    /// The name at place `i`.
    pub fn name(&self, i: usize) -> (name: &str)
        requires
            i < self.held().len(),
        ensures
            name@ == self.held()[i as int].0,
    {
        self.list[i].0.as_str()
    }

    /// The place of the first name that does not come before `name`.
    fn place(&self, name: &str) -> (at: usize)
        ensures
            at <= self.held().len(),
            forall|i: int|
                0 <= i < at ==> !text_within(name@, (#[trigger] self.held()[i]).0),
            forall|i: int|
                at <= i < self.held().len() ==> text_within(name@, (#[trigger] self.held()[i]).0),
    {
        let ghost all = self.held();
        proof {
            use_type_invariant(self);
        }
        let mut low: usize = 0;
        let mut high: usize = self.list.len();
        while low < high
            invariant
                low <= high <= self.list@.len(),
                all == self.held(),
                sorted(all),
                forall|i: int| 0 <= i < low ==> !text_within(name@, (#[trigger] all[i]).0),
                forall|i: int| high <= i < all.len() ==> text_within(name@, (#[trigger] all[i]).0),
            decreases high - low,
        {
            let mid: usize = low + (high - low) / 2;
            let ghost pivot = all[mid as int].0;
            if text_at_most(name, self.list[mid].0.as_str()) {
                proof {
                    assert forall|i: int| mid <= i < all.len() implies text_within(
                        name@,
                        (#[trigger] all[i]).0,
                    ) by {
                        if i > mid {
                            lemma_text_total(pivot, all[i].0);
                            lemma_text_chain(name@, pivot, all[i].0);
                        }
                    }
                }
                high = mid;
            } else {
                proof {
                    assert forall|i: int| 0 <= i <= mid implies !text_within(
                        name@,
                        (#[trigger] all[i]).0,
                    ) by {
                        if i < mid {
                            lemma_text_total(pivot, all[i].0);
                            lemma_text_chain(name@, all[i].0, pivot);
                        }
                    }
                }
                low = mid + 1;
            }
        }
        low
    }

    /// The entry of the given name, if there is one.
    pub fn get(&self, name: &str) -> (entry: Option<&T>)
        ensures
            match entry {
                Some(c) => found(self.held(), name@) == Some(*c),
                None => found(self.held(), name@) is None,
            },
    {
        let ghost all = self.held();
        let at: usize = self.place(name);
        proof {
            use_type_invariant(self);
        }
        if at < self.list.len() && text_at_most(self.list[at].0.as_str(), name) {
            proof {
                lemma_text_total(all[at as int].0, name@);
                lemma_found(all, at as int);
            }
            Some(&self.list[at].1)
        } else {
            proof {
                assert forall|i: int| 0 <= i < all.len() implies (#[trigger] all[i]).0 != name@ by {
                    lemma_text_total(name@, name@);
                    if i > at {
                        lemma_text_total(all[at as int].0, all[i].0);
                        lemma_text_chain(all[at as int].0, all[i].0, name@);
                    }
                }
            }
            None
        }
    }

    /// Records an entry under a name. An entry that had the name gives way and is returned.
    pub fn insert(&mut self, name: String, entry: T) -> (replaced: Option<T>)
        ensures
            sorted(final(self).held()),
            found(final(self).held(), name@) == Some(entry),
            forall|other: Seq<char>|
                other != name@ ==> #[trigger] found(final(self).held(), other) == found(
                    old(self).held(),
                    other,
                ),
            match replaced {
                Some(c) => exists|i: int|
                    0 <= i < old(self).held().len() && #[trigger] old(self).held()[i] == (name@, c)
                        && final(self).held() == old(self).held().update(i, (name@, entry)),
                None => {
                    &&& forall|i: int|
                        0 <= i < old(self).held().len() ==> (#[trigger] old(self).held()[i]).0
                            != name@
                    &&& exists|i: int|
                        0 <= i <= old(self).held().len() && final(self).held()
                            == #[trigger] old(self).held().insert(i, (name@, entry))
                },
            },
    {
        let ghost all = self.held();
        let at: usize = self.place(name.as_str());
        let mut taken = Entries { list: Vec::new() };
        core::mem::swap(self, &mut taken);
        proof {
            use_type_invariant(&taken);
        }
        let Entries { list } = taken;
        let mut list: Vec<(String, T)> = list;
        let ghost view = |entry: (String, T)| named(entry);
        assert(list@.map_values(view) =~= all);
        if at < list.len() && text_at_most(list[at].0.as_str(), name.as_str()) {
            proof {
                lemma_text_total(all[at as int].0, name@);
                assert(all[at as int].0 == name@);
            }
            let (_, replaced) = list.remove(at);
            list.insert(at, (name, entry));
            proof {
                assert(list@.map_values(view) =~= all.update(at as int, (name@, entry)));
                assert(all[at as int] == (name@, replaced));
            }
            *self = Entries { list };
            proof {
                assert(self.held() =~= all.update(at as int, (name@, entry)));
                lemma_recorded(all, self.held(), at as int);
            }
            Some(replaced)
        } else {
            let ghost added = all.insert(at as int, (name@, entry));
            proof {
                assert forall|i: int| 0 <= i < all.len() implies (#[trigger] all[i]).0 != name@ by {
                    lemma_text_total(name@, name@);
                    if i > at {
                        lemma_text_total(all[at as int].0, all[i].0);
                        lemma_text_chain(all[at as int].0, all[i].0, name@);
                    }
                }
                assert forall|i: int, j: int| 0 <= i < j < added.len() implies !text_within(
                    (#[trigger] added[j]).0,
                    (#[trigger] added[i]).0,
                ) by {
                    let before = if i < at { i } else { i - 1 };
                    let after = if j < at { j } else { j - 1 };
                    if i != at {
                        assert(added[i] == all[before]);
                    }
                    if j != at {
                        assert(added[j] == all[after]);
                    }
                    if i == at {
                        lemma_text_total(name@, all[after].0);
                    }
                }
            }
            list.insert(at, (name, entry));
            assert(list@.map_values(view) =~= added);
            *self = Entries { list };
            proof {
                assert(self.held() =~= added);
                lemma_recorded(all, added, at as int);
            }
            None
        }
    }
}

impl Entries<u32> {
    /// Whether `self` and `other` hold the same entries under the same names.
    pub fn same(&self, other: &Self) -> (same: bool)
        ensures
            same == (self.held() == other.held()),
    {
        if self.list.len() != other.list.len() {
            assert(self.held().len() != other.held().len());
            return false;
        }
        let mut i: usize = 0;
        while i < self.list.len()
            invariant
                i <= self.list@.len() == other.list@.len(),
                forall|j: int| 0 <= j < i ==> #[trigger] self.held()[j] == other.held()[j],
            decreases self.list@.len() - i,
        {
            if self.list[i].0 != other.list[i].0 || self.list[i].1 != other.list[i].1 {
                assert(self.held()[i as int] != other.held()[i as int]);
                return false;
            }
            assert(self.held()[i as int] == other.held()[i as int]);
            i += 1;
        }
        assert(self.held() =~= other.held());
        true
    }
}

impl Clone for Entries<u32> {
    fn clone(&self) -> (copy: Self)
        ensures
            copy.held() == self.held(),
    {
        let mut list: Vec<(String, u32)> = Vec::new();
        let mut i: usize = 0;
        while i < self.list.len()
            invariant
                i <= self.list@.len(),
                list@.len() == i,
                forall|j: int| 0 <= j < i ==> named(#[trigger] list@[j]) == named(self.list@[j]),
            decreases self.list@.len() - i,
        {
            list.push((self.list[i].0.clone(), self.list[i].1));
            i += 1;
        }
        proof {
            use_type_invariant(self);
            assert(list@.map_values(|entry: (String, u32)| named(entry)) =~= self.held());
        }
        Entries { list }
    }
}

// ---------------------------------------------------------------- laws

/// What is found under a name is the entry of that name, and nothing is found where there is none.
pub proof fn law_entries_are_found_by_name<T>(
    entries: Entries<T>,
    name: &str,
    entry: Option<&T>,
    n: usize,
)
    requires
        call_ensures(Entries::<T>::get, (&entries, name), entry),
        call_ensures(Entries::<T>::len, (&entries,), n),
    ensures
        n == entries.held().len(),
        entry is None <==> forall|i: int|
            0 <= i < entries.held().len() ==> (#[trigger] entries.held()[i]).0 != name@,
        entry matches Some(e) ==> exists|i: int|
            0 <= i < entries.held().len() && #[trigger] entries.held()[i] == (name@, *e),
        forall|i: int|
            0 <= i < entries.held().len() && (#[trigger] entries.held()[i]).0 == name@ ==> entry
                == Some(&entries.held()[i].1),
{
    let all = entries.held();
    assert forall|i: int| 0 <= i < all.len() && (#[trigger] all[i]).0 == name@ implies entry == Some(
        &all[i].1,
    ) by {
        lemma_found(all, i);
    }
    if exists|i: int| 0 <= i < all.len() && (#[trigger] all[i]).0 == name@ {
        let i = choose|i: int| 0 <= i < all.len() && (#[trigger] all[i]).0 == name@;
        assert(all[i] == (name@, all[i].1));
    }
}

/// Entries are in the order of their names: each comes before the next by the first byte that differs.
pub proof fn law_entries_are_in_the_order_of_their_names<T>(
    entries: Entries<T>,
    n: usize,
    i: int,
    j: int,
)
    requires
        call_ensures(Entries::<T>::len, (&entries,), n),
        0 <= i < j < n,
    ensures
        precedes(encode_utf8(entries.held()[i].0), encode_utf8(entries.held()[j].0)),
{
    let (a, b) = (entries.held()[i].0, entries.held()[j].0);
    lemma_text_total(a, b);
    lemma_precedes(encode_utf8(a), encode_utf8(b));
    lemma_text_total(a, a);
    vstd::utf8::encode_utf8_decode_utf8(a);
    vstd::utf8::encode_utf8_decode_utf8(b);
}

} // verus!
