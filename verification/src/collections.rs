//! Sets of values and maps from strings to values.
//!
//! Both keep their contents in the order of arrival, which has no meaning:
//! a set is told from another by its members alone, a map by its entries.

use crate::laws::lemma_same_reflexive;
use crate::laws::lemma_same_symmetric;
use crate::laws::lemma_same_transitive;
use crate::types::copied;
use crate::types::reached_from;
use crate::types::same;
use crate::types::valid;
use crate::types::LispVal;
use vstd::prelude::*;
use vstd::string::StringExecFns;

verus! {

/// A set of values. No two members are the same value; the order in which
/// they were put in means nothing.
#[derive(Debug)]
pub struct LispSet {
    items: Vec<LispVal>,
}

/// A mapping from strings to values. No two entries have the same key; the
/// order in which they were put in means nothing.
#[derive(Debug)]
pub struct LispMap {
    entries: Vec<(String, LispVal)>,
}

/// Stored entries as the contracts speak of them: each key by its characters.
pub open spec fn entry_views(entries: Seq<(String, LispVal)>) -> Seq<(Seq<char>, LispVal)> {
    entries.map_values(|entry: (String, LispVal)| (entry.0@, entry.1))
}

/// Whether no two of `members` are the same value: what holds of the
/// members of every set that was built by `LispSet::new` and `insert`.
pub open spec fn members_distinct(members: Seq<LispVal>) -> bool {
    forall|i: int, j: int|
        0 <= i < j < members.len() ==> !same(#[trigger] members[i], #[trigger] members[j])
}

/// Whether no two of `entries` have the same key: what holds of the entries
/// of every map that was built by `LispMap::new` and `insert`.
pub open spec fn keys_distinct(entries: Seq<(Seq<char>, LispVal)>) -> bool {
    forall|i: int, j: int|
        0 <= i < j < entries.len() ==> (#[trigger] entries[i]).0 != (#[trigger] entries[j]).0
}

/// Whether `copies` are copies of `entries`, one for one: each has the key
/// of what it copies, and a value that is the same and sound if that is.
pub open spec fn entries_copied(
    entries: Seq<(Seq<char>, LispVal)>,
    copies: Seq<(Seq<char>, LispVal)>,
) -> bool {
    &&& entries.len() == copies.len()
    &&& forall|i: int|
        0 <= i < entries.len() ==> (#[trigger] entries[i]).0 == copies[i].0 && same(
            entries[i].1,
            copies[i].1,
        ) && (valid(entries[i].1) ==> valid(copies[i].1))
}

/// Whether `i` is the first place among `entries` that holds `key`.
pub open spec fn first_with_key(
    entries: Seq<(Seq<char>, LispVal)>,
    key: Seq<char>,
    i: int,
) -> bool {
    &&& 0 <= i < entries.len()
    &&& entries[i].0 == key
    &&& forall|j: int| 0 <= j < i ==> (#[trigger] entries[j]).0 != key
}

/// Whether some entry holds `key`.
pub open spec fn has_key(entries: Seq<(Seq<char>, LispVal)>, key: Seq<char>) -> bool {
    exists|i: int| first_with_key(entries, key, i)
}

/// The first place among `entries` that holds `key`, where there is one.
pub open spec fn place_of(entries: Seq<(Seq<char>, LispVal)>, key: Seq<char>) -> int {
    choose|i: int| first_with_key(entries, key, i)
}

/// The value that `entries` give to `key`: that of the first entry with
/// the key, or none.
pub open spec fn lookup(entries: Seq<(Seq<char>, LispVal)>, key: Seq<char>) -> Option<LispVal> {
    if has_key(entries, key) {
        Some(entries[place_of(entries, key)].1)
    } else {
        None
    }
}

impl View for LispSet {
    type V = Seq<LispVal>;

    /// The members, in the order in which they were put in.
    closed spec fn view(&self) -> Seq<LispVal> {
        self.items@
    }
}

impl LispSet {
    /// A set is structurally larger than each of its members.
    pub proof fn lemma_members_decrease(self, i: int)
        requires
            0 <= i < self@.len(),
        ensures
            decreases_to!(self => self@[i]),
    {
    }

    /// The members, in the order in which they were put in.
    pub fn members(&self) -> (items: &Vec<LispVal>)
        ensures
            items@ == self@,
    {
        &self.items
    }

    /// The empty set.
    pub fn new() -> (set: LispSet)
        ensures
            set@ == Seq::<LispVal>::empty(),
    {
        LispSet { items: Vec::new() }
    }

    /// The number of members.
    pub fn len(&self) -> (n: usize)
        ensures
            n == self@.len(),
    {
        self.items.len()
    }

    /// Whether a member of the set is the same value as `v`.
    pub fn contains(&self, v: &LispVal) -> (found: bool)
        ensures
            found == reached_from(*self, *v),
    {
        let mut at: usize = 0;
        while at < self.items.len()
            invariant
                at <= self@.len(),
                self@ == self.items@,
                forall|i: int| 0 <= i < at ==> !same(#[trigger] self@[i], *v),
            decreases self@.len() - at,
        {
            if self.items[at] == *v {
                return true;
            }
            at = at + 1;
        }
        false
    }

    /// Puts `v` into the set unless a member is the same value already, and
    /// says whether it went in. Either way the set then has a member that is
    /// the same as `v`. A new member comes last; the others stay where they
    /// were, so members that were distinct remain so.
    pub fn insert(&mut self, v: LispVal) -> (added: bool)
        ensures
            added == !reached_from(*old(self), v),
            final(self)@ == if added {
                old(self)@.push(v)
            } else {
                old(self)@
            },
            reached_from(*final(self), v),
            members_distinct(old(self)@) ==> members_distinct(final(self)@),
    {
        if self.contains(&v) {
            false
        } else {
            proof {
                lemma_same_reflexive(v);
            }
            self.items.push(v);
            assert(same(self@[self@.len() - 1], v));
            true
        }
    }

    /// A copy of the set: copies of its members, in their places. Members
    /// that were distinct remain so.
    pub(crate) fn duplicate(&self) -> (copy: LispSet)
        ensures
            copied(self@, copy@),
            members_distinct(self@) ==> members_distinct(copy@),
        decreases *self,
    {
        let mut items: Vec<LispVal> = Vec::new();
        let mut at: usize = 0;
        while at < self.items.len()
            invariant
                at <= self.items@.len(),
                items@.len() == at,
                forall|i: int|
                    0 <= i < at ==> same(#[trigger] self.items@[i], items@[i]) && (valid(
                        self.items@[i],
                    ) ==> valid(items@[i])),
            decreases self.items@.len() - at,
        {
            proof {
                self.lemma_members_decrease(at as int);
            }
            let copy = self.items[at].duplicate();
            items.push(copy);
            at = at + 1;
        }
        proof {
            if members_distinct(self@) {
                assert forall|i: int, j: int| 0 <= i < j < items@.len() implies !same(
                    #[trigger] items@[i],
                    #[trigger] items@[j],
                ) by {
                    if same(items@[i], items@[j]) {
                        lemma_same_transitive(self@[i], items@[i], items@[j]);
                        lemma_same_symmetric(self@[j], items@[j]);
                        lemma_same_transitive(self@[i], items@[j], self@[j]);
                    }
                }
            }
        }
        LispSet { items }
    }
}

impl View for LispMap {
    type V = Seq<(Seq<char>, LispVal)>;

    /// The entries, each a key and its value, in the order in which their
    /// keys were first put in.
    closed spec fn view(&self) -> Seq<(Seq<char>, LispVal)> {
        entry_views(self.entries@)
    }
}

impl LispMap {
    /// A map is structurally larger than each of its values.
    pub proof fn lemma_values_decrease(self, i: int)
        requires
            0 <= i < self@.len(),
        ensures
            decreases_to!(self => self@[i].1),
    {
    }

    /// The entries, in the order in which their keys were first put in.
    pub fn entries(&self) -> (entries: &Vec<(String, LispVal)>)
        ensures
            entry_views(entries@) == self@,
    {
        &self.entries
    }

    /// The empty map.
    pub fn new() -> (map: LispMap)
        ensures
            map@ == Seq::<(Seq<char>, LispVal)>::empty(),
    {
        LispMap { entries: Vec::new() }
    }

    /// The number of entries.
    pub fn len(&self) -> (n: usize)
        ensures
            n == self@.len(),
    {
        self.entries.len()
    }

    /// The first place that holds `key`, or the number of entries where
    /// none does.
    fn find(&self, key: &String) -> (at: usize)
        ensures
            at <= self@.len(),
            at < self@.len() ==> first_with_key(self@, key@, at as int),
            at == self@.len() ==> !has_key(self@, key@),
            at == self@.len() ==> forall|j: int|
                0 <= j < self@.len() ==> (#[trigger] self@[j]).0 != key@,
    {
        let mut at: usize = 0;
        while at < self.entries.len()
            invariant
                at <= self@.len(),
                self@ == entry_views(self.entries@),
                forall|j: int| 0 <= j < at ==> (#[trigger] self@[j]).0 != key@,
            decreases self@.len() - at,
        {
            if self.entries[at].0 == *key {
                return at;
            }
            at = at + 1;
        }
        at
    }

    /// The value that the map gives to `key`, or `None` where it has no
    /// such key.
    pub fn get(&self, key: &str) -> (value: Option<&LispVal>)
        ensures
            value == match lookup(self@, key@) {
                Some(found) => Some(&found),
                None => None,
            },
    {
        let wanted = String::from_str(key);
        let at = self.find(&wanted);
        if at < self.entries.len() {
            proof {
                lemma_first_is_the_place(self@, key@, at as int);
            }
            Some(&self.entries[at].1)
        } else {
            None
        }
    }

    /// Gives `key` the value `value`, and hands back the value that the key
    /// had before, if it had one. A key that the map has keeps its place;
    /// a new key comes last. Every other key keeps its value, and keys that
    /// were distinct remain so.
    pub fn insert(&mut self, key: String, value: LispVal) -> (before: Option<LispVal>)
        ensures
            before == lookup(old(self)@, key@),
            final(self)@ == if has_key(old(self)@, key@) {
                old(self)@.update(place_of(old(self)@, key@), (key@, value))
            } else {
                old(self)@.push((key@, value))
            },
            lookup(final(self)@, key@) == Some(value),
            forall|other: Seq<char>|
                other != key@ ==> #[trigger] lookup(final(self)@, other) == lookup(
                    old(self)@,
                    other,
                ),
            keys_distinct(old(self)@) ==> keys_distinct(final(self)@),
    {
        let at = self.find(&key);
        if at < self.entries.len() {
            let replaced = self.entries.remove(at);
            self.entries.insert(at, (key, value));
            assert(forall|i: int| 0 <= i < self@.len() ==> (#[trigger] self@[i]).0 == old(self)@[i].0);
            proof {
                lemma_first_is_the_place(old(self)@, key@, at as int);
                lemma_first_is_the_place(self@, key@, at as int);
                assert forall|other: Seq<char>| other != key@ implies #[trigger] lookup(
                    self@,
                    other,
                ) == lookup(old(self)@, other) by {
                    lemma_lookup_elsewhere(old(self)@, self@, key@, other);
                }
            }
            Some(replaced.1)
        } else {
            self.entries.push((key, value));
            assert(self@ =~= old(self)@.push((key@, value)));
            proof {
                lemma_first_is_the_place(self@, key@, at as int);
                assert forall|other: Seq<char>| other != key@ implies #[trigger] lookup(
                    self@,
                    other,
                ) == lookup(old(self)@, other) by {
                    lemma_lookup_elsewhere(old(self)@, self@, key@, other);
                }
            }
            None
        }
    }

    /// A copy of the map: its keys with copies of their values, in their
    /// places.
    pub(crate) fn duplicate(&self) -> (copy: LispMap)
        ensures
            entries_copied(self@, copy@),
        decreases *self,
    {
        let mut entries: Vec<(String, LispVal)> = Vec::new();
        let mut at: usize = 0;
        while at < self.entries.len()
            invariant
                at <= self.entries@.len(),
                entries@.len() == at,
                forall|i: int|
                    0 <= i < at ==> (#[trigger] self.entries@[i]).0@ == entries@[i].0@ && same(
                        self.entries@[i].1,
                        entries@[i].1,
                    ) && (valid(self.entries@[i].1) ==> valid(entries@[i].1)),
            decreases self.entries@.len() - at,
        {
            proof {
                self.lemma_values_decrease(at as int);
            }
            let key = self.entries[at].0.clone();
            let value = self.entries[at].1.duplicate();
            entries.push((key, value));
            at = at + 1;
        }
        LispMap { entries }
    }
}

/// Only one place can be the first that holds a key.
pub proof fn lemma_first_is_the_place(entries: Seq<(Seq<char>, LispVal)>, key: Seq<char>, i: int)
    requires
        first_with_key(entries, key, i),
    ensures
        has_key(entries, key),
        place_of(entries, key) == i,
        lookup(entries, key) == Some(entries[i].1),
{
}

/// Entries that differ from others only where `key` stands, or by one more
/// entry for `key` at the end, give every other key what the others give it.
proof fn lemma_lookup_elsewhere(
    before: Seq<(Seq<char>, LispVal)>,
    after: Seq<(Seq<char>, LispVal)>,
    key: Seq<char>,
    other: Seq<char>,
)
    requires
        other != key,
        before.len() <= after.len() <= before.len() + 1,
        forall|i: int|
            0 <= i < before.len() ==> (#[trigger] after[i]).0 == before[i].0 && (before[i].0 != key
                ==> after[i].1 == before[i].1),
        after.len() > before.len() ==> after[before.len() as int].0 == key,
    ensures
        lookup(after, other) == lookup(before, other),
{
    if has_key(before, other) {
        let i = place_of(before, other);
        lemma_first_is_the_place(after, other, i);
    } else if has_key(after, other) {
        let i = place_of(after, other);
        assert forall|j: int| 0 <= j < i implies (#[trigger] before[j]).0 != other by {
            assert(after[j].0 != other);
        }
        assert(first_with_key(before, other, i));
    }
}

impl Clone for LispSet {
    fn clone(&self) -> (copy: LispSet)
        ensures
            copied(self@, copy@),
            members_distinct(self@) ==> members_distinct(copy@),
    {
        self.duplicate()
    }
}

impl Clone for LispMap {
    fn clone(&self) -> (copy: LispMap)
        ensures
            entries_copied(self@, copy@),
    {
        self.duplicate()
    }
}

} // verus!
