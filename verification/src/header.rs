//! The header collection: a map from lower-case keys to values that
//! renders in key order.
use crate::ordered::ascending;
use crate::ordered::entries_map;
use crate::ordered::join_entries;
use crate::ordered::OrderedMap;
use crate::ordered::Pair;
use crate::text::lowercase_of;
use crate::text::to_lowercase;
use vstd::prelude::*;

verus! {

/// The headers of a message. Each key has one value, and the entries
/// stand in ascending key order.
///
/// `add`, `get` and `remove` take a key in any case and go by its
/// lower-case form, so that a collection filled through `add` holds
/// lower-case keys only. `set`, `lookup` and `discard` take a key as it
/// is.
#[derive(Debug)]
pub struct HttpHeader {
    map: OrderedMap,
}

impl View for HttpHeader {
    type V = Map<Seq<char>, Seq<char>>;

    closed spec fn view(&self) -> Map<Seq<char>, Seq<char>> {
        self.map@
    }
}

impl HttpHeader {
    /// The entries, in the order in which they are rendered.
    pub closed spec fn entries(&self) -> Seq<Pair> {
        self.map.entries()
    }

    /// The header block: one `key: value` line per entry, in key order,
    /// with a line terminator between two lines and none at the end.
    pub open spec fn block(&self) -> Seq<char> {
        join_entries(self.entries(), ": "@, "\r\n"@)
    }

    /// The collection holds the map that its entries stand for.
    pub proof fn lemma_view(&self)
        ensures
            self@ == entries_map(self.entries()),
    {
    }

    /// The empty collection.
    pub fn new() -> (h: Self)
        ensures
            h@ == Map::<Seq<char>, Seq<char>>::empty(),
            h.entries() == Seq::<Pair>::empty(),
    {
        HttpHeader { map: OrderedMap::new() }
    }

    /// The number of entries.
    pub fn len(&self) -> (n: usize)
        ensures
            n == self.entries().len(),
    {
        self.map.len()
    }

    /// Puts `value` under `key`, taken as it is, in place of the value
    /// that stood there.
    pub fn set(&mut self, key: String, value: String)
        ensures
            final(self)@ == old(self)@.insert(key@, value@),
            ascending(final(self).entries()),
    {
        self.map.insert(key, value);
    }

    /// The value that stands under `key`, taken as it is.
    pub fn lookup(&self, key: &str) -> (value: Option<&String>)
        ensures
            match value {
                Some(v) => self@.contains_key(key@) && v@ == self@[key@],
                None => !self@.contains_key(key@),
            },
    {
        self.map.get(key)
    }

    /// Takes out the entry that stands under `key`, taken as it is.
    pub fn discard(&mut self, key: &str)
        ensures
            final(self)@ == old(self)@.remove(key@),
            ascending(final(self).entries()),
    {
        self.map.remove(key);
    }

    /// Puts `value` under the lower-case form of `key`, in place of the
    /// value that stood there.
    pub fn add(&mut self, key: &str, value: &str)
        ensures
            final(self)@ == old(self)@.insert(lowercase_of(key@), value@),
            ascending(final(self).entries()),
    {
        let key = to_lowercase(key);
        self.set(key, String::from_str(value));
    }

    /// The value that stands under the lower-case form of `key`.
    pub fn get(&self, key: &str) -> (value: Option<&String>)
        ensures
            match value {
                Some(v) => self@.contains_key(lowercase_of(key@)) && v@ == self@[lowercase_of(
                    key@,
                )],
                None => !self@.contains_key(lowercase_of(key@)),
            },
    {
        let key = to_lowercase(key);
        self.lookup(key.as_str())
    }

    /// Takes out the entry that stands under the lower-case form of `key`.
    pub fn remove(&mut self, key: &str)
        ensures
            final(self)@ == old(self)@.remove(lowercase_of(key@)),
            ascending(final(self).entries()),
    {
        let key = to_lowercase(key);
        self.discard(key.as_str());
    }

    /// The collection that holds the given pairs, added one after the
    /// other.
    pub fn from_pairs(pairs: &[(&str, &str)]) -> (h: Self)
        ensures
            h@ == added(pairs@, pairs@.len() as int),
            ascending(h.entries()),
    {
        let mut h = Self::new();
        let mut i: usize = 0;
        while i < pairs.len()
            invariant
                i <= pairs@.len(),
                h@ == added(pairs@, i as int),
                ascending(h.entries()),
            decreases pairs@.len() - i,
        {
            h.add(pairs[i].0, pairs[i].1);
            i = i + 1;
        }
        h
    }

    /// The header block: the entries as `key: value` lines in key order.
    pub fn to_string(&self) -> (text: String)
        ensures
            text@ == self.block(),
            ascending(self.entries()),
    {
        self.map.render(": ", "\r\n")
    }
}

/// The map that holds the first `n` of the given pairs, added one after
/// the other under the lower-case forms of their keys.
pub open spec fn added(pairs: Seq<(&str, &str)>, n: int) -> Map<Seq<char>, Seq<char>>
    decreases n,
{
    if n <= 0 {
        Map::empty()
    } else {
        added(pairs, n - 1).insert(lowercase_of(pairs[n - 1].0@), pairs[n - 1].1@)
    }
}

impl Default for HttpHeader {
    fn default() -> (h: Self)
        ensures
            h@ == Map::<Seq<char>, Seq<char>>::empty(),
            h.entries() == Seq::<Pair>::empty(),
    {
        Self::new()
    }
}

impl Clone for HttpHeader {
    fn clone(&self) -> (copy: Self)
        ensures
            copy@ == self@,
            copy.entries() == self.entries(),
    {
        HttpHeader { map: self.map.clone() }
    }
}

} // verus!
