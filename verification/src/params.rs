//! The query parameters: a map from names to values that renders as a
//! query string in key order.
use crate::ordered::ascending;
use crate::ordered::entries_map;
use crate::ordered::join_entries;
use crate::ordered::OrderedMap;
use crate::ordered::Pair;
use vstd::prelude::*;

verus! {

/// The query parameters of a request. Each key has one value, and the
/// entries stand in ascending key order.
#[derive(Debug)]
pub struct HttpParams {
    map: OrderedMap,
}

impl View for HttpParams {
    type V = Map<Seq<char>, Seq<char>>;

    closed spec fn view(&self) -> Map<Seq<char>, Seq<char>> {
        self.map@
    }
}

impl HttpParams {
    /// The entries, in the order in which they are rendered.
    pub closed spec fn entries(&self) -> Seq<Pair> {
        self.map.entries()
    }

    /// The query string: one `key=value` pair per entry, in key order,
    /// with `&` between two pairs.
    pub open spec fn query(&self) -> Seq<char> {
        join_entries(self.entries(), "="@, "&"@)
    }

    /// The parameters hold the map that their entries stand for.
    pub proof fn lemma_view(&self)
        ensures
            self@ == entries_map(self.entries()),
    {
    }

    /// No parameters.
    pub fn new() -> (p: Self)
        ensures
            p@ == Map::<Seq<char>, Seq<char>>::empty(),
            p.entries() == Seq::<Pair>::empty(),
    {
        HttpParams { map: OrderedMap::new() }
    }

    /// Puts `value` under `key`, in place of the value that stood there.
    pub fn add(&mut self, key: &str, value: &str)
        ensures
            final(self)@ == old(self)@.insert(key@, value@),
            ascending(final(self).entries()),
    {
        self.map.insert(String::from_str(key), String::from_str(value));
    }

    /// The parameters that hold the given pairs, added one after the
    /// other.
    pub fn from_pairs(pairs: &[(&str, &str)]) -> (p: Self)
        ensures
            p@ == collected(pairs@, pairs@.len() as int),
            ascending(p.entries()),
    {
        let mut p = Self::new();
        let mut i: usize = 0;
        while i < pairs.len()
            invariant
                i <= pairs@.len(),
                p@ == collected(pairs@, i as int),
                ascending(p.entries()),
            decreases pairs@.len() - i,
        {
            p.add(pairs[i].0, pairs[i].1);
            i = i + 1;
        }
        p
    }

    /// The query string: the entries as `key=value` pairs in key order.
    pub fn to_string(&self) -> (text: String)
        ensures
            text@ == self.query(),
            ascending(self.entries()),
    {
        self.map.render("=", "&")
    }
}

/// The map that holds the first `n` of the given pairs, added one after
/// the other.
pub open spec fn collected(pairs: Seq<(&str, &str)>, n: int) -> Map<Seq<char>, Seq<char>>
    decreases n,
{
    if n <= 0 {
        Map::empty()
    } else {
        collected(pairs, n - 1).insert(pairs[n - 1].0@, pairs[n - 1].1@)
    }
}

impl Clone for HttpParams {
    fn clone(&self) -> (copy: Self)
        ensures
            copy@ == self@,
            copy.entries() == self.entries(),
    {
        HttpParams { map: self.map.clone() }
    }
}

} // verus!
