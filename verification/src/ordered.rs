//! A map from strings to strings that keeps its entries in ascending key
//! order. Both the header collection and the query parameters are built on
//! it, so that both render in one fixed order however they were filled.
use vstd::prelude::*;
use vstd::utf8::encode_utf8;
use vstd::utf8::encode_utf8_decode_utf8;

verus! {

/// One entry of the model: a key and its value.
pub type Pair = (Seq<char>, Seq<char>);

/// Lexicographic order on byte sequences.
pub open spec fn bytes_lt(a: Seq<u8>, b: Seq<u8>) -> bool
    decreases a.len(),
{
    if b.len() == 0 {
        false
    } else if a.len() == 0 {
        true
    } else if a[0] == b[0] {
        bytes_lt(a.skip(1), b.skip(1))
    } else {
        a[0] < b[0]
    }
}

/// The order of keys: that of their UTF-8 bytes.
pub open spec fn key_lt(a: Seq<char>, b: Seq<char>) -> bool {
    bytes_lt(encode_utf8(a), encode_utf8(b))
}

/// Entries in strictly ascending key order; no key occurs twice.
pub open spec fn ascending(e: Seq<Pair>) -> bool {
    forall|i: int, j: int| 0 <= i < j < e.len() ==> key_lt(#[trigger] e[i].0, #[trigger] e[j].0)
}

/// Whether some entry of `e` has the key `k`.
pub open spec fn has_key(e: Seq<Pair>, k: Seq<char>) -> bool {
    exists|i: int| 0 <= i < e.len() && #[trigger] e[i].0 == k
}

/// An index at which `e` holds the key `k`.
pub open spec fn index_of_key(e: Seq<Pair>, k: Seq<char>) -> int {
    choose|i: int| 0 <= i < e.len() && #[trigger] e[i].0 == k
}

/// The map that the entries stand for.
pub open spec fn entries_map(e: Seq<Pair>) -> Map<Seq<char>, Seq<char>> {
    Map::new(|k: Seq<char>| has_key(e, k), |k: Seq<char>| e[index_of_key(e, k)].1)
}

/// The entries written one after the other, `mid` between a key and its
/// value and `sep` between two entries.
pub open spec fn join_entries(e: Seq<Pair>, mid: Seq<char>, sep: Seq<char>) -> Seq<char>
    decreases e.len(),
{
    if e.len() == 0 {
        Seq::empty()
    } else if e.len() == 1 {
        e[0].0 + mid + e[0].1
    } else {
        join_entries(e.drop_last(), mid, sep) + sep + e.last().0 + mid + e.last().1
    }
}

/// No byte sequence comes before itself.
pub proof fn lemma_bytes_lt_irreflexive(a: Seq<u8>)
    ensures
        !bytes_lt(a, a),
    decreases a.len(),
{
    if a.len() > 0 {
        lemma_bytes_lt_irreflexive(a.skip(1));
    }
}

/// The order on byte sequences is transitive.
pub proof fn lemma_bytes_lt_transitive(a: Seq<u8>, b: Seq<u8>, c: Seq<u8>)
    requires
        bytes_lt(a, b),
        bytes_lt(b, c),
    ensures
        bytes_lt(a, c),
    decreases a.len(),
{
    if a.len() > 0 && a[0] == b[0] && b[0] == c[0] {
        lemma_bytes_lt_transitive(a.skip(1), b.skip(1), c.skip(1));
    }
}

/// Where two byte sequences agree on their first `n` bytes, their order is
/// that of what follows.
pub proof fn lemma_bytes_lt_common_prefix(a: Seq<u8>, b: Seq<u8>, n: int)
    requires
        0 <= n <= a.len(),
        n <= b.len(),
        a.take(n) == b.take(n),
    ensures
        bytes_lt(a, b) == bytes_lt(a.skip(n), b.skip(n)),
    decreases n,
{
    if n == 0 {
        assert(a.skip(0) == a);
        assert(b.skip(0) == b);
    } else {
        assert(b[0] == b.take(n)[0]);
        assert(a.skip(1).take(n - 1) == a.take(n).skip(1));
        assert(b.skip(1).take(n - 1) == b.take(n).skip(1));
        lemma_bytes_lt_common_prefix(a.skip(1), b.skip(1), n - 1);
        assert(a.skip(1).skip(n - 1) == a.skip(n));
        assert(b.skip(1).skip(n - 1) == b.skip(n));
    }
}

/// In ascending entries a key has one index only, and the map holds
/// exactly the entries.
pub proof fn lemma_entries_map(e: Seq<Pair>)
    requires
        ascending(e),
    ensures
        forall|i: int|
            0 <= i < e.len() ==> entries_map(e).contains_key(#[trigger] e[i].0) && entries_map(
                e,
            )[e[i].0] == e[i].1,
        forall|k: Seq<char>| #[trigger]
            entries_map(e).contains_key(k) ==> 0 <= index_of_key(e, k) < e.len() && e[index_of_key(
                e,
                k,
            )].0 == k,
{
    assert forall|i: int| 0 <= i < e.len() implies entries_map(e).contains_key(#[trigger] e[i].0)
        && entries_map(e)[e[i].0] == e[i].1 by {
        lemma_bytes_lt_irreflexive(encode_utf8(e[i].0));
    }
}

/// How a key stands to another in the order of keys.
#[derive(PartialEq, Eq, Structural, Clone, Copy, Debug)]
pub enum Rank {
    Before,
    Same,
    After,
}

/// Ranks `a` against `b` in the lexicographic order of bytes.
pub fn rank_bytes(a: &[u8], b: &[u8]) -> (r: Rank)
    ensures
        r == Rank::Before <==> bytes_lt(a@, b@),
        r == Rank::Same <==> a@ == b@,
        r == Rank::After <==> bytes_lt(b@, a@),
{
    let mut i: usize = 0;
    while i < a.len() && i < b.len() && a[i] == b[i]
        invariant
            i <= a@.len(),
            i <= b@.len(),
            a@.take(i as int) == b@.take(i as int),
        decreases a@.len() - i,
    {
        i = i + 1;
    }
    proof {
        lemma_bytes_lt_common_prefix(a@, b@, i as int);
        lemma_bytes_lt_common_prefix(b@, a@, i as int);
        lemma_bytes_lt_irreflexive(a@);
        if i == a@.len() && i == b@.len() {
            assert(a@ == a@.take(i as int));
            assert(b@ == b@.take(i as int));
        }
    }
    if i < a.len() && i < b.len() {
        if a[i] < b[i] {
            Rank::Before
        } else {
            Rank::After
        }
    } else if i < b.len() {
        Rank::Before
    } else if i < a.len() {
        Rank::After
    } else {
        Rank::Same
    }
}

/// Ranks the key `a` against the key `b`.
pub fn rank_keys(a: &str, b: &str) -> (r: Rank)
    ensures
        r == Rank::Before <==> key_lt(a@, b@),
        r == Rank::Same <==> a@ == b@,
        r == Rank::After <==> key_lt(b@, a@),
{
    proof {
        encode_utf8_decode_utf8(a@);
        encode_utf8_decode_utf8(b@);
    }
    rank_bytes(a.as_bytes(), b.as_bytes())
}

/// A key that no entry holds is not in the map.
pub proof fn lemma_absent_key(e: Seq<Pair>, k: Seq<char>)
    requires
        forall|i: int| 0 <= i < e.len() ==> #[trigger] e[i].0 != k,
    ensures
        !entries_map(e).contains_key(k),
{
}

/// Putting a new key at its place keeps the order and inserts into the map.
pub proof fn lemma_insert_entry(e: Seq<Pair>, at: int, k: Seq<char>, v: Seq<char>)
    requires
        ascending(e),
        0 <= at <= e.len(),
        forall|i: int| 0 <= i < at ==> key_lt(#[trigger] e[i].0, k),
        forall|i: int| at <= i < e.len() ==> key_lt(k, #[trigger] e[i].0),
    ensures
        ascending(e.insert(at, (k, v))),
        entries_map(e.insert(at, (k, v))) == entries_map(e).insert(k, v),
{
    let f = e.insert(at, (k, v));
    assert forall|i: int, j: int| 0 <= i < j < f.len() implies key_lt(
        #[trigger] f[i].0,
        #[trigger] f[j].0,
    ) by {}
    lemma_entries_map(e);
    lemma_entries_map(f);
    let m = entries_map(e).insert(k, v);
    assert forall|x: Seq<char>| entries_map(f).contains_key(x) implies m.contains_key(x)
        && entries_map(f)[x] == m[x] by {
        lemma_bytes_lt_irreflexive(encode_utf8(k));
    }
    assert forall|x: Seq<char>| m.contains_key(x) implies entries_map(f).contains_key(x) by {
        if x == k {
            assert(f[at].0 == k);
        } else {
            let i = index_of_key(e, x);
            if i < at {
                assert(f[i] == e[i]);
            } else {
                assert(f[i + 1] == e[i]);
            }
        }
    }
}

/// Giving a key that is there a new value keeps the order and inserts into
/// the map.
pub proof fn lemma_update_entry(e: Seq<Pair>, at: int, v: Seq<char>)
    requires
        ascending(e),
        0 <= at < e.len(),
    ensures
        ascending(e.update(at, (e[at].0, v))),
        entries_map(e.update(at, (e[at].0, v))) == entries_map(e).insert(e[at].0, v),
{
    let k = e[at].0;
    let f = e.update(at, (k, v));
    assert forall|i: int, j: int| 0 <= i < j < f.len() implies key_lt(
        #[trigger] f[i].0,
        #[trigger] f[j].0,
    ) by {}
    lemma_entries_map(e);
    lemma_entries_map(f);
    let m = entries_map(e).insert(k, v);
    assert forall|x: Seq<char>| entries_map(f).contains_key(x) implies m.contains_key(x)
        && entries_map(f)[x] == m[x] by {
        if x == k {
            assert(f[at].0 == k);
        }
    }
    assert forall|x: Seq<char>| m.contains_key(x) implies entries_map(f).contains_key(x) by {
        if x != k {
            let i = index_of_key(e, x);
            assert(f[i] == e[i]);
        }
    }
}

/// Taking an entry out keeps the order and removes its key from the map.
pub proof fn lemma_remove_entry(e: Seq<Pair>, at: int)
    requires
        ascending(e),
        0 <= at < e.len(),
    ensures
        ascending(e.remove(at)),
        entries_map(e.remove(at)) == entries_map(e).remove(e[at].0),
{
    let k = e[at].0;
    let f = e.remove(at);
    assert forall|i: int, j: int| 0 <= i < j < f.len() implies key_lt(
        #[trigger] f[i].0,
        #[trigger] f[j].0,
    ) by {}
    lemma_entries_map(e);
    lemma_entries_map(f);
    lemma_bytes_lt_irreflexive(encode_utf8(k));
    let m = entries_map(e).remove(k);
    assert forall|x: Seq<char>| entries_map(f).contains_key(x) implies m.contains_key(x)
        && entries_map(f)[x] == m[x] by {}
    assert forall|x: Seq<char>| m.contains_key(x) implies entries_map(f).contains_key(x) by {
        let i = index_of_key(e, x);
        if i < at {
            assert(f[i] == e[i]);
        } else {
            assert(f[i - 1] == e[i]);
        }
    }
}

/// Ascending entries are determined by the map they stand for: the order
/// in which a map was filled leaves no trace.
pub proof fn lemma_ascending_unique(e: Seq<Pair>, f: Seq<Pair>)
    requires
        ascending(e),
        ascending(f),
        entries_map(e) == entries_map(f),
    ensures
        e == f,
{
    lemma_entries_map(e);
    lemma_entries_map(f);
    lemma_common_prefix(e, f, if e.len() <= f.len() {
        e.len() as int
    } else {
        f.len() as int
    });
    if e.len() <= f.len() {
        lemma_same_length(f, e);
    } else {
        lemma_same_length(e, f);
    }
}

/// Two ascending lists for one map agree on their first `n` entries.
proof fn lemma_common_prefix(e: Seq<Pair>, f: Seq<Pair>, n: int)
    requires
        ascending(e),
        ascending(f),
        entries_map(e) == entries_map(f),
        0 <= n <= e.len(),
        n <= f.len(),
    ensures
        forall|i: int| 0 <= i < n ==> e[i] == f[i],
    decreases n,
{
    if n > 0 {
        lemma_common_prefix(e, f, n - 1);
        lemma_entries_map(e);
        lemma_entries_map(f);
        let i = n - 1;
        assert(entries_map(f).contains_key(e[i].0));
        assert(entries_map(e).contains_key(f[i].0));
        let j = index_of_key(f, e[i].0);
        let h = index_of_key(e, f[i].0);
        lemma_bytes_lt_irreflexive(encode_utf8(e[i].0));
        lemma_bytes_lt_irreflexive(encode_utf8(f[i].0));
        if j < i {
            assert(e[j] == f[j]);
            assert(key_lt(e[j].0, e[i].0));
        }
        if h < i {
            assert(e[h] == f[h]);
            assert(key_lt(f[h].0, f[i].0));
        }
        if j > i {
            assert(key_lt(f[i].0, f[j].0));
            if h > i {
                assert(key_lt(e[i].0, e[h].0));
                lemma_bytes_lt_transitive(
                    encode_utf8(f[i].0),
                    encode_utf8(e[i].0),
                    encode_utf8(f[i].0),
                );
            }
        }
        assert(entries_map(e)[e[i].0] == e[i].1);
        assert(entries_map(f)[f[i].0] == f[i].1);
    }
}

/// Two ascending lists for one map, one of which starts with the other,
/// have one length.
proof fn lemma_same_length(long: Seq<Pair>, short: Seq<Pair>)
    requires
        ascending(long),
        ascending(short),
        entries_map(long) == entries_map(short),
        short.len() <= long.len(),
        forall|i: int| 0 <= i < short.len() ==> long[i] == short[i],
    ensures
        long.len() == short.len(),
{
    if short.len() < long.len() {
        lemma_entries_map(long);
        lemma_entries_map(short);
        let i = short.len() as int;
        assert(entries_map(short).contains_key(long[i].0));
        let j = index_of_key(short, long[i].0);
        assert(long[j] == short[j]);
        assert(key_lt(long[j].0, long[i].0));
        lemma_bytes_lt_irreflexive(encode_utf8(long[i].0));
    }
}

/// The model of a list of stored entries.
pub open spec fn pairs_of(items: Seq<(String, String)>) -> Seq<Pair> {
    Seq::new(items.len(), |i: int| (items[i].0@, items[i].1@))
}

/// A map from strings to strings whose entries stand in ascending key
/// order.
#[derive(Debug)]
pub struct OrderedMap {
    items: Vec<(String, String)>,
}

impl View for OrderedMap {
    type V = Map<Seq<char>, Seq<char>>;

    open spec fn view(&self) -> Map<Seq<char>, Seq<char>> {
        entries_map(self.entries())
    }
}

impl OrderedMap {
    /// The entries, in the order in which they are rendered.
    pub closed spec fn entries(&self) -> Seq<Pair> {
        pairs_of(self.items@)
    }

    #[verifier::type_invariant]
    spec fn well_formed(&self) -> bool {
        ascending(self.entries())
    }

    /// The empty map.
    pub fn new() -> (m: Self)
        ensures
            m.entries() == Seq::<Pair>::empty(),
            m@ == Map::<Seq<char>, Seq<char>>::empty(),
    {
        let m = OrderedMap { items: Vec::new() };
        m
    }

    /// The number of entries.
    pub fn len(&self) -> (n: usize)
        ensures
            n == self.entries().len(),
    {
        self.items.len()
    }

    /// Where `key` stands, or would stand, among the entries, and whether
    /// it is there.
    fn locate(&self, key: &str) -> (at: (usize, bool))
        ensures
            at.0 <= self.entries().len(),
            ascending(self.entries()),
            forall|i: int| 0 <= i < at.0 ==> key_lt(#[trigger] self.entries()[i].0, key@),
            at.1 ==> at.0 < self.entries().len() && self.entries()[at.0 as int].0 == key@,
            !at.1 ==> forall|i: int|
                at.0 <= i < self.entries().len() ==> key_lt(key@, #[trigger] self.entries()[i].0),
    {
        proof {
            use_type_invariant(self);
        }
        let mut i: usize = 0;
        while i < self.items.len()
            invariant
                i <= self.items@.len(),
                ascending(self.entries()),
                forall|j: int| 0 <= j < i ==> key_lt(#[trigger] self.entries()[j].0, key@),
            decreases self.items@.len() - i,
        {
            match rank_keys(self.items[i].0.as_str(), key) {
                Rank::Before => {},
                Rank::Same => {
                    return (i, true);
                },
                Rank::After => {
                    assert forall|j: int| i <= j < self.entries().len() implies key_lt(
                        key@,
                        #[trigger] self.entries()[j].0,
                    ) by {
                        if j > i {
                            lemma_bytes_lt_transitive(
                                encode_utf8(key@),
                                encode_utf8(self.entries()[i as int].0),
                                encode_utf8(self.entries()[j].0),
                            );
                        }
                    }
                    return (i, false);
                },
            }
            i = i + 1;
        }
        (i, false)
    }

    /// The value that stands under `key`, if any.
    pub fn get(&self, key: &str) -> (value: Option<&String>)
        ensures
            match value {
                Some(v) => self@.contains_key(key@) && v@ == self@[key@],
                None => !self@.contains_key(key@),
            },
    {
        let (at, found) = self.locate(key);
        proof {
            lemma_entries_map(self.entries());
            lemma_bytes_lt_irreflexive(encode_utf8(key@));
        }
        if found {
            Some(&self.items[at].1)
        } else {
            proof {
                lemma_absent_key(self.entries(), key@);
            }
            None
        }
    }

    /// Puts `value` under `key`, in place of the value that stood there.
    pub fn insert(&mut self, key: String, value: String)
        ensures
            final(self)@ == old(self)@.insert(key@, value@),
            ascending(final(self).entries()),
    {
        let (at, found) = self.locate(key.as_str());
        let ghost before = self.entries();
        let mut items: Vec<(String, String)> = Vec::new();
        std::mem::swap(&mut items, &mut self.items);
        if found {
            items[at] = (key, value);
            proof {
                lemma_update_entry(before, at as int, value@);
            }
        } else {
            items.insert(at, (key, value));
            proof {
                lemma_insert_entry(before, at as int, key@, value@);
            }
        }
        assert(pairs_of(items@) =~= if found {
            before.update(at as int, (key@, value@))
        } else {
            before.insert(at as int, (key@, value@))
        });
        self.items = items;
    }

    /// Takes out the entry that stands under `key`, if there is one.
    pub fn remove(&mut self, key: &str)
        ensures
            final(self)@ == old(self)@.remove(key@),
            ascending(final(self).entries()),
    {
        let (at, found) = self.locate(key);
        let ghost before = self.entries();
        if found {
            let mut items: Vec<(String, String)> = Vec::new();
            std::mem::swap(&mut items, &mut self.items);
            items.remove(at);
            proof {
                lemma_remove_entry(before, at as int);
            }
            assert(pairs_of(items@) =~= before.remove(at as int));
            self.items = items;
        } else {
            proof {
                lemma_bytes_lt_irreflexive(encode_utf8(key@));
                lemma_absent_key(before, key@);
            }
        }
    }

    /// The entries in key order, `mid` between a key and its value and
    /// `sep` between two entries.
    pub fn render(&self, mid: &str, sep: &str) -> (text: String)
        ensures
            text@ == join_entries(self.entries(), mid@, sep@),
            ascending(self.entries()),
    {
        proof {
            use_type_invariant(self);
        }
        let mut text = String::new();
        let mut i: usize = 0;
        while i < self.items.len()
            invariant
                i <= self.items@.len(),
                text@ == join_entries(self.entries().take(i as int), mid@, sep@),
            decreases self.items@.len() - i,
        {
            let ghost head = self.entries().take(i as int);
            let ghost next = self.entries().take(i + 1);
            assert(next.drop_last() == head);
            if i > 0 {
                text.append(sep);
            }
            text.append(self.items[i].0.as_str());
            text.append(mid);
            text.append(self.items[i].1.as_str());
            assert(text@ == join_entries(next, mid@, sep@));
            i = i + 1;
        }
        assert(self.entries().take(i as int) == self.entries());
        text
    }
}

impl Clone for OrderedMap {
    fn clone(&self) -> (copy: Self)
        ensures
            copy.entries() == self.entries(),
            copy@ == self@,
    {
        proof {
            use_type_invariant(self);
        }
        let mut items: Vec<(String, String)> = Vec::new();
        let mut i: usize = 0;
        while i < self.items.len()
            invariant
                i <= self.items@.len(),
                items@.len() == i,
                pairs_of(items@) == self.entries().take(i as int),
            decreases self.items@.len() - i,
        {
            let ghost before = items@;
            let key = self.items[i].0.clone();
            let value = self.items[i].1.clone();
            items.push((key, value));
            assert forall|j: int| 0 <= j < i + 1 implies pairs_of(items@)[j]
                == self.entries()[j] by {
                if j < i {
                    assert(pairs_of(before)[j] == self.entries().take(i as int)[j]);
                }
            }
            i = i + 1;
        }
        assert(self.entries().take(i as int) == self.entries());
        OrderedMap { items }
    }
}

} // verus!
