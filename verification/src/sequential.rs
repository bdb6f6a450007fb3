//! A single-owner map from byte-string keys to `u64` values, stored in an
//! adaptive radix tree.
pub mod entry;
pub mod key;
pub mod value;

use vstd::prelude::*;
use crate::bytes::is_proper_prefix;
use crate::bytes::lemma_lex_sorted_unique;
use crate::bytes::lex_lt;
use crate::bytes::lex_sorted;
use crate::raw::cursor;
use crate::sequential::value::Value;
use crate::raw::cursor::has_prefix_path;
use crate::raw::cursor::lemma_no_prefix_path;
use crate::raw::iter::common_prefix_len;
use crate::bytes::common_len;
use crate::bytes::is_prefix;
use crate::bytes::lex_le;
use crate::bytes::lemma_between_shares_prefix;
use vstd::slice::slice_subrange;
use crate::raw::edge::Edge;
use crate::raw::edge::compatible;
use crate::raw::iter::Filter;
use crate::raw::iter::Include;
use crate::raw::iter::Unbound;
use crate::raw::iter::collect;
use crate::raw::iter::find;
use crate::raw::iter::lists;
use crate::raw::iter::sorted;
use crate::raw::key::vec::Reader;
use crate::raw::key::integer::from_be_bytes;
use crate::raw::key::integer::to_be_bytes;
use crate::bytes::be8;

verus! {

/// A map from byte strings to `u64`.
///
/// No stored key may be a proper prefix of another: `history` holds every
/// key ever stored, and a new key must be `compatible` with it.
pub struct RadixMap {
    root: Edge,
    hist: Ghost<Set<Seq<u8>>>,
}

impl View for RadixMap {
    type V = Map<Seq<u8>, u64>;

    closed spec fn view(&self) -> Map<Seq<u8>, u64> {
        Map::new(|k: Seq<u8>| self.root.lookup(k) is Some, |k: Seq<u8>| self.root.lookup(k)->0)
    }
}

/// `s` lists, in increasing key order, exactly the entries of `m` that `f`
/// admits.
pub open spec fn listing(s: Seq<(Vec<u8>, u64)>, m: Map<Seq<u8>, u64>, f: Filter) -> bool {
    &&& sorted(s)
    &&& forall|j: int|
        0 <= j < s.len() ==> f.admits((#[trigger] s[j]).0@) && m.get(s[j].0@) == Some(s[j].1)
    &&& forall|k: Seq<u8>|
        f.admits(k) && #[trigger] m.contains_key(k) ==> exists|j: int|
            0 <= j < s.len() && (#[trigger] s[j]).0@ == k
}

/// The keys of a listing.
pub open spec fn keys_of(s: Seq<(Vec<u8>, u64)>) -> Seq<Seq<u8>> {
    s.map_values(|e: (Vec<u8>, u64)| e.0@)
}

/// The values of a listing.
pub open spec fn values_of(s: Seq<(Vec<u8>, u64)>) -> Seq<u64> {
    s.map_values(|e: (Vec<u8>, u64)| e.1)
}

/// `s` holds the entries of `m` that `f` admits, each once, in any order.
pub open spec fn unordered_listing(s: Seq<(Vec<u8>, u64)>, m: Map<Seq<u8>, u64>, f: Filter) -> bool {
    &&& keys_of(s).no_duplicates()
    &&& forall|j: int|
        0 <= j < s.len() ==> f.admits((#[trigger] s[j]).0@) && m.get(s[j].0@) == Some(s[j].1)
    &&& forall|k: Seq<u8>|
        f.admits(k) && #[trigger] m.contains_key(k) ==> exists|j: int|
            0 <= j < s.len() && (#[trigger] s[j]).0@ == k
}

impl RadixMap {
    /// Every key ever stored.
    pub closed spec fn history(&self) -> Set<Seq<u8>> {
        self.hist@
    }

    /// The tree that holds the map.
    pub closed spec fn tree(&self) -> Edge {
        self.root
    }

    /// The root edge of the tree, for walking it.
    pub fn root(&self) -> (r: &Edge)
        requires
            self.wf(),
        ensures
            *r == self.tree(),
            r.wf(),
    {
        &self.root
    }

    /// Every stored key is in the history.
    pub proof fn lemma_dom_in_history(&self)
        requires
            self.wf(),
        ensures
            forall|k: Seq<u8>| #[trigger] self@.contains_key(k) ==> self.history().contains(k),
    {
    }

    /// The tree is well formed and every path in it comes from the history.
    pub closed spec fn wf(&self) -> bool {
        &&& self.root.wf()
        &&& self.root.paths_ok(Seq::empty(), self.hist@)
        &&& forall|k: Seq<u8>| #[trigger] self.root.lookup(k) is Some ==> self.hist@.contains(k)
    }

    /// The empty map.
    pub fn new() -> (r: RadixMap)
        ensures
            r.wf(),
            r@ == Map::<Seq<u8>, u64>::empty(),
            r.history() == Set::<Seq<u8>>::empty(),
    {
        let r = RadixMap { root: Edge::empty(), hist: Ghost(Set::empty()) };
        proof {
            assert forall|k: Seq<u8>| #[trigger] r.root.lookup(k) is None by {
                r.root.lemma_lookup_null(k);
            }
            assert(r@ =~= Map::<Seq<u8>, u64>::empty());
        }
        r
    }

    /// The value stored under `key`.
    pub fn get(&self, key: &[u8]) -> (r: Option<u64>)
        requires
            self.wf(),
        ensures
            r == self@.get(key@),
    {
        cursor::traverse_get(&self.root, Reader::new(key))
    }

    /// A reference to the value stored under `key`. What is written through
    /// it becomes the value under `key`; nothing else changes.
    pub fn get_mut<'a>(&'a mut self, key: &[u8]) -> (r: Option<&'a mut u64>)
        requires
            old(self).wf(),
        ensures
            final(self).wf(),
            final(self).history() == old(self).history(),
            r is Some <==> old(self)@.contains_key(key@),
            r matches Some(v) ==> *v == old(self)@[key@],
            r matches Some(v) ==> final(self)@ == old(self)@.insert(key@, *final(v)),
            r is None ==> final(self)@ == old(self)@,
    {
        let ghost hist = self.hist@;
        let ghost before = *self;
        proof {
            assert forall|k: Seq<u8>| #[trigger] self.root.lookup(k) is Some ==> hist.contains(k) by {}
        }
        cursor::get_mut(&mut self.root, Reader::new(key), Ghost(Seq::empty()), Ghost(hist))
    }

    /// Store `value` under `key`; returns the value it replaced.
    pub fn upsert(&mut self, key: &[u8], value: u64) -> (r: Option<u64>)
        requires
            old(self).wf(),
            compatible(key@, old(self).history()),
        ensures
            final(self).wf(),
            final(self)@ == old(self)@.insert(key@, value),
            final(self).history() == old(self).history().insert(key@),
            r == old(self)@.get(key@),
    {
        let ghost hist = self.hist@;
        let ghost before = self.root;
        let mut root = Edge::empty();
        std::mem::swap(&mut root, &mut self.root);
        proof {
            assert(Seq::<u8>::empty() + key@ =~= key@);
        }
        let (new_root, prev) = cursor::insert(
            root,
            Reader::new(key),
            value,
            Ghost(Seq::empty()),
            Ghost(hist),
        );
        self.root = new_root;
        self.hist = Ghost(hist.insert(key@));
        proof {
            assert(self@ =~= old(self)@.insert(key@, value));
        }
        prev
    }

    /// Remove the value stored under `key`; returns it.
    pub fn remove(&mut self, key: &[u8]) -> (r: Option<u64>)
        requires
            old(self).wf(),
        ensures
            final(self).wf(),
            final(self)@ == old(self)@.remove(key@),
            final(self).history() == old(self).history(),
            r == old(self)@.get(key@),
    {
        let ghost hist = self.hist@;
        let mut root = Edge::empty();
        std::mem::swap(&mut root, &mut self.root);
        let (new_root, prev) = cursor::remove(root, Reader::new(key), Ghost(Seq::empty()), Ghost(hist));
        self.root = new_root;
        proof {
            assert(self@ =~= old(self)@.remove(key@));
        }
        prev
    }

    /// The entries that `f` admits, in increasing key order.
    pub fn list(&self, f: &Filter) -> (r: Vec<(Vec<u8>, u64)>)
        requires
            self.wf(),
        ensures
            listing(r@, self@, *f),
    {
        let mut path: Vec<u8> = Vec::new();
        let mut out: Vec<(Vec<u8>, u64)> = Vec::new();
        collect(&self.root, &mut path, f, &mut out);
        proof {
            assert(out@.skip(0) =~= out@);
            assert forall|k: Seq<u8>| #[trigger] find(self.root, Seq::empty(), k) == self.root.lookup(k) by {
                assert(k.take(0) =~= Seq::<u8>::empty());
                assert(k.skip(0) =~= k);
            }
            assert forall|k: Seq<u8>| f.admits(k) && #[trigger] self@.contains_key(k) implies exists|
                j: int,
            | 0 <= j < out@.len() && (#[trigger] out@[j]).0@ == k by {
                assert(find(self.root, Seq::empty(), k) is Some);
            }
        }
        out
    }

    /// The entries that `f` admits, in decreasing key order.
    pub fn list_descending(&self, f: &Filter) -> (r: Vec<(Vec<u8>, u64)>)
        requires
            self.wf(),
        ensures
            exists|s: Seq<(Vec<u8>, u64)>| listing(s, self@, *f) && r@ == s.reverse(),
    {
        let mut ascending = self.list(f);
        let ghost s = ascending@;
        let mut out: Vec<(Vec<u8>, u64)> = Vec::new();
        while ascending.len() > 0
            invariant
                ascending@ == s.take(ascending@.len() as int),
                ascending@.len() <= s.len(),
                out@ == s.skip(ascending@.len() as int).reverse(),
            decreases ascending@.len(),
        {
            let ghost n = ascending@.len();
            let e = ascending.pop().unwrap();
            out.push(e);
            proof {
                assert(ascending@ =~= s.take(n - 1));
                assert(out@ =~= s.skip(n - 1).reverse());
            }
        }
        proof {
            assert(s.skip(0) =~= s);
        }
        out
    }

    /// The entries with keys from `lower` to `upper`, both included, in
    /// increasing key order; `None` when the tree has no subtree for what
    /// the two bounds have in common, and so no key between them.
    pub fn range(&self, lower: &[u8], upper: &[u8]) -> (r: Option<Vec<(Vec<u8>, u64)>>)
        requires
            self.wf(),
        ensures
            r is Some <==> has_prefix_path(
                self.tree(),
                lower@.take(common_len(lower@, upper@) as int),
            ),
            r matches Some(s) ==> listing(s@, self@, Filter::range_inclusive_spec(lower, upper)),
            r is None ==> forall|k: Seq<u8>|
                lex_le(lower@, k) && lex_le(k, upper@) ==> !#[trigger] self@.contains_key(k),
    {
        let c = common_prefix_len(lower, upper);
        proof {
            crate::bytes::lemma_common_len_props(lower@, upper@);
        }
        let shared = slice_subrange(lower, 0, c);
        if !cursor::traverse_prefix(&self.root, shared) {
            proof {
                assert forall|k: Seq<u8>|
                    lex_le(lower@, k) && lex_le(k, upper@) implies !#[trigger] self@.contains_key(
                    k,
                ) by {
                    lemma_between_shares_prefix(lower@, upper@, k);
                    lemma_no_prefix_path(self.root, shared@, k);
                }
            }
            return None;
        }
        let f = Filter::range_inclusive(Include(lower), Include(upper));
        Some(self.list(&f))
    }

    /// The entries whose keys start with `prefix`, in increasing key order;
    /// `None` when the tree has no subtree for `prefix`, and so no such key.
    pub fn prefix(&self, prefix: &[u8]) -> (r: Option<Vec<(Vec<u8>, u64)>>)
        requires
            self.wf(),
        ensures
            r is Some <==> has_prefix_path(self.tree(), prefix@),
            r matches Some(s) ==> listing(s@, self@, Filter::with_prefix_spec(prefix)),
            r is None ==> forall|k: Seq<u8>|
                is_prefix(prefix@, k) ==> !#[trigger] self@.contains_key(k),
    {
        if !cursor::traverse_prefix(&self.root, prefix) {
            proof {
                assert forall|k: Seq<u8>| is_prefix(prefix@, k) implies !#[trigger] self@.contains_key(
                    k,
                ) by {
                    lemma_no_prefix_path(self.root, prefix@, k);
                }
            }
            return None;
        }
        let f = Filter::with_prefix(prefix);
        Some(self.list(&f))
    }

    /// Every entry, in increasing key order.
    pub fn all(&self) -> (r: Vec<(Vec<u8>, u64)>)
        requires
            self.wf(),
        ensures
            listing(r@, self@, Filter::full_spec()),
    {
        let f = Filter::range_full(Unbound, Unbound);
        self.list(&f)
    }
}

/// Listings in increasing key order.
pub struct Sorted;

/// Listings in no particular order.
pub struct Unsorted;

impl Sorted {
    /// The entries of `map` that `f` admits, in increasing key order.
    pub fn list(&self, map: &RadixMap, f: &Filter) -> (r: Vec<(Vec<u8>, u64)>)
        requires
            map.wf(),
        ensures
            listing(r@, map@, *f),
    {
        map.list(f)
    }
}

impl Unsorted {
    /// The entries of `map` that `f` admits, each once.
    pub fn list(&self, map: &RadixMap, f: &Filter) -> (r: Vec<(Vec<u8>, u64)>)
        requires
            map.wf(),
        ensures
            unordered_listing(r@, map@, *f),
    {
        let r = map.list(f);
        proof {
            lemma_sorted_distinct(r@);
        }
        r
    }
}

/// The keys of a sorted listing are distinct.
proof fn lemma_sorted_distinct(s: Seq<(Vec<u8>, u64)>)
    requires
        sorted(s),
    ensures
        keys_of(s).no_duplicates(),
{
    assert forall|i: int, j: int|
        0 <= i < keys_of(s).len() && 0 <= j < keys_of(s).len() && i != j implies keys_of(s)[i]
        != keys_of(s)[j] by {
        if i < j {
            crate::bytes::lemma_lex_lt_irreflexive(s[i].0@);
            assert(lex_lt(s[i].0@, s[j].0@));
        } else {
            crate::bytes::lemma_lex_lt_irreflexive(s[j].0@);
            assert(lex_lt(s[j].0@, s[i].0@));
        }
    }
}

/// A listing is determined by the map and the filter alone: any two listings
/// of the same entries hold the same keys and values in the same order.
pub proof fn lemma_listing_unique(
    s1: Seq<(Vec<u8>, u64)>,
    s2: Seq<(Vec<u8>, u64)>,
    m: Map<Seq<u8>, u64>,
    f: Filter,
)
    requires
        listing(s1, m, f),
        listing(s2, m, f),
    ensures
        keys_of(s1) == keys_of(s2),
        values_of(s1) == values_of(s2),
{
    let k1 = keys_of(s1);
    let k2 = keys_of(s2);
    assert(lex_sorted(k1));
    assert(lex_sorted(k2));
    assert forall|x: Seq<u8>| k1.contains(x) <==> k2.contains(x) by {
        if k1.contains(x) {
            let i = choose|i: int| 0 <= i < k1.len() && k1[i] == x;
            assert(s1[i].0@ == x);
            assert(m.contains_key(x));
            let j = choose|j: int| 0 <= j < s2.len() && (#[trigger] s2[j]).0@ == x;
            assert(k2[j] == x);
        }
        if k2.contains(x) {
            let i = choose|i: int| 0 <= i < k2.len() && k2[i] == x;
            assert(s2[i].0@ == x);
            assert(m.contains_key(x));
            let j = choose|j: int| 0 <= j < s1.len() && (#[trigger] s1[j]).0@ == x;
            assert(k1[j] == x);
        }
    }
    lemma_lex_sorted_unique(k1, k2);
    assert(values_of(s1) =~= values_of(s2)) by {
        assert forall|i: int| 0 <= i < s1.len() implies s1[i].1 == s2[i].1 by {
            assert(k1[i] == k2[i]);
        }
    }
}

/// The filter of two bounds admits exactly the keys between them.
pub proof fn lemma_range_admits(lower: &[u8], upper: &[u8], k: Seq<u8>)
    ensures
        Filter::range_inclusive_spec(lower, upper).admits(k) <==> (crate::bytes::lex_le(lower@, k)
            && crate::bytes::lex_le(k, upper@)),
{
}

/// A listing from a lower bound holds exactly the stored keys equal to the
/// bound or after it, in increasing order.
pub proof fn lemma_listing_from(s: Seq<(Vec<u8>, u64)>, m: Map<Seq<u8>, u64>, lower: &[u8])
    requires
        listing(s, m, Filter { lower: Some(lower), upper: None, prefix: None }),
    ensures
        forall|k: Seq<u8>|
            (exists|j: int| 0 <= j < s.len() && (#[trigger] s[j]).0@ == k) <==> (m.contains_key(k)
                && (k == lower@ || lex_lt(lower@, k))),
        forall|i: int, j: int| 0 <= i < j < s.len() ==> lex_lt(s[i].0@, s[j].0@),
{
    assert forall|k: Seq<u8>|
        (exists|j: int| 0 <= j < s.len() && (#[trigger] s[j]).0@ == k) <==> (m.contains_key(k) && (k
            == lower@ || lex_lt(lower@, k))) by {
        crate::raw::iter::lemma_lower_bound_admits(lower, k);
        if exists|j: int| 0 <= j < s.len() && (#[trigger] s[j]).0@ == k {
            let j = choose|j: int| 0 <= j < s.len() && (#[trigger] s[j]).0@ == k;
            assert(m.get(s[j].0@) == Some(s[j].1));
        }
    }
}

/// A listing of a prefix holds exactly the stored keys whose first bytes
/// are the prefix, the prefix itself included, in increasing order.
pub proof fn lemma_listing_prefix(s: Seq<(Vec<u8>, u64)>, m: Map<Seq<u8>, u64>, prefix: &[u8])
    requires
        listing(s, m, Filter::with_prefix_spec(prefix)),
    ensures
        forall|k: Seq<u8>|
            (exists|j: int| 0 <= j < s.len() && (#[trigger] s[j]).0@ == k) <==> (m.contains_key(k)
                && prefix@.len() <= k.len() && k.subrange(0, prefix@.len() as int) == prefix@),
        forall|i: int, j: int| 0 <= i < j < s.len() ==> lex_lt(s[i].0@, s[j].0@),
{
    assert forall|k: Seq<u8>|
        (exists|j: int| 0 <= j < s.len() && (#[trigger] s[j]).0@ == k) <==> (m.contains_key(k)
            && prefix@.len() <= k.len() && k.subrange(0, prefix@.len() as int) == prefix@) by {
        crate::raw::iter::lemma_prefix_admits(prefix, k);
        if exists|j: int| 0 <= j < s.len() && (#[trigger] s[j]).0@ == k {
            let j = choose|j: int| 0 <= j < s.len() && (#[trigger] s[j]).0@ == k;
            assert(m.get(s[j].0@) == Some(s[j].1));
        }
    }
}

/// After storing `value` under `key`, looking up `key` gives `value`, and
/// every other key gives what it gave before.
pub proof fn lemma_upsert_then_get(before: RadixMap, after: RadixMap, key: Seq<u8>, value: u64, other: Seq<u8>)
    requires
        after@ == before@.insert(key, value),
    ensures
        after@.get(key) == Some(value),
        other != key ==> after@.get(other) == before@.get(other),
{
}

/// After removing `key`, looking it up gives nothing, and every other key
/// gives what it gave before.
pub proof fn lemma_remove_then_get(before: RadixMap, after: RadixMap, key: Seq<u8>, other: Seq<u8>)
    requires
        after@ == before@.remove(key),
    ensures
        after@.get(key) is None,
        other != key ==> after@.get(other) == before@.get(other),
{
}

/// Storing a key and then removing it leaves the other keys as they were.
pub proof fn lemma_upsert_then_remove(m0: RadixMap, m1: RadixMap, m2: RadixMap, key: Seq<u8>, value: u64)
    requires
        m1@ == m0@.insert(key, value),
        m2@ == m1@.remove(key),
    ensures
        m2@ == m0@.remove(key),
{
    assert(m2@ =~= m0@.remove(key));
}

/// Storing two values under one key keeps the last, and the second store
/// reports the first value.
pub proof fn lemma_upsert_twice(m0: RadixMap, m1: RadixMap, m2: RadixMap, key: Seq<u8>, v1: u64, v2: u64)
    requires
        m1@ == m0@.insert(key, v1),
        m2@ == m1@.insert(key, v2),
    ensures
        m2@ == m0@.insert(key, v2),
        m1@.get(key) == Some(v1),
{
    assert(m2@ =~= m0@.insert(key, v2));
}

/// Keys of one length never conflict: each is compatible with a history of
/// keys of that length.
pub proof fn lemma_same_length_compatible(key: Seq<u8>, hist: Set<Seq<u8>>, n: nat)
    requires
        key.len() == n,
        forall|h: Seq<u8>| #[trigger] hist.contains(h) ==> h.len() == n,
    ensures
        compatible(key, hist),
{
}

/// A map from `u64` keys to `u64` values. Keys are stored as their bytes,
/// most significant first, so they all have one length and sort like the
/// integers they hold.
pub struct IntMap {
    map: RadixMap,
}

impl View for IntMap {
    type V = Map<u64, u64>;

    closed spec fn view(&self) -> Map<u64, u64> {
        Map::new(|k: u64| self.map@.contains_key(be8(k)), |k: u64| self.map@[be8(k)])
    }
}

/// `s` lists, in increasing key order, exactly the entries of `m` with keys
/// from `lower` to `upper`.
pub open spec fn int_listing(s: Seq<(u64, u64)>, m: Map<u64, u64>, lower: u64, upper: u64) -> bool {
    &&& forall|i: int, j: int| 0 <= i < j < s.len() ==> s[i].0 < s[j].0
    &&& forall|j: int|
        0 <= j < s.len() ==> lower <= (#[trigger] s[j]).0 <= upper && m.get(s[j].0) == Some(
            s[j].1,
        )
    &&& forall|k: u64|
        lower <= k <= upper && #[trigger] m.contains_key(k) ==> exists|j: int|
            0 <= j < s.len() && (#[trigger] s[j]).0 == k
}

/// `m` after storing each entry of `s` in turn.
pub open spec fn stored(m: Map<u64, u64>, s: Seq<(u64, u64)>) -> Map<u64, u64>
    decreases s.len(),
{
    if s.len() == 0 {
        m
    } else {
        stored(m, s.drop_last()).insert(s.last().0, s.last().1)
    }
}

impl IntMap {
    /// The tree that holds the map, keys as their big-endian bytes.
    pub closed spec fn tree(&self) -> Edge {
        self.map.tree()
    }

    pub closed spec fn wf(&self) -> bool {
        &&& self.map.wf()
        &&& forall|h: Seq<u8>| #[trigger] self.map.history().contains(h) ==> h.len() == 8
    }

    /// The empty map.
    pub fn new() -> (r: IntMap)
        ensures
            r.wf(),
            r@ == Map::<u64, u64>::empty(),
    {
        let r = IntMap { map: RadixMap::new() };
        proof {
            assert(r@ =~= Map::<u64, u64>::empty());
        }
        r
    }

    /// A map holding `entries`, stored in turn: of two entries with one key,
    /// the later stays.
    pub fn from_entries(entries: &[(u64, u64)]) -> (r: IntMap)
        ensures
            r.wf(),
            r@ == stored(Map::empty(), entries@),
    {
        let mut map = IntMap::new();
        let mut i: usize = 0;
        while i < entries.len()
            invariant
                i <= entries@.len(),
                map.wf(),
                map@ == stored(Map::empty(), entries@.take(i as int)),
            decreases entries@.len() - i,
        {
            let (k, v) = entries[i];
            map.upsert(k, v);
            proof {
                assert(entries@.take(i + 1).drop_last() =~= entries@.take(i as int));
            }
            i += 1;
        }
        proof {
            assert(entries@.take(i as int) =~= entries@);
        }
        map
    }

    /// The value stored under `key`.
    pub fn get(&self, key: u64) -> (r: Option<u64>)
        requires
            self.wf(),
        ensures
            r == self@.get(key),
    {
        let bytes = to_be_bytes(key);
        self.map.get(bytes.as_slice())
    }

    /// Store `value` under `key`; returns the value it replaced.
    pub fn upsert(&mut self, key: u64, value: u64) -> (r: Option<u64>)
        requires
            old(self).wf(),
        ensures
            final(self).wf(),
            final(self)@ == old(self)@.insert(key, value),
            r == old(self)@.get(key),
    {
        let bytes = to_be_bytes(key);
        proof {
            crate::bytes::lemma_le8(key, key);
            lemma_same_length_compatible(bytes@, self.map.history(), 8);
        }
        let r = self.map.upsert(bytes.as_slice(), value);
        proof {
            assert forall|k: u64| #[trigger] be8(k) == be8(key) <==> k == key by {
                crate::bytes::lemma_be8_order(k, key);
            }
            assert(self@ =~= old(self)@.insert(key, value));
        }
        r
    }

    /// Remove the value stored under `key`; returns it.
    pub fn remove(&mut self, key: u64) -> (r: Option<u64>)
        requires
            old(self).wf(),
        ensures
            final(self).wf(),
            final(self)@ == old(self)@.remove(key),
            r == old(self)@.get(key),
    {
        let bytes = to_be_bytes(key);
        let r = self.map.remove(bytes.as_slice());
        proof {
            assert forall|k: u64| #[trigger] be8(k) == be8(key) <==> k == key by {
                crate::bytes::lemma_be8_order(k, key);
            }
            assert(self@ =~= old(self)@.remove(key));
        }
        r
    }

    /// The entries with keys from `lower` to `upper`, both included, in
    /// increasing key order; `None` when the tree has no subtree for the
    /// leading bytes the two bounds share, and so no key between them.
    pub fn range(&self, lower: u64, upper: u64) -> (r: Option<Vec<(u64, u64)>>)
        requires
            self.wf(),
        ensures
            r is Some <==> has_prefix_path(
                self.tree(),
                be8(lower).take(common_len(be8(lower), be8(upper)) as int),
            ),
            r matches Some(s) ==> int_listing(s@, self@, lower, upper),
            r is None ==> forall|k: u64| lower <= k <= upper ==> !#[trigger] self@.contains_key(k),
    {
        let lo = to_be_bytes(lower);
        let hi = to_be_bytes(upper);
        let lo_s = lo.as_slice();
        let hi_s = hi.as_slice();
        let entries = match self.map.range(lo_s, hi_s) {
            Some(e) => e,
            None => {
                proof {
                    assert forall|k: u64| lower <= k <= upper implies !#[trigger] self@.contains_key(k) by {
                        crate::bytes::lemma_be8_order(lower, k);
                        crate::bytes::lemma_be8_order(k, upper);
                    }
                }
                return None;
            },
        };
        proof {
            self.map.lemma_dom_in_history();
        }
        let mut out: Vec<(u64, u64)> = Vec::new();
        let mut i: usize = 0;
        while i < entries.len()
            invariant
                self.wf(),
                lo_s@ == be8(lower),
                hi_s@ == be8(upper),
                listing(entries@, self.map@, Filter::range_inclusive_spec(lo_s, hi_s)),
                forall|k: Seq<u8>| #[trigger] self.map@.contains_key(k) ==> self.map.history().contains(k),
                i <= entries@.len(),
                out@.len() == i,
                forall|j: int| 0 <= j < i ==> be8((#[trigger] out@[j]).0) == entries@[j].0@ && out@[j].1
                    == entries@[j].1,
            decreases entries@.len() - i,
        {
            let ghost key = entries@[i as int].0@;
            proof {
                assert(self.map@.contains_key(key));
                assert(key.len() == 8);
            }
            let k = from_be_bytes(entries[i].0.as_slice());
            out.push((k, entries[i].1));
            i += 1;
        }
        proof {
            assert forall|a: int, b: int| 0 <= a < b < out@.len() implies out@[a].0 < out@[b].0 by {
                crate::bytes::lemma_be8_order(out@[a].0, out@[b].0);
            }
            assert forall|j: int| 0 <= j < out@.len() implies lower <= (#[trigger] out@[j]).0 <= upper
                && self@.get(out@[j].0) == Some(out@[j].1) by {
                crate::bytes::lemma_be8_order(lower, out@[j].0);
                crate::bytes::lemma_be8_order(out@[j].0, upper);
            }
            assert forall|k: u64| lower <= k <= upper && #[trigger] self@.contains_key(k) implies exists|
                j: int,
            | 0 <= j < out@.len() && (#[trigger] out@[j]).0 == k by {
                crate::bytes::lemma_be8_order(lower, k);
                crate::bytes::lemma_be8_order(k, upper);
                assert(self.map@.contains_key(be8(k)));
                let j = choose|j: int| 0 <= j < entries@.len() && (#[trigger] entries@[j]).0@ == be8(k);
                crate::bytes::lemma_be8_order(out@[j].0, k);
            }
        }
        Some(out)
    }
    /// The entries with keys from `lower` to `upper`, both included, in
    /// decreasing key order.
    pub fn range_descending(&self, lower: u64, upper: u64) -> (r: Option<Vec<(u64, u64)>>)
        requires
            self.wf(),
        ensures
            r is Some <==> has_prefix_path(
                self.tree(),
                be8(lower).take(common_len(be8(lower), be8(upper)) as int),
            ),
            r matches Some(d) ==> exists|s: Seq<(u64, u64)>|
                int_listing(s, self@, lower, upper) && d@ == s.reverse(),
            r is None ==> forall|k: u64| lower <= k <= upper ==> !#[trigger] self@.contains_key(k),
    {
        let mut ascending = match self.range(lower, upper) {
            Some(a) => a,
            None => {
                return None;
            },
        };
        let ghost s = ascending@;
        let mut out: Vec<(u64, u64)> = Vec::new();
        while ascending.len() > 0
            invariant
                ascending@ == s.take(ascending@.len() as int),
                ascending@.len() <= s.len(),
                out@ == s.skip(ascending@.len() as int).reverse(),
            decreases ascending@.len(),
        {
            let ghost n = ascending@.len();
            let e = ascending.pop().unwrap();
            out.push(e);
            proof {
                assert(ascending@ =~= s.take(n - 1));
                assert(out@ =~= s.skip(n - 1).reverse());
            }
        }
        proof {
            assert(s.skip(0) =~= s);
        }
        Some(out)
    }
}

/// Two strictly increasing lists of the same integers are equal.
proof fn lemma_increasing_keys_unique(a: Seq<u64>, b: Seq<u64>)
    requires
        forall|i: int, j: int| 0 <= i < j < a.len() ==> a[i] < a[j],
        forall|i: int, j: int| 0 <= i < j < b.len() ==> b[i] < b[j],
        forall|x: u64| a.contains(x) <==> b.contains(x),
    ensures
        a == b,
    decreases a.len() + b.len(),
{
    if a.len() == 0 {
        if b.len() > 0 {
            assert(b.contains(b[0]));
        }
        assert(a =~= b);
    } else if b.len() == 0 {
        assert(a.contains(a[0]));
    } else {
        assert(a.contains(a[0]));
        assert(b.contains(b[0]));
        let i = choose|i: int| 0 <= i < b.len() && b[i] == a[0];
        let j = choose|j: int| 0 <= j < a.len() && a[j] == b[0];
        if i > 0 {
            assert(b[0] < b[i]);
        }
        if j > 0 {
            assert(a[0] < a[j]);
        }
        assert(a[0] == b[0]);
        let a1 = a.skip(1);
        let b1 = b.skip(1);
        assert forall|x: u64| a1.contains(x) <==> b1.contains(x) by {
            if a1.contains(x) {
                let k = choose|k: int| 0 <= k < a1.len() && a1[k] == x;
                assert(a[k + 1] == x);
                assert(b.contains(x));
                let m = choose|m: int| 0 <= m < b.len() && b[m] == x;
                assert(b1[m - 1] == x);
            }
            if b1.contains(x) {
                let k = choose|k: int| 0 <= k < b1.len() && b1[k] == x;
                assert(b[k + 1] == x);
                assert(a.contains(x));
                let m = choose|m: int| 0 <= m < a.len() && a[m] == x;
                assert(a1[m - 1] == x);
            }
        }
        lemma_increasing_keys_unique(a1, b1);
        assert(a =~= b) by {
            assert forall|k: int| 0 <= k < a.len() implies a[k] == b[k] by {
                if k > 0 {
                    assert(a[k] == a1[k - 1]);
                    assert(b[k] == b1[k - 1]);
                }
            }
        }
    }
}

/// A range of an `IntMap` is determined by the map and the bounds alone:
/// any two listings of it are the same entries in the same order.
pub proof fn lemma_int_listing_unique(
    s1: Seq<(u64, u64)>,
    s2: Seq<(u64, u64)>,
    m: Map<u64, u64>,
    lower: u64,
    upper: u64,
)
    requires
        int_listing(s1, m, lower, upper),
        int_listing(s2, m, lower, upper),
    ensures
        s1 == s2,
{
    let k1 = s1.map_values(|e: (u64, u64)| e.0);
    let k2 = s2.map_values(|e: (u64, u64)| e.0);
    assert forall|x: u64| k1.contains(x) <==> k2.contains(x) by {
        if k1.contains(x) {
            let i = choose|i: int| 0 <= i < k1.len() && k1[i] == x;
            assert(s1[i].0 == x);
            assert(m.contains_key(x));
            let j = choose|j: int| 0 <= j < s2.len() && (#[trigger] s2[j]).0 == x;
            assert(k2[j] == x);
        }
        if k2.contains(x) {
            let i = choose|i: int| 0 <= i < k2.len() && k2[i] == x;
            assert(s2[i].0 == x);
            assert(m.contains_key(x));
            let j = choose|j: int| 0 <= j < s1.len() && (#[trigger] s1[j]).0 == x;
            assert(k1[j] == x);
        }
    }
    lemma_increasing_keys_unique(k1, k2);
    assert forall|i: int| 0 <= i < s1.len() implies s1[i] == s2[i] by {
        assert(k1[i] == k2[i]);
        assert(m.get(s1[i].0) == Some(s1[i].1));
        assert(m.get(s2[i].0) == Some(s2[i].1));
    }
    assert(s1 =~= s2);
}

/// After storing `value` under `key` in an `IntMap`, looking up `key` gives
/// `value`, and every other key gives what it gave before.
pub proof fn lemma_int_upsert_then_get(before: IntMap, after: IntMap, key: u64, value: u64, other: u64)
    requires
        after@ == before@.insert(key, value),
    ensures
        after@.get(key) == Some(value),
        other != key ==> after@.get(other) == before@.get(other),
{
}

/// After removing `key` from an `IntMap`, looking it up gives nothing, and
/// every other key gives what it gave before.
pub proof fn lemma_int_remove_then_get(before: IntMap, after: IntMap, key: u64, other: u64)
    requires
        after@ == before@.remove(key),
    ensures
        after@.get(key) is None,
        other != key ==> after@.get(other) == before@.get(other),
{
}

/// A map from byte strings to values of type `V`, each stored as its
/// `u64` word.
pub struct ValueMap<V: Value> {
    map: RadixMap,
    values: Ghost<Map<Seq<u8>, V>>,
}

impl<V: Value> View for ValueMap<V> {
    type V = Map<Seq<u8>, V>;

    closed spec fn view(&self) -> Map<Seq<u8>, V> {
        self.values@
    }
}

impl<V: Value> ValueMap<V> {
    /// Every key ever stored.
    pub closed spec fn history(&self) -> Set<Seq<u8>> {
        self.map.history()
    }

    /// The words in the tree are the words of the values.
    pub closed spec fn wf(&self) -> bool {
        &&& self.map.wf()
        &&& self.values@.dom() == self.map@.dom()
        &&& forall|k: Seq<u8>| #[trigger] self.values@.contains_key(k) ==> self.values@[k].raw_spec()
            == self.map@[k]
    }

    /// The empty map.
    pub fn new() -> (r: ValueMap<V>)
        ensures
            r.wf(),
            r@ == Map::<Seq<u8>, V>::empty(),
            r.history() == Set::<Seq<u8>>::empty(),
    {
        let r = ValueMap { map: RadixMap::new(), values: Ghost(Map::empty()) };
        proof {
            assert(r.values@.dom() =~= r.map@.dom());
        }
        r
    }

    /// The value stored under `key`.
    pub fn get(&self, key: &[u8]) -> (r: Option<V>)
        requires
            self.wf(),
        ensures
            r == self@.get(key@),
    {
        match self.map.get(key) {
            Some(raw) => {
                let ghost v = self.values@[key@];
                proof {
                    assert(self.values@.contains_key(key@));
                }
                let r = V::from_raw(raw);
                proof {
                    V::lemma_raw_injective(r, v);
                }
                Some(r)
            },
            None => {
                proof {
                    assert(!self.values@.contains_key(key@));
                }
                None
            },
        }
    }

    /// Store `value` under `key`; returns the value it replaced.
    pub fn upsert(&mut self, key: &[u8], value: V) -> (r: Option<V>)
        requires
            old(self).wf(),
            compatible(key@, old(self).history()),
        ensures
            final(self).wf(),
            final(self)@ == old(self)@.insert(key@, value),
            final(self).history() == old(self).history().insert(key@),
            r == old(self)@.get(key@),
    {
        let ghost before = self.values@;
        let raw = value.into_raw();
        let prev = self.map.upsert(key, raw);
        proof {
            self.values@ = before.insert(key@, value);
            assert(self.values@.dom() =~= self.map@.dom());
        }
        match prev {
            Some(p) => {
                let ghost v = before[key@];
                let r = V::from_raw(p);
                proof {
                    V::lemma_raw_injective(r, v);
                }
                Some(r)
            },
            None => None,
        }
    }

    /// Remove the value stored under `key`; returns it.
    pub fn remove(&mut self, key: &[u8]) -> (r: Option<V>)
        requires
            old(self).wf(),
        ensures
            final(self).wf(),
            final(self)@ == old(self)@.remove(key@),
            final(self).history() == old(self).history(),
            r == old(self)@.get(key@),
    {
        let ghost before = self.values@;
        let prev = self.map.remove(key);
        proof {
            self.values@ = before.remove(key@);
            assert(self.values@.dom() =~= self.map@.dom());
        }
        match prev {
            Some(p) => {
                let ghost v = before[key@];
                let r = V::from_raw(p);
                proof {
                    V::lemma_raw_injective(r, v);
                }
                Some(r)
            },
            None => None,
        }
    }
}

/// A listing of a map's entries, handed out one at a time. It is taken
/// once, when made, and does not see later changes to the map.
pub struct PrefixNonLinearizable {
    entries: Vec<(Vec<u8>, u64)>,
    next: usize,
}

impl PrefixNonLinearizable {
    /// The whole listing, taken when the iterator was made.
    pub closed spec fn listed(&self) -> Seq<(Vec<u8>, u64)> {
        self.entries@
    }

    /// The entries handed out so far, in the order they were handed out.
    pub closed spec fn handed(&self) -> Seq<(Vec<u8>, u64)> {
        self.entries@.take(self.next as int)
    }

    /// The entries not yet handed out.
    pub closed spec fn remaining(&self) -> Seq<(Vec<u8>, u64)> {
        self.entries@.skip(self.next as int)
    }

    /// The listing is in increasing key order, and what was handed out
    /// comes before what is left.
    pub closed spec fn wf(&self) -> bool {
        &&& self.next <= self.entries@.len()
        &&& sorted(self.entries@)
    }

    /// The entries of `map` that `f` admits, in increasing key order, none
    /// handed out yet.
    pub fn new(map: &RadixMap, f: &Filter) -> (r: PrefixNonLinearizable)
        requires
            map.wf(),
        ensures
            r.wf(),
            listing(r.listed(), map@, *f),
            r.handed().len() == 0,
            r.remaining() == r.listed(),
    {
        let entries = map.list(f);
        let r = PrefixNonLinearizable { entries, next: 0 };
        proof {
            assert(r.remaining() =~= entries@);
        }
        r
    }

    /// The next entry, if any is left. Each entry handed out has a greater
    /// key than every one before it, and once none is left, every entry of
    /// the listing has been handed out, once each and in order.
    pub fn lend(&mut self) -> (r: Option<(Vec<u8>, u64)>)
        requires
            old(self).wf(),
        ensures
            final(self).wf(),
            final(self).listed() == old(self).listed(),
            r is None <==> old(self).remaining().len() == 0,
            r is None ==> final(self).handed() == final(self).listed() && final(self).remaining()
                == old(self).remaining(),
            r matches Some(e) ==> {
                &&& e.0@ == old(self).remaining()[0].0@
                &&& e.1 == old(self).remaining()[0].1
                &&& final(self).handed() == old(self).handed().push(old(self).remaining()[0])
                &&& final(self).remaining() == old(self).remaining().skip(1)
                &&& forall|j: int|
                    0 <= j < old(self).handed().len() ==> lex_lt(
                        (#[trigger] old(self).handed()[j]).0@,
                        e.0@,
                    )
            },
    {
        if self.next >= self.entries.len() {
            proof {
                assert(self.handed() =~= self.listed());
            }
            return None;
        }
        let i = self.next;
        let mut key: Vec<u8> = Vec::new();
        key.extend_from_slice(self.entries[i].0.as_slice());
        let value = self.entries[i].1;
        self.next = i + 1;
        proof {
            assert(key@ =~= old(self).remaining()[0].0@);
            assert(self.remaining() =~= old(self).remaining().skip(1));
            assert(self.handed() =~= old(self).handed().push(old(self).remaining()[0]));
            assert forall|j: int| 0 <= j < old(self).handed().len() implies lex_lt(
                (#[trigger] old(self).handed()[j]).0@,
                key@,
            ) by {
                assert(old(self).handed()[j] == self.entries@[j]);
                assert(self.entries@[i as int] == old(self).remaining()[0]);
            }
        }
        Some((key, value))
    }
}

/// Lending until nothing is left hands out exactly the entries of the
/// listing the iterator was made with: each admitted entry of the map once,
/// in increasing key order.
pub proof fn lemma_lend_all(p: PrefixNonLinearizable, m: Map<Seq<u8>, u64>, f: Filter)
    requires
        p.wf(),
        listing(p.listed(), m, f),
        p.remaining().len() == 0,
    ensures
        listing(p.handed(), m, f),
{
    assert(p.handed() =~= p.listed());
}

} // verus!
