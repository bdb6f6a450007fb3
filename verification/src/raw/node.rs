//! Nodes: a header that maps key bytes to slots, and one edge per slot.
//! Four kinds share this shape: 3, 15 and 47 slots with a header of keys,
//! and 256 slots indexed by the key byte itself.
pub mod node15;
pub mod simd;
pub mod node3;
pub mod node47;

use vstd::prelude::*;
use crate::bytes::first_index;
use crate::bytes::increasing;
use crate::bytes::lemma_increasing_unique;
use crate::bytes::lemma_first_index;
use crate::bytes::lemma_first_index_push;
use crate::raw::edge::Child;
use crate::raw::edge::Edge;
use crate::raw::edge::le::Le;

verus! {

#[derive(Clone, Copy, PartialEq, Eq, Structural)]
pub enum Kind {
    Node3,
    Node15,
    Node47,
    Node256,
}

/// Number of slots of a node of `kind`.
pub open spec fn capacity(kind: Kind) -> nat {
    match kind {
        Kind::Node3 => 3,
        Kind::Node15 => 15,
        Kind::Node47 => 47,
        Kind::Node256 => 256,
    }
}

/// The kind a full node of `kind` grows into.
pub open spec fn grow(kind: Kind) -> Kind {
    match kind {
        Kind::Node3 => Kind::Node15,
        Kind::Node15 => Kind::Node47,
        Kind::Node47 => Kind::Node256,
        Kind::Node256 => Kind::Node256,
    }
}

impl Kind {
    pub fn capacity(self) -> (r: usize)
        ensures
            r == capacity(self),
    {
        match self {
            Kind::Node3 => 3,
            Kind::Node15 => 15,
            Kind::Node47 => 47,
            Kind::Node256 => 256,
        }
    }

    pub fn grow(self) -> (r: Kind)
        ensures
            r == grow(self),
    {
        match self {
            Kind::Node3 => Kind::Node15,
            Kind::Node15 => Kind::Node47,
            Kind::Node47 => Kind::Node256,
            Kind::Node256 => Kind::Node256,
        }
    }

    /// The smallest kind with room for `len` children and one more.
    pub fn for_len(len: usize) -> (r: Kind)
        ensures
            r == (if len < 3 {
                Kind::Node3
            } else if len < 15 {
                Kind::Node15
            } else if len < 47 {
                Kind::Node47
            } else {
                Kind::Node256
            }),
            len < 256 ==> len < capacity(r),
    {
        if len < 3 {
            Kind::Node3
        } else if len < 15 {
            Kind::Node15
        } else if len < 47 {
            Kind::Node47
        } else {
            Kind::Node256
        }
    }
}

/// Structure modification performed by `Node::replace`.
#[derive(Clone, Copy, PartialEq, Eq, Structural)]
pub enum Smo {
    /// The node had no children left; its edge becomes empty.
    DeleteNode,
    /// The node had one child, merged into its parent edge.
    CompressEdge,
    /// The node was rebuilt into a fresh node.
    ReplaceNode,
}

impl Smo {
    /// The operation allocated a node.
    pub fn is_allocate(self) -> (r: bool)
        ensures
            r == (self == Smo::ReplaceNode),
    {
        match self {
            Smo::ReplaceNode => true,
            _ => false,
        }
    }
}

/// Number of edges in `s` that lead somewhere.
pub open spec fn live_count(s: Seq<Edge>) -> nat
    decreases s.len(),
{
    if s.len() == 0 {
        0
    } else {
        live_count(s.drop_last()) + if s.last().child is Null {
            0nat
        } else {
            1nat
        }
    }
}

/// The kind of node that a node of `kind` is rebuilt into when `len` of its
/// children are left: the next larger kind when every slot was in use, and
/// otherwise the smallest kind with room for them.
pub open spec fn replace_kind(kind: Kind, len: nat) -> Kind {
    if len == capacity(kind) {
        grow(kind)
    } else if len < 4 {
        Kind::Node3
    } else if len < 16 {
        Kind::Node15
    } else if len < 48 {
        Kind::Node47
    } else {
        Kind::Node256
    }
}

/// The optional edge leads somewhere.
pub open spec fn holds(e: Option<Edge>) -> bool {
    e matches Some(edge) && !(edge.child is Null)
}

/// A key byte and the slot of its child.
#[derive(Clone, Copy)]
pub struct KeyIndex {
    pub key: u8,
    pub index: u8,
}

pub enum Header {
    Node3(node3::Header),
    Node15(node15::Header),
    Node47(node47::Header),
    Node256,
}

pub struct Node {
    pub header: Header,
    pub edges: Vec<Edge>,
}

impl Node {
    pub closed spec fn node_kind(&self) -> Kind {
        match self.header {
            Header::Node3(_) => Kind::Node3,
            Header::Node15(_) => Kind::Node15,
            Header::Node47(_) => Kind::Node47,
            Header::Node256 => Kind::Node256,
        }
    }

    /// Number of slots in use: they come first.
    pub closed spec fn used(&self) -> nat {
        match self.header {
            Header::Node3(h) => h.len_view(),
            Header::Node15(h) => h.len_view(),
            Header::Node47(h) => h.len_view(),
            Header::Node256 => 256,
        }
    }

    /// The slot of key byte `b`, if it has one.
    pub closed spec fn slot(&self, b: u8) -> Option<nat> {
        match self.header {
            Header::Node3(h) => first_index(h.keys_view(), b),
            Header::Node15(h) => first_index(h.keys_view(), b),
            Header::Node47(h) => h.slot(b),
            Header::Node256 => Some(b as nat),
        }
    }

    /// The key bytes whose edges lead somewhere.
    pub open spec fn live(&self) -> Set<u8> {
        Set::new(|b: u8| holds(self.child(b)))
    }

    pub open spec fn capacity(&self) -> nat {
        capacity(self.node_kind())
    }

    /// No key byte can be added.
    pub open spec fn is_full(&self) -> bool {
        self.node_kind() != Kind::Node256 && self.used() == self.capacity()
    }

    /// The edge under key byte `b`.
    pub open spec fn child(&self, b: u8) -> Option<Edge> {
        match self.slot(b) {
            Some(i) => if i < self.edges@.len() {
                Some(self.edges@[i as int])
            } else {
                None
            },
            None => None,
        }
    }

    closed spec fn header_wf(&self) -> bool {
        match self.header {
            Header::Node3(h) => h.wf() && !h.frozen_view() && h.keys_view().no_duplicates(),
            Header::Node15(h) => h.wf() && !h.frozen_view() && h.keys_view().no_duplicates(),
            Header::Node47(h) => h.wf() && !h.frozen_view(),
            Header::Node256 => true,
        }
    }

    /// The header is consistent, there is one edge per slot and slots not in
    /// use hold empty edges.
    pub closed spec fn shape_wf(&self) -> bool {
        &&& self.header_wf()
        &&& self.edges@.len() == self.capacity()
        &&& forall|i: int| self.used() <= i < self.capacity() ==> (#[trigger] self.edges@[i]).is_empty()
    }

    /// What a well-formed node guarantees about its slots.
    pub proof fn lemma_shape(&self)
        requires
            self.shape_wf(),
        ensures
            self.edges@.len() == self.capacity(),
            self.used() <= self.capacity(),
            forall|b: u8| #[trigger] self.slot(b) matches Some(i) ==> i < self.used(),
            forall|b1: u8, b2: u8|
                b1 != b2 && #[trigger] self.slot(b1) is Some ==> self.slot(b1) != #[trigger] self.slot(
                    b2,
                ),
            forall|i: int|
                self.used() <= i < self.capacity() ==> (#[trigger] self.edges@[i]).is_empty(),
            self.node_kind() == Kind::Node256 ==> forall|b: u8| #[trigger] self.slot(b) == Some(b as nat),
    {
        match self.header {
            Header::Node3(h) => {
                h.lemma_wf();
                Self::lemma_linear(h.keys_view());
            },
            Header::Node15(h) => {
                h.lemma_wf();
                Self::lemma_linear(h.keys_view());
            },
            Header::Node47(h) => {
                h.lemma_wf();
            },
            Header::Node256 => {},
        }
    }

    proof fn lemma_linear(keys: Seq<u8>)
        requires
            keys.no_duplicates(),
        ensures
            forall|b: u8| #[trigger] first_index(keys, b) matches Some(i) ==> i < keys.len(),
            forall|b1: u8, b2: u8|
                b1 != b2 && #[trigger] first_index(keys, b1) is Some ==> first_index(keys, b1)
                    != #[trigger] first_index(keys, b2),
    {
        assert forall|b: u8| #[trigger] first_index(keys, b) is Some implies first_index(keys, b)->0
            < keys.len() by {
            lemma_first_index(keys, b);
        }
        assert forall|b1: u8, b2: u8|
            b1 != b2 && #[trigger] first_index(keys, b1) is Some implies first_index(keys, b1)
            != #[trigger] first_index(keys, b2) by {
            lemma_first_index(keys, b1);
            lemma_first_index(keys, b2);
        }
    }

    /// An empty node of `kind`.
    pub fn new(kind: Kind) -> (r: Node)
        ensures
            r.shape_wf(),
            r.node_kind() == kind,
            kind != Kind::Node256 ==> r.used() == 0,
            forall|i: int| 0 <= i < r.edges@.len() ==> (#[trigger] r.edges@[i]).is_empty(),
            kind != Kind::Node256 ==> forall|b: u8| #[trigger] r.slot(b) is None,
    {
        let cap = kind.capacity();
        let mut edges: Vec<Edge> = Vec::with_capacity(cap);
        let mut i: usize = 0;
        while i < cap
            invariant
                i <= cap,
                edges@.len() == i,
                forall|j: int| 0 <= j < i ==> (#[trigger] edges@[j]).is_empty(),
            decreases cap - i,
        {
            edges.push(Edge::empty());
            i += 1;
        }
        let empty: [u8; 0] = [];
        let header = match kind {
            Kind::Node3 => Header::Node3(node3::Header::new(empty.as_slice())),
            Kind::Node15 => Header::Node15(node15::Header::new(empty.as_slice())),
            Kind::Node47 => Header::Node47(node47::Header::new()),
            Kind::Node256 => Header::Node256,
        };
        let r = Node { header, edges };
        proof {
            match r.header {
                Header::Node3(h) => h.lemma_wf(),
                Header::Node15(h) => h.lemma_wf(),
                _ => {},
            }
            assert(Seq::<u8>::empty().no_duplicates());
            if kind != Kind::Node256 {
                assert forall|b: u8| #[trigger] r.slot(b) is None by {
                    match r.header {
                        Header::Node3(h) => lemma_first_index(h.keys_view(), b),
                        Header::Node15(h) => lemma_first_index(h.keys_view(), b),
                        _ => {},
                    }
                }
            }
        }
        r
    }

    pub fn kind(&self) -> (r: Kind)
        ensures
            r == self.node_kind(),
    {
        match self.header {
            Header::Node3(_) => Kind::Node3,
            Header::Node15(_) => Kind::Node15,
            Header::Node47(_) => Kind::Node47,
            Header::Node256 => Kind::Node256,
        }
    }

    /// The slot of key byte `key`.
    pub fn get(&self, key: u8) -> (r: Option<usize>)
        requires
            self.shape_wf(),
        ensures
            r == (match self.slot(key) {
                Some(i) => Some(i as usize),
                None => None::<usize>,
            }),
    {
        proof {
            self.lemma_shape();
        }
        match &self.header {
            Header::Node3(h) => match h.get(key) {
                Some(i) => Some(i as usize),
                None => None,
            },
            Header::Node15(h) => match h.get(key) {
                Some(i) => Some(i as usize),
                None => None,
            },
            Header::Node47(h) => match h.get(key) {
                Some(i) => Some(i as usize),
                None => None,
            },
            Header::Node256 => Some(key as usize),
        }
    }

    /// The slot of `key`, giving it the next free slot if it has none.
    /// Fails only when the node is full.
    pub fn get_or_insert(&mut self, key: u8) -> (r: Option<usize>)
        requires
            old(self).shape_wf(),
        ensures
            final(self).shape_wf(),
            final(self).node_kind() == old(self).node_kind(),
            final(self).edges == old(self).edges,
            forall|b: u8| b != key ==> #[trigger] final(self).slot(b) == old(self).slot(b),
            r is None <==> (old(self).slot(key) is None && old(self).is_full()),
            r is None ==> *final(self) == *old(self),
            old(self).slot(key) is Some ==> final(self).used() == old(self).used(),
            old(self).node_kind() != Kind::Node256 && old(self).slot(key) is None && r is Some
                ==> final(self).used() == old(self).used() + 1,
            r matches Some(i) ==> {
                &&& final(self).slot(key) == Some(i as nat)
                &&& i < final(self).edges@.len()
                &&& old(self).slot(key) is Some ==> old(self).slot(key) == Some(i as nat)
                &&& old(self).slot(key) is None ==> old(self).edges@[i as int].is_empty()
            },
    {
        proof {
            self.lemma_shape();
        }
        let ghost before = *self;
        let nk = self.kind();
        if nk == Kind::Node256 {
            return Some(key as usize);
        }
        if let Some(i) = self.get(key) {
            return Some(i);
        }
        if nk == Kind::Node47 {
            let mut header = Header::Node256;
            std::mem::swap(&mut header, &mut self.header);
            match header {
                Header::Node47(mut h) => {
                    let r = h.insert(key);
                    self.header = Header::Node47(h);
                    return match r {
                        Some(i) => Some(i as usize),
                        None => None,
                    };
                },
                _ => {
                    proof {
                        assert(false);
                    }
                    return None;
                },
            }
        }
        let (len, inserted) = match &self.header {
            Header::Node3(h) => {
                let len = h.len();
                match h.get_or_insert(key) {
                    Err(Some(new)) => (len, Some(Header::Node3(new))),
                    _ => (len, None),
                }
            },
            Header::Node15(h) => {
                let len = h.len();
                match h.get_or_insert(key) {
                    Err(Some(new)) => (len, Some(Header::Node15(new))),
                    _ => (len, None),
                }
            },
            _ => (0, None),
        };
        match inserted {
            None => None,
            Some(new) => {
                self.header = new;
                proof {
                    Self::lemma_linear_insert(before, *self, key);
                }
                Some(len as usize)
            },
        }
    }

    proof fn lemma_linear_insert(before: Node, after: Node, key: u8)
        requires
            before.shape_wf(),
            before.slot(key) is None,
            after.edges == before.edges,
            match (before.header, after.header) {
                (Header::Node3(h), Header::Node3(g)) => g.wf() && g.keys_view() == h.keys_view().push(
                    key,
                ) && !g.frozen_view(),
                (Header::Node15(h), Header::Node15(g)) => g.wf() && g.keys_view()
                    == h.keys_view().push(key) && !g.frozen_view(),
                _ => false,
            },
        ensures
            after.shape_wf(),
            after.node_kind() == before.node_kind(),
            forall|b: u8| b != key ==> #[trigger] after.slot(b) == before.slot(b),
            after.slot(key) == Some(before.used()),
            after.used() == before.used() + 1,
            before.used() < after.edges@.len(),
            before.edges@[before.used() as int].is_empty(),
    {
        before.lemma_shape();
        let (keys, newkeys) = match (before.header, after.header) {
            (Header::Node3(h), Header::Node3(g)) => {
                h.lemma_wf();
                g.lemma_wf();
                (h.keys_view(), g.keys_view())
            },
            (Header::Node15(h), Header::Node15(g)) => {
                h.lemma_wf();
                g.lemma_wf();
                (h.keys_view(), g.keys_view())
            },
            _ => (Seq::empty(), Seq::empty()),
        };
        lemma_first_index(keys, key);
        assert forall|b: u8| b != key implies #[trigger] after.slot(b) == before.slot(b) by {
            lemma_first_index_push(keys, key, b);
        }
        lemma_first_index_push(keys, key, key);
        assert(newkeys.no_duplicates()) by {
            assert forall|x: int, y: int|
                0 <= x < newkeys.len() && 0 <= y < newkeys.len() && x != y implies newkeys[x]
                != newkeys[y] by {
                if x < keys.len() && y < keys.len() {
                } else if x < keys.len() {
                    assert(keys[x] != key);
                } else {
                    assert(keys[y] != key);
                }
            }
        }
    }

    /// Every slot in use holds an edge that leads somewhere, one per key.
    pub open spec fn dense(&self) -> bool {
        exists|ks: Seq<u8>|
            increasing(ks) && ks.len() == self.used() && forall|b: u8|
                #![trigger self.child(b)]
                holds(self.child(b)) <==> ks.contains(b)
    }

    /// Take the node apart: the key bytes whose edges lead somewhere, in
    /// increasing order, and those edges.
    pub fn into_children(self) -> (r: (Vec<u8>, Vec<Edge>))
        requires
            self.shape_wf(),
        ensures
            r.0@.len() == r.1@.len(),
            increasing(r.0@),
            forall|j: int|
                0 <= j < r.0@.len() ==> self.child(#[trigger] r.0@[j]) == Some(r.1@[j]) && !(
                r.1@[j].child is Null),
            forall|b: u8| holds(#[trigger] self.child(b)) ==> r.0@.contains(b),
    {
        proof {
            self.lemma_shape();
        }
        let ghost orig = self;
        let mut node = self;
        let mut keys: Vec<u8> = Vec::new();
        let mut edges: Vec<Edge> = Vec::new();
        let mut b: u16 = 0;
        while b < 256
            invariant
                b <= 256,
                node.shape_wf(),
                orig.shape_wf(),
                node.edges@.len() == orig.edges@.len(),
                node.used() == orig.used(),
                node.node_kind() == orig.node_kind(),
                forall|c: u8| #[trigger] node.slot(c) == orig.slot(c),
                forall|c: u8| c >= b ==> #[trigger] node.child(c) == orig.child(c),
                forall|b1: u8, b2: u8|
                    b1 != b2 && #[trigger] orig.slot(b1) is Some ==> orig.slot(b1) != #[trigger] orig.slot(
                        b2,
                    ),
                forall|c: u8| #[trigger] orig.slot(c) matches Some(i) ==> i < orig.edges@.len(),
                keys@.len() == edges@.len(),
                forall|i: int, j: int| 0 <= i < j < keys@.len() ==> keys@[i] < keys@[j],
                forall|j: int| 0 <= j < keys@.len() ==> keys@[j] < b,
                forall|j: int|
                    0 <= j < keys@.len() ==> orig.child(#[trigger] keys@[j]) == Some(edges@[j])
                        && !(edges@[j].child is Null),
                forall|c: u8| c < b && holds(#[trigger] orig.child(c)) ==> keys@.contains(c),
            decreases 256 - b,
        {
            let key = b as u8;
            if let Some(i) = node.get(key) {
                let ghost before = node;
                let e = node.take(i);
                proof {
                    assert(before.child(key) == orig.child(key));
                    assert(orig.child(key) == Some(e));
                    assert forall|c: u8| c >= b + 1 implies #[trigger] node.child(c) == orig.child(
                        c,
                    ) by {
                        assert(before.child(c) == orig.child(c));
                        if let Some(j) = orig.slot(c) {
                            assert(orig.slot(c) != orig.slot(key));
                        }
                    }
                }
                if !e.is_null() {
                    let ghost pk = keys@;
                    let ghost pe = edges@;
                    keys.push(key);
                    edges.push(e);
                    proof {
                        assert forall|j: int|
                            0 <= j < keys@.len() implies orig.child(#[trigger] keys@[j]) == Some(
                            edges@[j],
                        ) && !(edges@[j].child is Null) by {
                            if j < pk.len() {
                                assert(keys@[j] == pk[j]);
                                assert(edges@[j] == pe[j]);
                            }
                        }
                        assert forall|c: u8| c < b + 1 && holds(#[trigger] orig.child(c)) implies keys@.contains(
                            c,
                        ) by {
                            if c < b {
                                assert(pk.contains(c));
                                let j = choose|j: int| 0 <= j < pk.len() && pk[j] == c;
                                assert(keys@[j] == c);
                            } else {
                                assert(keys@[keys@.len() - 1] == c);
                            }
                        }
                    }
                } else {
                    proof {
                        assert forall|c: u8| c < b + 1 && holds(#[trigger] orig.child(c)) implies keys@.contains(
                            c,
                        ) by {
                            if c == key {
                                assert(orig.child(c) == Some(e));
                            }
                        }
                    }
                }
            } else {
                proof {
                    assert forall|c: u8| c >= b + 1 implies #[trigger] node.child(c) == orig.child(c)
                        by {}
                    assert forall|c: u8| c < b + 1 && holds(#[trigger] orig.child(c)) implies keys@.contains(
                        c,
                    ) by {}
                }
            }
            b += 1;
        }
        (keys, edges)
    }

    /// A node of `kind` with child `edges[j]` under key byte `keys[j]`.
    pub fn from_children(kind: Kind, keys: Vec<u8>, edges: Vec<Edge>) -> (r: Node)
        requires
            keys@.len() == edges@.len(),
            keys@.len() <= capacity(kind),
            increasing(keys@),
            forall|j: int| 0 <= j < edges@.len() ==> (#[trigger] edges@[j]).wf(),
            forall|j: int| 0 <= j < edges@.len() ==> !((#[trigger] edges@[j]).child is Null),
        ensures
            r.shape_wf(),
            r.node_kind() == kind,
            forall|i: int| 0 <= i < r.edges@.len() ==> (#[trigger] r.edges@[i]).wf(),
            forall|j: int| 0 <= j < keys@.len() ==> r.child(#[trigger] keys@[j]) == Some(edges@[j]),
            forall|b: u8| holds(#[trigger] r.child(b)) <==> keys@.contains(b),
            kind != Kind::Node256 ==> r.used() == keys@.len() && r.dense(),
    {
        let mut node = Node::new(kind);
        let ghost src = edges@;
        let mut edges = edges;
        let n = keys.len();
        let mut j: usize = 0;
        proof {
            node.lemma_shape();
        }
        while j < n
            invariant
                n == keys@.len(),
                n == src.len(),
                n <= capacity(kind),
                edges@.len() == n,
                j <= n,
                increasing(keys@),
                forall|t: int| j <= t < n ==> edges@[t] == src[t],
                forall|t: int| 0 <= t < n ==> (#[trigger] src[t]).wf(),
                forall|t: int| 0 <= t < n ==> !((#[trigger] src[t]).child is Null),
                node.shape_wf(),
                node.node_kind() == kind,
                kind != Kind::Node256 ==> node.used() == j,
                forall|i: int| 0 <= i < node.edges@.len() ==> (#[trigger] node.edges@[i]).wf(),
                forall|t: int| 0 <= t < j ==> node.child(#[trigger] keys@[t]) == Some(src[t]),
                forall|b: u8|
                    holds(#[trigger] node.child(b)) <==> keys@.take(j as int).contains(b),
                kind != Kind::Node256 ==> forall|b: u8|
                    #[trigger] node.slot(b) is Some ==> keys@.take(j as int).contains(b),
            decreases n - j,
        {
            let key = keys[j];
            proof {
                node.lemma_shape();
                assert(!keys@.take(j as int).contains(key)) by {
                    if keys@.take(j as int).contains(key) {
                        let t = choose|t: int| 0 <= t < j && keys@.take(j as int)[t] == key;
                        assert(keys@[t] < keys@[j as int]);
                    }
                }
                if kind != Kind::Node256 {
                    assert(node.slot(key) is None);
                }
            }
            let ghost before = node;
            let slot = node.get_or_insert(key);
            let i = match slot {
                Some(i) => i,
                None => {
                    proof {
                        assert(false);
                    }
                    0
                },
            };
            let mut e = Edge::empty();
            std::mem::swap(&mut e, &mut edges[j]);
            proof {
                node.lemma_shape();
                if kind == Kind::Node256 {
                    assert(before.slot(key) == Some(key as nat));
                    assert(before.child(key) == Some(before.edges@[key as int]));
                    assert(!holds(before.child(key)));
                }
            }
            node.put(i, e);
            proof {
                node.lemma_shape();
                let ks = keys@.take(j as int);
                let ks1 = keys@.take(j + 1);
                assert(ks1 =~= ks.push(key));
                assert forall|t: int| 0 <= t < j + 1 implies node.child(#[trigger] keys@[t]) == Some(
                    src[t],
                ) by {
                    if t < j {
                        assert(keys@[t] != key);
                        assert(before.child(keys@[t]) == Some(src[t]));
                        assert(node.slot(keys@[t]) != node.slot(key));
                    }
                }
                assert forall|b: u8| holds(#[trigger] node.child(b)) <==> ks1.contains(b) by {
                    if b == key {
                        assert(ks1[j as int] == key);
                    } else {
                        assert(node.child(b) == before.child(b)) by {
                            if let Some(x) = node.slot(b) {
                                assert(node.slot(b) != node.slot(key));
                            }
                        }
                        if ks1.contains(b) {
                            let t = choose|t: int| 0 <= t < ks1.len() && ks1[t] == b;
                            assert(ks[t] == b);
                        }
                        if ks.contains(b) {
                            let t = choose|t: int| 0 <= t < ks.len() && ks[t] == b;
                            assert(ks1[t] == b);
                        }
                    }
                }
                if kind != Kind::Node256 {
                    assert forall|b: u8| #[trigger] node.slot(b) is Some implies ks1.contains(b) by {
                        if b == key {
                            assert(ks1[j as int] == key);
                        } else {
                            assert(before.slot(b) is Some);
                            let t = choose|t: int| 0 <= t < ks.len() && ks[t] == b;
                            assert(ks1[t] == b);
                        }
                    }
                }
            }
            j += 1;
        }
        proof {
            assert(keys@.take(n as int) =~= keys@);
            if kind != Kind::Node256 {
                assert(increasing(keys@) && keys@.len() == node.used() && forall|b: u8|
                    #![trigger node.child(b)]
                    holds(node.child(b)) <==> keys@.contains(b));
            }
        }
        node
    }

    /// Rebuild this node, which sits under an edge with key `meta`, without
    /// its empty edges: into nothing when no edge is left, into the parent
    /// edge when one is left and the keys fit, and otherwise into a node of
    /// the right size (the next larger kind when every slot was in use).
    pub fn replace(self, meta: Le) -> (r: (Smo, Edge))
        requires
            self.shape_wf(),
            forall|i: int| 0 <= i < self.edges@.len() ==> (#[trigger] self.edges@[i]).wf(),
            meta.wf(),
            !meta.value_flag(),
            !meta.frozen_flag(),
        ensures
            r.1.wf(),
            r.0 == Smo::DeleteNode ==> r.1.is_empty() && forall|b: u8| !holds(#[trigger] self.child(b)),
            r.0 == Smo::CompressEdge ==> exists|b0: u8|
                #![trigger self.child(b0)]
                {
                    &&& self.child(b0) matches Some(c0)
                    &&& !(c0.child is Null)
                    &&& r.1.key() == meta.key_view().push(b0) + c0.key()
                    &&& r.1.child == c0.child
                    &&& forall|b: u8| b != b0 ==> !holds(#[trigger] self.child(b))
                },
            r.0 == Smo::ReplaceNode ==> {
                &&& r.1.meta == meta
                &&& r.1.child matches Child::Node(n2)
                &&& forall|b: u8| holds(#[trigger] n2.child(b)) <==> holds(self.child(b))
                &&& forall|b: u8| holds(#[trigger] self.child(b)) ==> n2.child(b) == self.child(b)
                &&& (n2.node_kind() == Kind::Node256 || n2.dense())
            },
            self.is_full() && self.dense() ==> r.0 == Smo::ReplaceNode && (r.1.child matches Child::Node(
                n2,
            ) && !n2.is_full()),
            self.live().finite(),
            r.0 == Smo::DeleteNode <==> self.live().len() == 0,
            r.0 == Smo::CompressEdge ==> self.live().len() == 1,
            self.live().len() == 1 ==> forall|b0: u8|
                holds(#[trigger] self.child(b0)) ==> (r.0 == Smo::CompressEdge <==> meta.key_len() + 1
                    + self.child(b0)->0.meta.key_len() <= 7),
            r.0 == Smo::ReplaceNode ==> (r.1.child matches Child::Node(n2) && n2.node_kind()
                == replace_kind(self.node_kind(), self.live().len())),
    {
        let kind = self.kind();
        let ghost orig = self;
        proof {
            self.lemma_shape();
        }
        let (keys, mut edges) = self.into_children();
        proof {
            assert forall|j: int| 0 <= j < edges@.len() implies (#[trigger] edges@[j]).wf() by {
                let k = keys@[j];
                let i = orig.slot(k)->0;
                assert(orig.child(k) == Some(edges@[j]));
                assert(orig.edges@[i as int].wf());
            }
            assert forall|j: int| 0 <= j < edges@.len() implies !((#[trigger] edges@[j]).child is Null) by {
                assert(orig.child(keys@[j]) == Some(edges@[j]));
            }
        }
        let len = keys.len();
        proof {
            assert(keys@.to_set() =~= orig.live()) by {
                assert forall|b: u8| keys@.to_set().contains(b) <==> orig.live().contains(b) by {
                    if keys@.contains(b) {
                        let j = choose|j: int| 0 <= j < keys@.len() && keys@[j] == b;
                        assert(orig.child(keys@[j]) == Some(edges@[j]));
                    }
                }
            }
            assert(keys@.no_duplicates()) by {
                assert forall|x: int, y: int| 0 <= x < keys@.len() && 0 <= y < keys@.len() && x != y
                    implies keys@[x] != keys@[y] by {
                    if x < y {
                        assert(keys@[x] < keys@[y]);
                    } else {
                        assert(keys@[y] < keys@[x]);
                    }
                }
            }
            keys@.unique_seq_to_set();
            assert(orig.live().len() == len);
            if orig.dense() {
                let ks0 = choose|ks0: Seq<u8>|
                    increasing(ks0) && ks0.len() == orig.used() && forall|b: u8|
                        #![trigger orig.child(b)]
                        holds(orig.child(b)) <==> ks0.contains(b);
                assert forall|x: u8| keys@.contains(x) <==> ks0.contains(x) by {
                    if keys@.contains(x) {
                        let j = choose|j: int| 0 <= j < keys@.len() && keys@[j] == x;
                        assert(orig.child(keys@[j]) is Some);
                        assert(holds(orig.child(x)));
                    }
                    if ks0.contains(x) {
                        assert(holds(orig.child(x)));
                    }
                }
                lemma_increasing_unique(keys@, ks0);
            }
        }
        if len == 0 {
            proof {
                assert forall|b: u8| !holds(#[trigger] orig.child(b)) by {
                    if holds(orig.child(b)) {
                        assert(keys@.contains(b));
                    }
                }
            }
            return (Smo::DeleteNode, Edge::empty());
        }
        if len == 1 {
            let key = keys[0];
            let ghost full_edges = edges@;
            let child = edges.pop().unwrap();
            match meta.compress(key, child.meta) {
                Some(m) => {
                    let r = Edge { meta: m, child: child.child };
                    proof {
                        assert(orig.child(keys@[0]) == Some(child));
                        assert forall|b: u8| b != key implies !holds(#[trigger] orig.child(b)) by {
                            if holds(orig.child(b)) {
                                assert(keys@.contains(b));
                            }
                        }
                        assert(r.wf()) by {
                            assert(child.wf());
                        }
                    }
                    return (Smo::CompressEdge, r);
                },
                None => {
                    edges.push(child);
                    assert(edges@ =~= full_edges);
                },
            }
        }
        let new_kind = if len == kind.capacity() {
            kind.grow()
        } else if len < 4 {
            Kind::Node3
        } else if len < 16 {
            Kind::Node15
        } else if len < 48 {
            Kind::Node47
        } else {
            Kind::Node256
        };
        proof {
            assert(len <= 256) by {
                assert(keys@.len() <= 256) by {
                    lemma_increasing_len(keys@);
                }
            }
        }
        let ghost ks = keys@;
        let node = Node::from_children(new_kind, keys, edges);
        let r = Edge { meta, child: Child::Node(Box::new(node)) };
        proof {
            assert forall|b: u8| holds(#[trigger] orig.child(b)) implies node.child(b) == orig.child(b) by {
                let j = choose|j: int| 0 <= j < ks.len() && ks[j] == b;
                assert(orig.child(ks[j]) is Some);
            }
            assert forall|b: u8| holds(#[trigger] node.child(b)) <==> holds(orig.child(b)) by {
                if holds(orig.child(b)) {
                    assert(ks.contains(b));
                }
                if ks.contains(b) {
                    let j = choose|j: int| 0 <= j < ks.len() && ks[j] == b;
                    assert(orig.child(ks[j]) is Some);
                }
            }
            if orig.is_full() && orig.dense() {
                let ks0 = choose|ks0: Seq<u8>|
                    increasing(ks0) && ks0.len() == orig.used() && forall|b: u8|
                        #![trigger orig.child(b)]
                        holds(orig.child(b)) <==> ks0.contains(b);
                assert forall|x: u8| ks.contains(x) <==> ks0.contains(x) by {
                    if ks.contains(x) {
                        let j = choose|j: int| 0 <= j < ks.len() && ks[j] == x;
                        assert(orig.child(ks[j]) is Some);
                        assert(holds(orig.child(x)));
                    }
                    if ks0.contains(x) {
                        assert(holds(orig.child(x)));
                    }
                }
                lemma_increasing_unique(ks, ks0);
            }
        }
        (Smo::ReplaceNode, r)
    }

    /// Take the edge out of slot `i`, leaving an empty edge.
    pub fn take(&mut self, i: usize) -> (r: Edge)
        requires
            old(self).shape_wf(),
            i < old(self).edges@.len(),
        ensures
            final(self).shape_wf(),
            r == old(self).edges@[i as int],
            final(self).edges@.len() == old(self).edges@.len(),
            final(self).edges@[i as int].is_empty(),
            forall|j: int| 0 <= j < old(self).edges@.len() && j != i ==> final(self).edges@[j] == old(
                self,
            ).edges@[j],
            final(self).node_kind() == old(self).node_kind(),
            final(self).used() == old(self).used(),
            forall|b: u8| #[trigger] final(self).slot(b) == old(self).slot(b),
    {
        let mut tmp = Edge::empty();
        std::mem::swap(&mut self.edges[i], &mut tmp);
        tmp
    }

    /// Taking the edge out of a slot and putting it back leaves the node as
    /// it was.
    pub proof fn lemma_take_then_put(n0: Node, n1: Node, n2: Node, i: int, e: Edge)
        requires
            0 <= i < n0.edges@.len(),
            e == n0.edges@[i],
            n1.edges@.len() == n0.edges@.len(),
            forall|j: int| 0 <= j < n0.edges@.len() && j != i ==> n1.edges@[j] == n0.edges@[j],
            forall|b: u8| #[trigger] n1.slot(b) == n0.slot(b),
            n2.edges@ == n1.edges@.update(i, e),
            forall|b: u8| #[trigger] n2.slot(b) == n1.slot(b),
        ensures
            n2.edges@ == n0.edges@,
            forall|b: u8| #[trigger] n2.child(b) == n0.child(b),
    {
        assert(n2.edges@ =~= n0.edges@);
        assert forall|b: u8| #[trigger] n2.child(b) == n0.child(b) by {
            assert(n2.slot(b) == n0.slot(b));
        }
    }

    /// Changing the edge in a slot in use, header untouched, keeps the node
    /// well formed and every key byte on its slot.
    pub proof fn lemma_update_used(n: Node, m: Node, i: int, e: Edge)
        requires
            n.shape_wf(),
            m.header == n.header,
            0 <= i < n.used(),
            m.edges@ == n.edges@.update(i, e),
        ensures
            m.shape_wf(),
            forall|b: u8| #[trigger] m.slot(b) == n.slot(b),
    {
        n.lemma_shape();
        assert forall|j: int| m.used() <= j < m.capacity() implies (#[trigger] m.edges@[j]).is_empty() by {
            assert(m.edges@[j] == n.edges@[j]);
        }
    }

    /// Put `edge` into slot `i`, which is in use or gets an empty edge.
    pub fn put(&mut self, i: usize, edge: Edge)
        requires
            old(self).shape_wf(),
            i < old(self).edges@.len(),
            i >= old(self).used() ==> edge.is_empty(),
        ensures
            final(self).shape_wf(),
            final(self).edges@ == old(self).edges@.update(i as int, edge),
            final(self).node_kind() == old(self).node_kind(),
            final(self).used() == old(self).used(),
            forall|b: u8| #[trigger] final(self).slot(b) == old(self).slot(b),
    {
        self.edges.set(i, edge);
    }

    /// Number of slots whose edge leads somewhere.
    pub fn len(&self) -> (r: usize)
        ensures
            r == live_count(self.edges@),
    {
        let mut count: usize = 0;
        let mut i: usize = 0;
        while i < self.edges.len()
            invariant
                i <= self.edges@.len(),
                count == live_count(self.edges@.take(i as int)),
                count <= i,
            decreases self.edges@.len() - i,
        {
            proof {
                assert(self.edges@.take(i + 1).drop_last() =~= self.edges@.take(i as int));
            }
            if !self.edges[i].is_null() {
                count += 1;
            }
            i += 1;
        }
        proof {
            assert(self.edges@.take(i as int) =~= self.edges@);
        }
        count
    }

    /// The key bytes in `lower..=upper` that have a slot, in increasing
    /// order, with their slots.
    pub fn entries(&self, lower: u8, upper: u8) -> (r: Vec<KeyIndex>)
        requires
            self.shape_wf(),
        ensures
            forall|j: int, k: int| 0 <= j < k < r@.len() ==> r@[j].key < r@[k].key,
            forall|j: int|
                0 <= j < r@.len() ==> lower <= (#[trigger] r@[j]).key <= upper && self.slot(r@[j].key)
                    == Some(r@[j].index as nat),
            forall|b: u8|
                lower <= b <= upper && #[trigger] self.slot(b) is Some ==> exists|j: int|
                    0 <= j < r@.len() && r@[j].key == b,
    {
        proof {
            self.lemma_shape();
        }
        let mut out: Vec<KeyIndex> = Vec::new();
        if lower > upper {
            return out;
        }
        let mut b: u16 = lower as u16;
        while b <= upper as u16
            invariant
                lower <= upper,
                lower <= b <= upper as u16 + 1,
                self.shape_wf(),
                forall|j: int, k: int| 0 <= j < k < out@.len() ==> out@[j].key < out@[k].key,
                forall|j: int|
                    0 <= j < out@.len() ==> lower <= (#[trigger] out@[j]).key < b && self.slot(
                        out@[j].key,
                    ) == Some(out@[j].index as nat),
                forall|c: u8|
                    lower <= c < b && #[trigger] self.slot(c) is Some ==> exists|j: int|
                        0 <= j < out@.len() && out@[j].key == c,
                forall|b: u8| #[trigger] self.slot(b) matches Some(i) ==> i < 256,
            decreases upper as u16 + 1 - b,
        {
            let key = b as u8;
            if let Some(i) = self.get(key) {
                let ghost prev = out@;
                out.push(KeyIndex { key, index: i as u8 });
                proof {
                    assert forall|c: u8|
                        lower <= c < b + 1 && #[trigger] self.slot(c) is Some implies exists|j: int|
                        0 <= j < out@.len() && out@[j].key == c by {
                        if c < b {
                            let j = choose|j: int| 0 <= j < prev.len() && prev[j].key == c;
                            assert(out@[j].key == c);
                        } else {
                            assert(out@[out@.len() - 1].key == c);
                        }
                    }
                }
            }
            b += 1;
        }
        out
    }
}

/// A strictly increasing sequence of bytes has at most 256 elements.
proof fn lemma_increasing_len(s: Seq<u8>)
    requires
        increasing(s),
    ensures
        s.len() <= 256,
{
    if s.len() > 256 {
        assert forall|i: int| 0 <= i < s.len() implies s[i] >= i by {
            lemma_increasing_floor(s, i);
        }
        assert(s[256] >= 256);
    }
}

proof fn lemma_increasing_floor(s: Seq<u8>, i: int)
    requires
        increasing(s),
        0 <= i < s.len(),
    ensures
        s[i] >= i,
    decreases i,
{
    if i > 0 {
        lemma_increasing_floor(s, i - 1);
        assert(s[i - 1] < s[i]);
    }
}

} // verus!
