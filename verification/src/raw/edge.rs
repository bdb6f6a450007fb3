//! Edges of the tree. An edge holds a packed key of up to seven bytes and
//! leads to nothing, to a value, or to a node.
pub mod be;
pub mod le;

use vstd::prelude::*;
use crate::raw::edge::le::Le;
use crate::bytes::is_prefix;
use crate::bytes::is_proper_prefix;
use crate::raw::key::vec::Reader;
use crate::raw::node::Kind;
use crate::raw::node::Node;
use crate::raw::node::holds;

verus! {

/// What an edge leads to.
pub enum Child {
    Null,
    Value(u64),
    Node(Box<Node>),
}

pub struct Edge {
    pub meta: Le,
    pub child: Child,
}

impl Edge {
    /// The key bytes this edge consumes.
    pub open spec fn key(&self) -> Seq<u8> {
        self.meta.key_view()
    }

    /// The edge leads nowhere and carries no key or flags.
    pub open spec fn is_empty(&self) -> bool {
        &&& self.child is Null
        &&& self.meta.wf()
        &&& self.meta.key_view().len() == 0
        &&& !self.meta.value_flag()
        &&& !self.meta.frozen_flag()
    }

    /// Well-formed edges, recursively.
    pub open spec fn wf(&self) -> bool
        decreases self,
    {
        &&& self.meta.wf()
        &&& !self.meta.frozen_flag()
        &&& match self.child {
            Child::Null => self.meta.key_view().len() == 0 && !self.meta.value_flag(),
            Child::Value(_) => self.meta.value_flag(),
            Child::Node(n) => {
                &&& !self.meta.value_flag()
                &&& n.shape_wf()
                &&& forall|i: int| 0 <= i < n.edges@.len() ==> (#[trigger] n.edges@[i]).wf()
            },
        }
    }

    /// The value stored under key `k`, relative to the start of this edge.
    pub open spec fn lookup(&self, k: Seq<u8>) -> Option<u64>
        decreases self,
    {
        let p = self.meta.key_view();
        if p.len() <= k.len() && k.take(p.len() as int) == p {
            match self.child {
                Child::Null => None,
                Child::Value(v) => if k.len() == p.len() {
                    Some(v)
                } else {
                    None
                },
                Child::Node(n) => if k.len() > p.len() {
                    match n.slot(k[p.len() as int]) {
                        Some(i) => if i < n.edges@.len() {
                            n.edges@[i as int].lookup(k.skip((p.len() + 1) as int))
                        } else {
                            None
                        },
                        None => None,
                    }
                } else {
                    None
                },
            }
        } else {
            None
        }
    }

    /// Every path through this edge, which starts after `pre`, comes from a
    /// key in `hist`: a value's key is in it, and a node's key is a proper
    /// prefix of a key in it.
    pub open spec fn paths_ok(&self, pre: Seq<u8>, hist: Set<Seq<u8>>) -> bool
        decreases self,
    {
        let full = pre + self.meta.key_view();
        match self.child {
            Child::Null => true,
            Child::Value(_) => hist.contains(full),
            Child::Node(n) => {
                &&& exists|h: Seq<u8>| hist.contains(h) && is_proper_prefix(full, h)
                &&& forall|i: int, b: u8|
                    0 <= i < n.edges@.len() && #[trigger] n.slot(b) == Some(i as nat)
                        ==> (#[trigger] n.edges@[i]).paths_ok(full.push(b), hist)
            },
        }
    }

    /// Adding keys to the history keeps paths accounted for.
    pub proof fn lemma_paths_mono(&self, pre: Seq<u8>, hist: Set<Seq<u8>>, more: Set<Seq<u8>>)
        requires
            self.paths_ok(pre, hist),
            hist.subset_of(more),
        ensures
            self.paths_ok(pre, more),
        decreases self,
    {
        let full = pre + self.meta.key_view();
        match self.child {
            Child::Node(n) => {
                let h = choose|h: Seq<u8>| hist.contains(h) && is_proper_prefix(full, h);
                assert(more.contains(h));
                assert forall|i: int, b: u8|
                    0 <= i < n.edges@.len() && #[trigger] n.slot(b) == Some(i as nat) implies (
                    #[trigger] n.edges@[i]).paths_ok(full.push(b), more) by {
                    n.edges@[i].lemma_paths_mono(full.push(b), hist, more);
                }
            },
            _ => {},
        }
    }

    /// An edge that leads nowhere holds no value.
    pub proof fn lemma_lookup_null(&self, k: Seq<u8>)
        requires
            self.child is Null,
        ensures
            self.lookup(k) is None,
    {
    }

    /// Moving bytes `q` from the front of a key into the edge: the longer
    /// edge finds under `q + k` what the shorter one finds under `k`, and
    /// nothing under a key that does not start with `q`.
    pub proof fn lemma_lookup_shift(short: Edge, long: Edge, q: Seq<u8>, k: Seq<u8>)
        requires
            long.child == short.child,
            long.key() == q + short.key(),
        ensures
            long.lookup(k) == (if is_prefix(q, k) {
                short.lookup(k.skip(q.len() as int))
            } else {
                None
            }),
    {
        let p1 = short.key();
        let p2 = long.key();
        if is_prefix(q, k) {
            let k1 = k.skip(q.len() as int);
            assert(p2.len() == q.len() + p1.len());
            assert(k1.len() == k.len() - q.len());
            let m1 = p1.len() <= k1.len() && k1.take(p1.len() as int) == p1;
            let m2 = p2.len() <= k.len() && k.take(p2.len() as int) == p2;
            if m1 {
                assert forall|j: int| 0 <= j < p2.len() implies k[j] == p2[j] by {
                    if j < q.len() {
                        assert(k.take(q.len() as int)[j] == q[j]);
                    } else {
                        assert(k1.take(p1.len() as int)[j - q.len()] == p1[j - q.len()]);
                    }
                }
                assert(k.take(p2.len() as int) =~= p2);
            }
            if m2 {
                assert forall|j: int| 0 <= j < p1.len() implies k1[j] == p1[j] by {
                    assert(k.take(p2.len() as int)[j + q.len()] == p2[j + q.len()]);
                }
                assert(k1.take(p1.len() as int) =~= p1);
            }
            assert(m1 == m2);
            if m1 && k.len() > p2.len() {
                assert(k.skip((p2.len() + 1) as int) =~= k1.skip((p1.len() + 1) as int));
                assert(k[p2.len() as int] == k1[p1.len() as int]);
            }
        } else {
            if p2.len() <= k.len() && k.take(p2.len() as int) == p2 {
                assert(k.take(q.len() as int) =~= q) by {
                    assert forall|j: int| 0 <= j < q.len() implies k[j] == q[j] by {
                        assert(k.take(p2.len() as int)[j] == p2[j]);
                    }
                }
            }
        }
    }

    /// The empty edge.
    pub fn empty() -> (r: Edge)
        ensures
            r.is_empty(),
            r.wf(),
    {
        Edge { meta: Le::empty(), child: Child::Null }
    }

    /// An edge with key `key` leading to `value`.
    pub fn new_value(key: Le, value: u64) -> (r: Edge)
        requires
            key.wf(),
        ensures
            r.wf(),
            r.key() == key.key_view(),
            r.child == Child::Value(value),
    {
        let meta = key.with_value(true).with_frozen(false);
        Edge { meta, child: Child::Value(value) }
    }

    /// A chain of edges and single-child nodes holding the rest of `reader`,
    /// ending in `value`.
    pub fn new_path(reader: Reader, value: u64, Ghost(pre): Ghost<Seq<u8>>, Ghost(hist): Ghost<
        Set<Seq<u8>>,
    >) -> (r: Edge)
        ensures
            r.wf(),
            !(r.child is Null),
            forall|k: Seq<u8>| #[trigger] r.lookup(k) == (if k == reader@ {
                Some(value)
            } else {
                None
            }),
            hist.contains(pre + reader@) ==> r.paths_ok(pre, hist),
        decreases reader@.len(),
    {
        let ghost whole = reader@;
        let mut reader = reader;
        let key = reader.read(56);
        proof {
            key.lemma_wf_len();
        }
        let ghost rest = reader@;
        match reader.next() {
            None => {
                let r = Edge::new_value(key, value);
                proof {
                    assert(whole =~= key.key_view());
                    assert forall|k: Seq<u8>| #[trigger] r.lookup(k) == (if k == whole {
                        Some(value)
                    } else {
                        None
                    }) by {
                        if k.len() >= whole.len() && k.take(whole.len() as int) == whole && k.len()
                            == whole.len() {
                            assert(k =~= whole);
                        }
                    }
                    assert(pre + r.meta.key_view() == pre + whole);
                }
                r
            },
            Some(byte) => {
                let ghost next = pre + key.key_view().push(byte);
                let child = Edge::new_path(reader, value, Ghost(next), Ghost(hist));
                let mut keys: Vec<u8> = Vec::new();
                keys.push(byte);
                let mut edges: Vec<Edge> = Vec::new();
                edges.push(child);
                proof {
                    assert(crate::bytes::increasing(keys@));
                }
                let node = Node::from_children(Kind::Node3, keys, edges);
                let meta = key.with_frozen(false);
                let r = Edge { meta, child: Child::Node(Box::new(node)) };
                proof {
                    node.lemma_shape();
                    let p = key.key_view();
                    assert(whole =~= p.push(byte) + reader@);
                    assert(keys@[0] == byte);
                    assert(node.child(byte) == Some(child));
                    assert forall|k: Seq<u8>| #[trigger] r.lookup(k) == (if k == whole {
                        Some(value)
                    } else {
                        None
                    }) by {
                        if p.len() <= k.len() && k.take(p.len() as int) == p && k.len() > p.len() {
                            let x = k[p.len() as int];
                            let tail = k.skip((p.len() + 1) as int);
                            if x == byte {
                                assert(child.lookup(tail) == (if tail == reader@ {
                                    Some(value)
                                } else {
                                    None
                                }));
                                if tail == reader@ {
                                    assert(k =~= whole);
                                } else if k == whole {
                                    assert(tail =~= reader@);
                                }
                            } else {
                                assert(!holds(node.child(x))) by {
                                    if holds(node.child(x)) {
                                        assert(keys@.contains(x));
                                    }
                                }
                                if k == whole {
                                    assert(k[p.len() as int] == byte);
                                }
                            }
                        } else if k == whole {
                            assert(k.take(p.len() as int) =~= p);
                        }
                    }
                    if hist.contains(pre + whole) {
                        assert(pre + whole =~= next + reader@);
                        let full = pre + p;
                        assert(is_proper_prefix(full, pre + whole)) by {
                            assert((pre + whole).take(full.len() as int) =~= full);
                        }
                        assert forall|i: int, b: u8|
                            0 <= i < node.edges@.len() && #[trigger] node.slot(b) == Some(i as nat)
                            implies (#[trigger] node.edges@[i]).paths_ok(full.push(b), hist) by {
                            if b == byte {
                                assert(full.push(b) =~= next);
                            } else {
                                assert(!holds(node.child(b))) by {
                                    if holds(node.child(b)) {
                                        assert(keys@.contains(b));
                                    }
                                }
                            }
                        }
                    }
                }
                r
            },
        }
    }

    /// The edge leads nowhere.
    pub fn is_null(&self) -> (r: bool)
        ensures
            r == (self.child is Null),
    {
        match self.child {
            Child::Null => true,
            _ => false,
        }
    }

    /// The value this edge leads to, if it leads to one.
    pub fn as_value(&self) -> (r: Option<u64>)
        ensures
            r == (match self.child {
                Child::Value(v) => Some(v),
                _ => None::<u64>,
            }),
    {
        match self.child {
            Child::Value(v) => Some(v),
            _ => None,
        }
    }

    /// The same edge leading to `value` instead.
    pub fn with_value(self, value: u64) -> (r: Edge)
        requires
            self.child is Value,
        ensures
            r.meta == self.meta,
            r.child == Child::Value(value),
    {
        Edge { meta: self.meta, child: Child::Value(value) }
    }

    /// The same edge with the frozen flag cleared.
    pub fn unfreeze(self) -> (r: Edge)
        requires
            self.meta.wf(),
        ensures
            r.meta.wf(),
            r.meta.key_view() == self.meta.key_view(),
            r.meta.value_flag() == self.meta.value_flag(),
            !r.meta.frozen_flag(),
            r.child == self.child,
    {
        Edge { meta: self.meta.with_frozen(false), child: self.child }
    }
}

/// The key `k` is neither a proper prefix nor a proper extension of any key
/// in `hist`.
pub open spec fn compatible(k: Seq<u8>, hist: Set<Seq<u8>>) -> bool {
    forall|h: Seq<u8>| #[trigger] hist.contains(h) ==> !is_proper_prefix(k, h) && !is_proper_prefix(h, k)
}

} // verus!
