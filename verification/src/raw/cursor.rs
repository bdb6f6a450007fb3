//! Walking the tree along a key: lookup, insertion and removal.
use vstd::prelude::*;
use crate::bytes::is_prefix;
use crate::bytes::is_proper_prefix;
use crate::raw::edge::Child;
use crate::raw::edge::Edge;
use crate::raw::edge::compatible;
use crate::bytes::common_len;
use crate::bytes::increasing;
use crate::bytes::lemma_common_len_props;
use crate::raw::key::vec::Len;
use crate::raw::key::vec::Reader;
use crate::raw::node::Kind;
use crate::raw::node::Node;
use crate::raw::node::Smo;
use crate::raw::node::holds;
use crate::raw::iter::common_prefix_len;
use vstd::slice::slice_subrange;

verus! {

/// The value stored under `key` below `root`.
pub fn traverse_get(root: &Edge, key: Reader) -> (r: Option<u64>)
    requires
        root.wf(),
    ensures
        r == root.lookup(key@),
{
    let mut edge = root;
    let mut reader = key;
    loop
        invariant
            edge.wf(),
            root.lookup(key@) == edge.lookup(reader@),
        decreases reader@.len(),
    {
        let ghost before = reader@;
        let ghost p = edge.key();
        proof {
            edge.meta.lemma_wf_len();
        }
        if reader.match_exact(edge.meta).is_none() {
            return None;
        }
        proof {
            assert(before.take(p.len() as int) == p);
        }
        match &edge.child {
            Child::Null => {
                return None;
            },
            Child::Value(v) => {
                if reader.len().bytes() == 0 {
                    return Some(*v);
                }
                return None;
            },
            Child::Node(n) => {
                let byte = match reader.next() {
                    Some(b) => b,
                    None => {
                        return None;
                    },
                };
                match n.get(byte) {
                    Some(i) => {
                        proof {
                            n.lemma_shape();
                            assert(reader@ =~= before.skip((p.len() + 1) as int));
                        }
                        edge = &n.edges[i];
                    },
                    None => {
                        return None;
                    },
                }
            },
        }
    }
}

/// Every edge that keeps `orig`'s key and has a value where `orig` has one
/// is as well formed and as accounted for as `orig`, and finds its own
/// value under `orig`'s key and nothing else.
proof fn lemma_value_edges(orig: Edge, pre: Seq<u8>, hist: Set<Seq<u8>>)
    requires
        orig.wf(),
        orig.paths_ok(pre, hist),
        orig.child is Value,
    ensures
        forall|r: Edge|
            r.meta == orig.meta && r.child is Value ==> #[trigger] r.wf() && r.paths_ok(pre, hist),
        forall|r: Edge, k: Seq<u8>|
            r.meta == orig.meta && r.child is Value ==> #[trigger] r.lookup(k) == (if k == orig.key() {
                Some(r.child->Value_0)
            } else {
                orig.lookup(k)
            }),
{
    let p = orig.key();
    assert forall|r: Edge, k: Seq<u8>|
        r.meta == orig.meta && r.child is Value implies #[trigger] r.lookup(k) == (if k == p {
            Some(r.child->Value_0)
        } else {
            orig.lookup(k)
        }) by {
        if k == p {
            assert(k.take(p.len() as int) =~= p);
        } else if p.len() <= k.len() && k.take(p.len() as int) == p && k.len() == p.len() {
            assert(k =~= p);
        }
    }
}

/// `r` differs from `orig` at most in the child in slot `i` of its node,
/// which is well formed, accounted for below `byte`, and finds what the old
/// child found except perhaps under `rest`.
spec fn descended(r: Edge, orig: Edge, byte: u8, i: nat, pre: Seq<u8>, rest: Seq<u8>, hist: Set<
    Seq<u8>,
>) -> bool {
    let c2 = r.child->Node_0.edges@[i as int];
    &&& r.meta == orig.meta
    &&& r.child is Node
    &&& orig.child is Node
    &&& r.child->Node_0.header == orig.child->Node_0.header
    &&& r.child->Node_0.edges@ == orig.child->Node_0.edges@.update(i as int, c2)
    &&& c2.wf()
    &&& c2.paths_ok(pre + orig.key().push(byte), hist)
    &&& forall|k: Seq<u8>|
        k != rest ==> #[trigger] c2.lookup(k) == orig.child->Node_0.edges@[i as int].lookup(k)
}

/// Every edge that differs from `orig` only in the child under `byte` is
/// as well formed and as accounted for as `orig`, finds under `byte` and
/// `rest` what its new child finds under `rest`, and what `orig` finds
/// elsewhere.
proof fn lemma_descended_edges(
    orig: Edge,
    byte: u8,
    i: nat,
    pre: Seq<u8>,
    rest: Seq<u8>,
    hist: Set<Seq<u8>>,
)
    requires
        orig.wf(),
        orig.paths_ok(pre, hist),
        orig.child is Node,
        orig.child->Node_0.slot(byte) == Some(i),
    ensures
        forall|r: Edge|
            descended(r, orig, byte, i, pre, rest, hist) ==> #[trigger] r.wf(),
        forall|r: Edge|
            descended(r, orig, byte, i, pre, rest, hist) ==> #[trigger] r.paths_ok(pre, hist),
        forall|r: Edge, k: Seq<u8>|
            descended(r, orig, byte, i, pre, rest, hist) ==> #[trigger] r.lookup(k) == (if k
                == orig.key().push(byte) + rest {
                r.child->Node_0.edges@[i as int].lookup(rest)
            } else {
                orig.lookup(k)
            }),
        orig.child->Node_0.edges@[i as int].lookup(rest) == orig.lookup(orig.key().push(byte) + rest),
{
    let whole = orig.key().push(byte) + rest;
    assert forall|r: Edge| descended(r, orig, byte, i, pre, rest, hist) implies #[trigger] r.wf() by {
        lemma_descended_edge(orig, byte, i, pre, rest, hist, r);
    }
    assert forall|r: Edge| descended(r, orig, byte, i, pre, rest, hist) implies #[trigger] r.paths_ok(
        pre,
        hist,
    ) by {
        lemma_descended_edge(orig, byte, i, pre, rest, hist, r);
    }
    assert forall|r: Edge, k: Seq<u8>| descended(r, orig, byte, i, pre, rest, hist) implies #[trigger] r.lookup(k) == (if k == whole {
            r.child->Node_0.edges@[i as int].lookup(rest)
        } else {
            orig.lookup(k)
        }) by {
        lemma_descended_edge(orig, byte, i, pre, rest, hist, r);
    }
    let child = orig.child->Node_0.edges@[i as int];
    assert(child.lookup(rest) == orig.lookup(whole)) by {
        let p = orig.key();
        orig.child->Node_0.lemma_shape();
        assert(whole.len() > p.len());
        assert(whole.skip((p.len() + 1) as int) =~= rest);
        assert(whole.take(p.len() as int) =~= p);
        assert(whole[p.len() as int] == byte);
    }
}

/// One edge of those `lemma_descended_edges` speaks of.
proof fn lemma_descended_edge(
    orig: Edge,
    byte: u8,
    i: nat,
    pre: Seq<u8>,
    rest: Seq<u8>,
    hist: Set<Seq<u8>>,
    r: Edge,
)
    requires
        orig.wf(),
        orig.paths_ok(pre, hist),
        orig.child is Node,
        orig.child->Node_0.slot(byte) == Some(i),
        descended(r, orig, byte, i, pre, rest, hist),
    ensures
        r.wf(),
        r.paths_ok(pre, hist),
        forall|k: Seq<u8>| #[trigger] r.lookup(k) == (if k == orig.key().push(byte) + rest {
            r.child->Node_0.edges@[i as int].lookup(rest)
        } else {
            orig.lookup(k)
        }),
{
    let before = *orig.child->Node_0;
    before.lemma_shape();
    let child = before.edges@[i as int];
    let after = *r.child->Node_0;
    let c2 = after.edges@[i as int];
    Node::lemma_update_used(before, after, i as int, c2);
    assert forall|k: Seq<u8>| #[trigger] c2.lookup(k) == (if k == rest {
        c2.lookup(rest)
    } else {
        child.lookup(k)
    }) by {}
    lemma_descend(orig, r, before, after, byte, i, child, c2, pre, rest, c2.lookup(rest), hist, hist);
}

/// A reference to the value stored under `key` below `edge`, whose path
/// starts after `pre`. Whatever is written through it becomes the value
/// under `key`; the tree is otherwise left as it was.
pub fn get_mut<'a>(edge: &'a mut Edge, key: Reader, Ghost(pre): Ghost<Seq<u8>>, Ghost(hist): Ghost<
    Set<Seq<u8>>,
>) -> (r: Option<&'a mut u64>)
    requires
        old(edge).wf(),
        old(edge).paths_ok(pre, hist),
    ensures
        final(edge).wf(),
        final(edge).paths_ok(pre, hist),
        r is Some <==> old(edge).lookup(key@) is Some,
        r matches Some(v) ==> Some(*v) == old(edge).lookup(key@),
        r matches Some(v) ==> forall|k: Seq<u8>| #[trigger] final(edge).lookup(k) == (if k == key@ {
            Some(*final(v))
        } else {
            old(edge).lookup(k)
        }),
        r is None ==> forall|k: Seq<u8>| #[trigger] final(edge).lookup(k) == old(edge).lookup(k),
    decreases key@.len(),
{
    let ghost before = key@;
    let ghost p = edge.key();
    let ghost e0 = *edge;
    proof {
        edge.meta.lemma_wf_len();
    }
    let mut reader = key;
    if reader.match_exact(edge.meta).is_none() {
        proof {
            assert forall|k: Seq<u8>| #[trigger] e0.lookup(k) is Some implies k != before by {
                if k == before {
                    assert(!(p.len() <= k.len() && k.take(p.len() as int) == p));
                }
            }
        }
        return None;
    }
    proof {
        assert(before.take(p.len() as int) == p);
        assert(reader@ =~= before.skip(p.len() as int));
    }
    let (i, byte): (usize, u8) = match &edge.child {
        Child::Null => {
            proof {
                e0.lemma_lookup_null(before);
            }
            return None;
        },
        Child::Value(_) => {
            if reader.len().bytes() != 0 {
                return None;
            }
            proof {
                assert(before =~= p);
            }
            (0, 0)
        },
        Child::Node(n) => {
            let byte = match reader.next() {
                Some(b) => b,
                None => {
                    return None;
                },
            };
            match n.get(byte) {
                Some(i) => {
                    proof {
                        n.lemma_shape();
                        assert(before =~= p.push(byte) + reader@) by {
                            assert(before =~= before.take(p.len() as int) + before.skip(
                                p.len() as int,
                            ));
                        }
                    }
                    (i, byte)
                },
                None => {
                    return None;
                },
            }
        },
    };
    match &mut edge.child {
        Child::Value(v) => {
            proof {
                lemma_value_edges(e0, pre, hist);
            }
            Some(v)
        },
        Child::Node(n) => {
            let c = &mut n.edges[i];
            proof {
                lemma_descended_edges(e0, byte, i as nat, pre, reader@, hist);
            }
            get_mut(c, reader, Ghost(pre + p.push(byte)), Ghost(hist))
        },
        Child::Null => None,
    }
}

/// Following `k` down from `edge` stays in the tree: `k` agrees with every
/// edge key on its way, and either runs out inside an edge's key or reaches
/// an edge that leads to a value, without meeting an edge that leads
/// nowhere or a node with no child for its next byte.
pub open spec fn has_prefix_path(edge: Edge, k: Seq<u8>) -> bool
    decreases edge,
{
    let p = edge.key();
    let n = if k.len() < p.len() {
        k.len()
    } else {
        p.len()
    };
    match edge.child {
        Child::Null => false,
        Child::Value(_) => k.take(n as int) == p.take(n as int),
        Child::Node(node) => if k.take(n as int) != p.take(n as int) {
            false
        } else if k.len() > p.len() {
            match node.slot(k[p.len() as int]) {
                Some(i) => if i < node.edges@.len() {
                    has_prefix_path(node.edges@[i as int], k.skip((p.len() + 1) as int))
                } else {
                    false
                },
                None => false,
            }
        } else {
            true
        },
    }
}

/// Where the tree has no path for `k`, no key that starts with `k` has a
/// value below `edge`.
pub proof fn lemma_no_prefix_path(edge: Edge, k: Seq<u8>, key: Seq<u8>)
    requires
        edge.wf(),
        !has_prefix_path(edge, k),
        is_prefix(k, key),
    ensures
        edge.lookup(key) is None,
    decreases edge,
{
    let p = edge.key();
    let n = if k.len() < p.len() {
        k.len()
    } else {
        p.len()
    };
    if p.len() <= key.len() && key.take(p.len() as int) == p {
        if k.take(n as int) != p.take(n as int) {
            assert(k.take(n as int) =~= p.take(n as int)) by {
                assert forall|j: int| 0 <= j < n implies k[j] == p[j] by {
                    assert(key.take(k.len() as int)[j] == k[j]);
                    assert(key.take(p.len() as int)[j] == p[j]);
                }
            }
        }
        match edge.child {
            Child::Node(node) => {
                if key.len() > p.len() && k.len() > p.len() {
                    assert(key[p.len() as int] == k[p.len() as int]) by {
                        assert(key.take(k.len() as int)[p.len() as int] == k[p.len() as int]);
                    }
                    match node.slot(k[p.len() as int]) {
                        Some(i) => {
                            if i < node.edges@.len() {
                                let ks = k.skip((p.len() + 1) as int);
                                let keys = key.skip((p.len() + 1) as int);
                                assert(is_prefix(ks, keys)) by {
                                    assert forall|j: int| 0 <= j < ks.len() implies keys[j] == ks[j] by {
                                        assert(key.take(k.len() as int)[j + p.len() + 1] == k[j + p.len() + 1]);
                                    }
                                    assert(keys.take(ks.len() as int) =~= ks);
                                }
                                lemma_no_prefix_path(node.edges@[i as int], ks, keys);
                            }
                        },
                        None => {},
                    }
                }
            },
            _ => {},
        }
    }
}

/// Whether the tree below `root` has a path for `key`.
pub fn traverse_prefix(root: &Edge, key: &[u8]) -> (r: bool)
    requires
        root.wf(),
    ensures
        r == has_prefix_path(*root, key@),
{
    let mut edge = root;
    let mut pos: usize = 0;
    proof {
        assert(key@.skip(0) =~= key@);
    }
    loop
        invariant
            edge.wf(),
            pos <= key@.len(),
            has_prefix_path(*root, key@) == has_prefix_path(*edge, key@.skip(pos as int)),
        decreases key@.len() - pos,
    {
        let ghost k = key@.skip(pos as int);
        if edge.is_null() {
            return false;
        }
        proof {
            edge.meta.lemma_wf_len();
        }
        let p = edge.meta.to_vec();
        let rest = slice_subrange(key, pos, key.len());
        proof {
            assert(rest@ =~= k);
        }
        let c = common_prefix_len(rest, p.as_slice());
        let n = if rest.len() < p.len() {
            rest.len()
        } else {
            p.len()
        };
        proof {
            lemma_common_len_props(k, p@);
        }
        if c < n {
            proof {
                assert(k.take(n as int)[c as int] != p@.take(n as int)[c as int]);
            }
            return false;
        }
        proof {
            assert(k.take(n as int) =~= p@.take(n as int));
        }
        if rest.len() <= p.len() {
            return true;
        }
        match &edge.child {
            Child::Node(nd) => {
                let byte = key[pos + p.len()];
                proof {
                    assert(k[p@.len() as int] == byte);
                }
                match nd.get(byte) {
                    Some(i) => {
                        proof {
                            nd.lemma_shape();
                            assert(key@.skip((pos + p.len() + 1) as int) =~= k.skip(
                                (p@.len() + 1) as int,
                            ));
                        }
                        edge = &nd.edges[i];
                        pos = pos + p.len() + 1;
                    },
                    None => {
                        return false;
                    },
                }
            },
            _ => {
                return true;
            },
        }
    }
}

/// Bytes of `key` left once `edge` has consumed its own.
pub open spec fn remaining(edge: Edge, key: Seq<u8>) -> nat {
    if edge.key().len() <= key.len() {
        (key.len() - edge.key().len()) as nat
    } else {
        0
    }
}

/// How far a node is from accepting a new child in place: a full node must
/// be rebuilt, and a full node with dead slots may have to be rebuilt twice.
pub open spec fn rank(edge: Edge) -> nat {
    match edge.child {
        Child::Node(n) => if n.is_full() {
            if n.dense() {
                1
            } else {
                2
            }
        } else {
            0
        },
        _ => 0,
    }
}

/// Store `value` under `reader` below `edge`, whose path starts after `pre`.
/// Returns the new edge and the value the key had before.
pub fn insert(edge: Edge, reader: Reader, value: u64, Ghost(pre): Ghost<Seq<u8>>, Ghost(hist): Ghost<
    Set<Seq<u8>>,
>) -> (r: (Edge, Option<u64>))
    requires
        edge.wf(),
        edge.paths_ok(pre, hist),
        compatible(pre + reader@, hist),
    ensures
        r.0.wf(),
        !(r.0.child is Null),
        r.0.paths_ok(pre, hist.insert(pre + reader@)),
        forall|k: Seq<u8>| #[trigger] r.0.lookup(k) == (if k == reader@ {
            Some(value)
        } else {
            edge.lookup(k)
        }),
        r.1 == edge.lookup(reader@),
    decreases remaining(edge, reader@), rank(edge),
{
    let ghost hist2 = hist.insert(pre + reader@);
    let ghost whole = reader@;
    let ghost p = edge.key();
    let ghost orig = edge;
    proof {
        edge.meta.lemma_wf_len();
    }
    let mut rd = reader;
    let (_, exact) = rd.match_inexact(edge.meta);
    if !exact {
        let r = split(edge, reader, value, Ghost(pre), Ghost(hist));
        return (r, None);
    }
    proof {
        assert(whole.take(p.len() as int) == p);
        assert(rd@ =~= whole.skip(p.len() as int));
    }
    let Edge { meta, child } = edge;
    match child {
        Child::Null => {
            let r = Edge::new_path(reader, value, Ghost(pre), Ghost(hist2));
            proof {
                assert(orig.child is Null);
                assert(hist2.contains(pre + whole));
                assert(r.paths_ok(pre, hist2));
                assert forall|k: Seq<u8>| #[trigger] r.lookup(k) == (if k == whole {
                    Some(value)
                } else {
                    orig.lookup(k)
                }) by {
                    orig.lemma_lookup_null(k);
                }
                orig.lemma_lookup_null(whole);
            }
            (r, None)
        },
        Child::Value(v) => {
            proof {
                assert(hist.contains(pre + p));
                if whole.len() > p.len() {
                    assert(is_proper_prefix(pre + p, pre + whole)) by {
                        assert((pre + whole).take((pre + p).len() as int) =~= pre + p);
                    }
                }
                assert(whole =~= p);
            }
            let r = Edge { meta, child: Child::Value(value) };
            proof {
                assert forall|k: Seq<u8>| #[trigger] r.lookup(k) == (if k == whole {
                    Some(value)
                } else {
                    orig.lookup(k)
                }) by {
                    if p.len() <= k.len() && k.take(p.len() as int) == p && k.len() == p.len() {
                        assert(k =~= p);
                    }
                }
                assert(whole.take(p.len() as int) =~= whole);
            }
            (r, Some(v))
        },
        Child::Node(n) => {
            let mut node = *n;
            let byte = match rd.next() {
                Some(b) => b,
                None => {
                    proof {
                        let h = choose|h: Seq<u8>| hist.contains(h) && is_proper_prefix(pre + p, h);
                        assert(whole =~= p);
                        assert(false);
                    }
                    return (Edge { meta, child: Child::Node(Box::new(node)) }, None);
                },
            };
            let ghost full = pre + p;
            proof {
                assert(whole =~= p.push(byte) + rd@);
                assert(full.push(byte) + rd@ =~= pre + whole);
                node.lemma_shape();
            }
            let ghost before = node;
            match node.get_or_insert(byte) {
                Some(i) => {
                    proof {
                        node.lemma_shape();
                    }
                    let ghost after_slot = node;
                    let child = node.take(i);
                    proof {
                        assert(child == before.edges@[i as int]);
                        assert(child.wf());
                        if before.slot(byte) is Some {
                            assert(before.child(byte) == Some(child));
                        } else {
                            assert(child.is_empty());
                        }
                    }
                    let (c2, old) = insert(child, rd, value, Ghost(full.push(byte)), Ghost(hist));
                    node.put(i, c2);
                    let r = Edge { meta, child: Child::Node(Box::new(node)) };
                    proof {
                        assert(node.edges@ == before.edges@.update(i as int, c2));
                        lemma_descend(
                            orig,
                            r,
                            before,
                            node,
                            byte,
                            i as nat,
                            child,
                            c2,
                            pre,
                            rd@,
                            Some(value),
                            hist,
                            hist2,
                        );
                    }
                    (r, old)
                },
                None => {
                    proof {
                        assert(node == before);
                    }
                    let (smo, e2) = node.replace(meta);
                    proof {
                        lemma_replace(orig, before, smo, e2, pre, hist);
                    }
                    match smo {
                        Smo::DeleteNode => {
                            let r = Edge::new_path(reader, value, Ghost(pre), Ghost(hist2));
                            proof {
                                assert(hist2.contains(pre + whole));
                                assert forall|k: Seq<u8>| #[trigger] orig.lookup(k) is None by {
                                    e2.lemma_lookup_null(k);
                                }
                            }
                            (r, None)
                        },
                        _ => {
                            proof {
                                e2.meta.lemma_wf_len();
                            }
                            insert(e2, reader, value, Ghost(pre), Ghost(hist))
                        },
                    }
                },
            }
        },
    }
}

/// Remove the value stored under `reader` below `edge`, whose path starts
/// after `pre`. The edge that held it becomes empty; nodes stay in place.
/// Returns the new edge and the value removed.
pub fn remove(edge: Edge, reader: Reader, Ghost(pre): Ghost<Seq<u8>>, Ghost(hist): Ghost<
    Set<Seq<u8>>,
>) -> (r: (Edge, Option<u64>))
    requires
        edge.wf(),
        edge.paths_ok(pre, hist),
    ensures
        r.0.wf(),
        r.0.paths_ok(pre, hist),
        forall|k: Seq<u8>| #[trigger] r.0.lookup(k) == (if k == reader@ {
            None
        } else {
            edge.lookup(k)
        }),
        r.1 == edge.lookup(reader@),
    decreases reader@.len(),
{
    let ghost whole = reader@;
    let ghost p = edge.key();
    let ghost orig = edge;
    proof {
        edge.meta.lemma_wf_len();
    }
    let mut rd = reader;
    if rd.match_exact(edge.meta).is_none() {
        proof {
            assert forall|k: Seq<u8>| #[trigger] orig.lookup(k) == (if k == whole {
                None
            } else {
                orig.lookup(k)
            }) by {
                if k == whole {
                    assert(!(p.len() <= k.len() && k.take(p.len() as int) == p));
                }
            }
        }
        return (edge, None);
    }
    proof {
        assert(whole.take(p.len() as int) == p);
        assert(rd@ =~= whole.skip(p.len() as int));
    }
    let Edge { meta, child } = edge;
    match child {
        Child::Null => {
            proof {
                assert forall|k: Seq<u8>| #[trigger] orig.lookup(k) == (if k == whole {
                    None
                } else {
                    orig.lookup(k)
                }) by {
                    orig.lemma_lookup_null(k);
                }
            }
            (Edge { meta, child: Child::Null }, None)
        },
        Child::Value(v) => {
            if rd.len().bytes() == 0 {
                let r = Edge::empty();
                proof {
                    assert(whole =~= p);
                    assert forall|k: Seq<u8>| #[trigger] r.lookup(k) == (if k == whole {
                        None
                    } else {
                        orig.lookup(k)
                    }) by {
                        r.lemma_lookup_null(k);
                        if p.len() <= k.len() && k.take(p.len() as int) == p && k.len() == p.len() {
                            assert(k =~= p);
                        }
                    }
                }
                (r, Some(v))
            } else {
                (Edge { meta, child: Child::Value(v) }, None)
            }
        },
        Child::Node(n) => {
            let mut node = *n;
            let byte = match rd.next() {
                Some(b) => b,
                None => {
                    return (Edge { meta, child: Child::Node(Box::new(node)) }, None);
                },
            };
            proof {
                assert(whole =~= p.push(byte) + rd@);
                node.lemma_shape();
            }
            let ghost before = node;
            match node.get(byte) {
                Some(i) => {
                    let child = node.take(i);
                    proof {
                        assert(child.wf());
                        assert(before.child(byte) == Some(child));
                    }
                    let (c2, old) = remove(child, rd, Ghost(pre + p.push(byte)), Ghost(hist));
                    node.put(i, c2);
                    let r = Edge { meta, child: Child::Node(Box::new(node)) };
                    proof {
                        assert(node.edges@ == before.edges@.update(i as int, c2));
                        lemma_descend(
                            orig,
                            r,
                            before,
                            node,
                            byte,
                            i as nat,
                            child,
                            c2,
                            pre,
                            rd@,
                            None,
                            hist,
                            hist,
                        );
                    }
                    (r, old)
                },
                None => {
                    proof {
                        assert forall|k: Seq<u8>| #[trigger] orig.lookup(k) == (if k == whole {
                            None
                        } else {
                            orig.lookup(k)
                        }) by {}
                    }
                    (Edge { meta, child: Child::Node(Box::new(node)) }, None)
                },
            }
        },
    }
}

/// Descending into the child under `byte` and storing the key below it
/// keeps the rest of the node, and so what the edge finds elsewhere.
proof fn lemma_descend(
    orig: Edge,
    r: Edge,
    before: Node,
    after: Node,
    byte: u8,
    i: nat,
    child: Edge,
    c2: Edge,
    pre: Seq<u8>,
    rest: Seq<u8>,
    v: Option<u64>,
    hist: Set<Seq<u8>>,
    hist2: Set<Seq<u8>>,
)
    requires
        hist.subset_of(hist2),
        orig.wf(),
        orig.paths_ok(pre, hist),
        orig.child == Child::Node(Box::new(before)),
        r.meta == orig.meta,
        r.child == Child::Node(Box::new(after)),
        before.shape_wf(),
        after.shape_wf(),
        forall|b: u8| b != byte ==> #[trigger] after.slot(b) == before.slot(b),
        after.slot(byte) == Some(i),
        before.slot(byte) is Some ==> before.slot(byte) == Some(i),
        i < before.edges@.len(),
        child == before.edges@[i as int],
        before.slot(byte) is None ==> child.is_empty(),
        after.edges@ == before.edges@.update(i as int, c2),
        c2.wf(),
        c2.paths_ok(pre + orig.key().push(byte), hist2),
        forall|k: Seq<u8>| #[trigger] c2.lookup(k) == (if k == rest {
            v
        } else {
            child.lookup(k)
        }),
    ensures
        ({
            let whole = orig.key().push(byte) + rest;
            &&& r.wf()
            &&& r.paths_ok(pre, hist2)
            &&& forall|k: Seq<u8>| #[trigger] r.lookup(k) == (if k == whole {
                v
            } else {
                orig.lookup(k)
            })
            &&& child.lookup(rest) == orig.lookup(whole)
        }),
{
    let p = orig.key();
    let whole = p.push(byte) + rest;
    let full = pre + p;
    before.lemma_shape();
    after.lemma_shape();
    assert forall|j: int| 0 <= j < after.edges@.len() implies (#[trigger] after.edges@[j]).wf() by {
        if j != i {
            assert(after.edges@[j] == before.edges@[j]);
        }
    }
    assert(r.wf());
    if before.slot(byte) is None {
        child.lemma_lookup_null(rest);
    }
    assert(whole.skip((p.len() + 1) as int) =~= rest);
    assert(whole.take(p.len() as int) =~= p);
    assert(whole[p.len() as int] == byte);
    assert(child.lookup(rest) == orig.lookup(whole));
    assert forall|k: Seq<u8>| #[trigger] r.lookup(k) == (if k == whole {
        v
    } else {
        orig.lookup(k)
    }) by {
        if p.len() <= k.len() && k.take(p.len() as int) == p && k.len() > p.len() {
            let x = k[p.len() as int];
            let tail = k.skip((p.len() + 1) as int);
            if x == byte {
                assert(after.edges@[i as int] == c2);
                assert(r.lookup(k) == c2.lookup(tail));
                if before.slot(byte) is None {
                    child.lemma_lookup_null(tail);
                } else {
                    assert(orig.lookup(k) == child.lookup(tail));
                }
                if k == whole {
                    assert(tail =~= rest);
                } else if tail == rest {
                    assert(k =~= whole);
                }
            } else {
                if let Some(j) = before.slot(x) {
                    assert(j != i);
                    if j < before.edges@.len() {
                        assert(after.edges@[j as int] == before.edges@[j as int]);
                    }
                }
                assert(k != whole);
            }
        } else {
            assert(k != whole) by {
                if k == whole {
                    assert(k.take(p.len() as int) =~= p);
                }
            }
        }
    }
    assert forall|j: int, b: u8|
        0 <= j < after.edges@.len() && #[trigger] after.slot(b) == Some(j as nat) implies (
        #[trigger] after.edges@[j]).paths_ok(full.push(b), hist2) by {
        if b == byte {
            assert(j == i);
        } else {
            assert(before.slot(b) == Some(j as nat));
            assert(j != i);
            assert(after.edges@[j] == before.edges@[j]);
            before.edges@[j].lemma_paths_mono(full.push(b), hist, hist2);
        }
    }
    let h = choose|h: Seq<u8>| hist.contains(h) && is_proper_prefix(full, h);
    assert(hist2.contains(h));
}

/// Rebuilding a full node keeps what its edge finds and the paths it
/// accounts for, and brings the insertion closer to an end.
proof fn lemma_replace(orig: Edge, before: Node, smo: Smo, e2: Edge, pre: Seq<u8>, hist: Set<Seq<u8>>)
    requires
        orig.wf(),
        orig.paths_ok(pre, hist),
        orig.child == Child::Node(Box::new(before)),
        before.is_full(),
        e2.wf(),
        smo == Smo::DeleteNode ==> e2.is_empty() && forall|b: u8| !holds(#[trigger] before.child(b)),
        smo == Smo::CompressEdge ==> exists|b0: u8|
            #![trigger before.child(b0)]
            {
                &&& before.child(b0) matches Some(c0)
                &&& !(c0.child is Null)
                &&& e2.key() == orig.meta.key_view().push(b0) + c0.key()
                &&& e2.child == c0.child
                &&& forall|b: u8| b != b0 ==> !holds(#[trigger] before.child(b))
            },
        smo == Smo::ReplaceNode ==> {
            &&& e2.meta == orig.meta
            &&& e2.child matches Child::Node(n2)
            &&& forall|b: u8| holds(#[trigger] n2.child(b)) <==> holds(before.child(b))
            &&& forall|b: u8| holds(#[trigger] before.child(b)) ==> n2.child(b) == before.child(b)
            &&& (n2.node_kind() == Kind::Node256 || n2.dense())
        },
        before.is_full() && before.dense() ==> smo == Smo::ReplaceNode && (e2.child matches Child::Node(
            n2,
        ) && !n2.is_full()),
    ensures
        forall|k: Seq<u8>| #[trigger] e2.lookup(k) == orig.lookup(k),
        smo != Smo::DeleteNode ==> e2.paths_ok(pre, hist),
        smo == Smo::CompressEdge ==> e2.key().len() > orig.key().len(),
        smo == Smo::ReplaceNode ==> e2.key() == orig.key() && rank(e2) < rank(orig),
{
    let p = orig.key();
    let full = pre + p;
    before.lemma_shape();
    if smo == Smo::DeleteNode {
        assert forall|k: Seq<u8>| #[trigger] e2.lookup(k) == orig.lookup(k) by {
            e2.lemma_lookup_null(k);
            if p.len() <= k.len() && k.take(p.len() as int) == p && k.len() > p.len() {
                let x = k[p.len() as int];
                if let Some(e) = before.child(x) {
                    e.lemma_lookup_null(k.skip((p.len() + 1) as int));
                }
            }
        }
    } else if smo == Smo::CompressEdge {
        let b0 = choose|b0: u8|
            #![trigger before.child(b0)]
            {
                &&& before.child(b0) matches Some(c0)
                &&& !(c0.child is Null)
                &&& e2.key() == orig.meta.key_view().push(b0) + c0.key()
                &&& e2.child == c0.child
                &&& forall|b: u8| b != b0 ==> !holds(#[trigger] before.child(b))
            };
        let c0 = before.child(b0)->0;
        let q = p.push(b0);
        assert forall|k: Seq<u8>| #[trigger] e2.lookup(k) == orig.lookup(k) by {
            Edge::lemma_lookup_shift(c0, e2, q, k);
            if p.len() <= k.len() && k.take(p.len() as int) == p && k.len() > p.len() {
                let x = k[p.len() as int];
                let tail = k.skip((p.len() + 1) as int);
                if x == b0 {
                    assert(is_prefix(q, k)) by {
                        assert(k.take(q.len() as int) =~= q);
                    }
                    assert(k.skip(q.len() as int) =~= tail);
                } else {
                    if let Some(e) = before.child(x) {
                        e.lemma_lookup_null(tail);
                    }
                    assert(!is_prefix(q, k)) by {
                        if is_prefix(q, k) {
                            assert(k.take(q.len() as int)[p.len() as int] == q[p.len() as int]);
                        }
                    }
                }
            } else {
                assert(!is_prefix(q, k)) by {
                    if is_prefix(q, k) {
                        assert(k.take(p.len() as int) =~= p) by {
                            assert forall|j: int| 0 <= j < p.len() implies k[j] == p[j] by {
                                assert(k.take(q.len() as int)[j] == q[j]);
                            }
                        }
                    }
                }
            }
        }
        let j = before.slot(b0)->0;
        assert(before.edges@[j as int] == c0);
        assert(c0.paths_ok(full.push(b0), hist));
        assert(full.push(b0) + c0.key() =~= pre + e2.key());
    } else {
        let n2 = e2.child->Node_0;
        n2.lemma_shape();
        assert forall|k: Seq<u8>| #[trigger] e2.lookup(k) == orig.lookup(k) by {
            if p.len() <= k.len() && k.take(p.len() as int) == p && k.len() > p.len() {
                let x = k[p.len() as int];
                let tail = k.skip((p.len() + 1) as int);
                if !holds(before.child(x)) {
                    if let Some(e) = before.child(x) {
                        e.lemma_lookup_null(tail);
                    }
                    if let Some(e) = n2.child(x) {
                        e.lemma_lookup_null(tail);
                    }
                }
            }
        }
        assert forall|j: int, b: u8|
            0 <= j < n2.edges@.len() && #[trigger] n2.slot(b) == Some(j as nat) implies (
            #[trigger] n2.edges@[j]).paths_ok(full.push(b), hist) by {
            assert(n2.child(b) == Some(n2.edges@[j]));
            if holds(before.child(b)) {
                let jj = before.slot(b)->0;
                assert(before.edges@[jj as int] == n2.edges@[j]);
            }
        }
    }
}

/// Insert under `reader` into an edge whose key `reader` does not start
/// with: the edge is split where the two part, under a new node that holds
/// both the old edge's remainder and a fresh path to `value`.
fn split(edge: Edge, reader: Reader, value: u64, Ghost(pre): Ghost<Seq<u8>>, Ghost(hist): Ghost<
    Set<Seq<u8>>,
>) -> (r: Edge)
    requires
        edge.wf(),
        edge.paths_ok(pre, hist),
        compatible(pre + reader@, hist),
        !is_prefix(edge.key(), reader@),
    ensures
        r.wf(),
        !(r.child is Null),
        r.paths_ok(pre, hist.insert(pre + reader@)),
        forall|k: Seq<u8>| #[trigger] r.lookup(k) == (if k == reader@ {
            Some(value)
        } else {
            edge.lookup(k)
        }),
        edge.lookup(reader@) is None,
{
    let ghost hist2 = hist.insert(pre + reader@);
    let ghost whole = reader@;
    let ghost p = edge.key();
    proof {
        edge.meta.lemma_wf_len();
    }
    let mut rd = reader;
    let (key, _) = rd.match_inexact(edge.meta);
    let Edge { meta, child } = edge;
    proof {
        key.lemma_wf_len();
        lemma_common_len_props(p, key.key_view());
        // A key that stops inside this edge would be a proper prefix of a
        // stored key.
        assert(!(child is Null));
        if whole.len() < p.len() && p.take(whole.len() as int) == whole {
            let full = pre + p;
            assert(is_proper_prefix(pre + whole, full)) by {
                assert(full.take((pre + whole).len() as int) =~= pre + whole);
            }
            if child is Value {
                assert(hist.contains(full));
            } else {
                let h = choose|h: Seq<u8>| hist.contains(h) && is_proper_prefix(full, h);
                assert(is_proper_prefix(pre + whole, h)) by {
                    assert(h.take((pre + whole).len() as int) =~= full.take(
                        (pre + whole).len() as int,
                    ));
                }
            }
            assert(false);
        }
    }
    match meta.expand(key) {
        Err(()) => {
            proof {
                assert(false);
            }
            Edge::empty()
        },
        Ok((start, middle, end)) => {
            let ghost c = common_len(p, key.key_view());
            let c_len = start.bytes();
            proof {
                start.lemma_wf_len();
                end.lemma_wf_len();
                assert(key.key_view().len() <= whole.len());
                assert(c_len == c);
            }
            let mut tail = reader.suffix(Len::new(c_len));
            let byte = match tail.next() {
                Some(b) => b,
                None => {
                    proof {
                        assert(whole.len() == c);
                        assert(p.take(whole.len() as int) =~= whole);
                    }
                    return Edge::empty();
                },
            };
            let ghost sp = start.key_view();
            proof {
                assert(whole.len() > c);
                assert(byte == whole[c as int]);
                assert(sp =~= whole.take(c as int));
                assert(byte != middle);
                assert(whole =~= sp.push(byte) + tail@);
                assert(p =~= sp.push(middle) + end.key_view());
            }
            let path = Edge::new_path(tail, value, Ghost(pre + sp.push(byte)), Ghost(hist2));
            let old = Edge { meta: end, child };
            let mut keys: Vec<u8> = Vec::new();
            let mut edges: Vec<Edge> = Vec::new();
            if byte < middle {
                keys.push(byte);
                keys.push(middle);
                edges.push(path);
                edges.push(old);
            } else {
                keys.push(middle);
                keys.push(byte);
                edges.push(old);
                edges.push(path);
            }
            proof {
                assert(increasing(keys@));
                assert(old.wf());
            }
            let ghost ks = keys@;
            let ghost es = edges@;
            let node = Node::from_children(Kind::Node3, keys, edges);
            let r = Edge { meta: start, child: Child::Node(Box::new(node)) };
            proof {
                assert(node.child(ks[0]) == Some(es[0]));
                assert(node.child(ks[1]) == Some(es[1]));
                assert forall|b: u8| b != byte && b != middle implies !holds(
                    #[trigger] node.child(b),
                ) by {
                    if holds(node.child(b)) {
                        assert(ks.contains(b));
                    }
                }
                lemma_split_lookup(edge, r, old, path, sp, byte, middle, tail@, value);
                assert(sp.push(byte) + tail@ == whole);
                assert(edge.lookup(whole) is None) by {
                    Edge::lemma_lookup_shift(old, edge, sp.push(middle), whole);
                    assert(!is_prefix(sp.push(middle), whole)) by {
                        assert(whole[c as int] == byte);
                    }
                }
                assert((pre + sp.push(byte)) + tail@ =~= pre + whole);
                assert((pre + sp).push(byte) =~= pre + sp.push(byte));
                edge.lemma_paths_mono(pre, hist, hist2);
                lemma_split_paths(edge, r, old, path, pre, sp, byte, middle, tail@, hist2);
            }
            r
        },
    }
}

/// What the split edge finds: the new key's value, and otherwise what the
/// old edge found.
proof fn lemma_split_lookup(
    edge: Edge,
    r: Edge,
    old: Edge,
    path: Edge,
    sp: Seq<u8>,
    byte: u8,
    middle: u8,
    tail: Seq<u8>,
    value: u64,
)
    requires
        r.key() == sp,
        r.child matches Child::Node(node) && {
            &&& node.child(byte) == Some(path)
            &&& node.child(middle) == Some(old)
            &&& forall|b: u8| b != byte && b != middle ==> !holds(#[trigger] node.child(b))
        },
        byte != middle,
        old.child == edge.child,
        edge.key() == sp.push(middle) + old.key(),
        forall|k: Seq<u8>| #[trigger] path.lookup(k) == (if k == tail {
            Some(value)
        } else {
            None
        }),
    ensures
        forall|k: Seq<u8>| #[trigger] r.lookup(k) == (if k == sp.push(byte) + tail {
            Some(value)
        } else {
            edge.lookup(k)
        }),
{
    let whole = sp.push(byte) + tail;
    let q = sp.push(middle);
    let c = sp.len();
    let node = r.child->Node_0;
    assert forall|k: Seq<u8>| #[trigger] r.lookup(k) == (if k == whole {
        Some(value)
    } else {
        edge.lookup(k)
    }) by {
        Edge::lemma_lookup_shift(old, edge, q, k);
        if c <= k.len() && k.take(c as int) == sp && k.len() > c {
            let x = k[c as int];
            let rest = k.skip((c + 1) as int);
            if x == byte {
                assert(r.lookup(k) == path.lookup(rest));
                if k == whole {
                    assert(rest =~= tail);
                } else if rest == tail {
                    assert(k =~= whole);
                }
                assert(!is_prefix(q, k)) by {
                    if is_prefix(q, k) {
                        assert(k.take(q.len() as int)[c as int] == q[c as int]);
                    }
                }
            } else if x == middle {
                assert(r.lookup(k) == old.lookup(rest));
                assert(is_prefix(q, k)) by {
                    assert(k.take(q.len() as int) =~= q);
                }
                assert(k != whole) by {
                    if k == whole {
                        assert(whole[c as int] == byte);
                    }
                }
            } else {
                if let Some(e) = node.child(x) {
                    e.lemma_lookup_null(rest);
                }
                assert(!is_prefix(q, k)) by {
                    if is_prefix(q, k) {
                        assert(k.take(q.len() as int)[c as int] == q[c as int]);
                    }
                }
                assert(k != whole) by {
                    if k == whole {
                        assert(whole[c as int] == byte);
                    }
                }
            }
        } else {
            assert(!is_prefix(q, k)) by {
                if is_prefix(q, k) {
                    assert(k.take(c as int) =~= sp);
                }
            }
            assert(k != whole) by {
                if k == whole {
                    assert(k.take(c as int) =~= sp);
                }
            }
        }
    }
}

/// The split edge accounts for its paths once the new key is in `hist`.
proof fn lemma_split_paths(
    edge: Edge,
    r: Edge,
    old: Edge,
    path: Edge,
    pre: Seq<u8>,
    sp: Seq<u8>,
    byte: u8,
    middle: u8,
    tail: Seq<u8>,
    hist: Set<Seq<u8>>,
)
    requires
        r.key() == sp,
        r.child matches Child::Node(node) && {
            &&& node.child(byte) == Some(path)
            &&& node.child(middle) == Some(old)
            &&& forall|b: u8| b != byte && b != middle ==> !holds(#[trigger] node.child(b))
        },
        old.child == edge.child,
        edge.key() == sp.push(middle) + old.key(),
        edge.paths_ok(pre, hist),
        hist.contains(pre + sp.push(byte) + tail),
        path.paths_ok(pre + sp.push(byte), hist),
    ensures
        r.paths_ok(pre, hist),
{
    let node = r.child->Node_0;
    let full = pre + sp;
    assert(is_proper_prefix(full, pre + sp.push(byte) + tail)) by {
        assert((pre + sp.push(byte) + tail).take(full.len() as int) =~= full);
    }
    assert(full.push(middle) + old.key() =~= pre + edge.key());
    assert(old.paths_ok(full.push(middle), hist));
    assert forall|i: int, b: u8|
        0 <= i < node.edges@.len() && #[trigger] node.slot(b) == Some(i as nat) implies (
        #[trigger] node.edges@[i]).paths_ok(full.push(b), hist) by {
        assert(node.child(b) == Some(node.edges@[i]));
        if b == byte {
            assert(full.push(b) =~= pre + sp.push(byte));
        }
    }
}

} // verus!
