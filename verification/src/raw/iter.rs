//! Listing the entries below an edge in key order, within bounds.
use vstd::prelude::*;
use crate::bytes::common_len;
use crate::bytes::is_prefix;
use crate::bytes::lemma_common_len;
use crate::bytes::lemma_lex_lt_branch;
use crate::bytes::lex_le;
use crate::bytes::lex_lt;
use crate::raw::edge::Child;
use crate::raw::edge::Edge;
use crate::raw::node::holds;

verus! {

/// The value stored under the absolute key `k` below `edge`, whose path
/// starts after `pre`.
pub open spec fn find(edge: Edge, pre: Seq<u8>, k: Seq<u8>) -> Option<u64> {
    if is_prefix(pre, k) {
        edge.lookup(k.skip(pre.len() as int))
    } else {
        None
    }
}

/// Which keys a listing keeps: those between the bounds that are present,
/// and that start with the prefix when there is one.
pub struct Filter<'a> {
    pub lower: Option<&'a [u8]>,
    pub upper: Option<&'a [u8]>,
    pub prefix: Option<&'a [u8]>,
}

/// A bound that includes the key it holds.
#[derive(Clone, Copy)]
pub struct Include<T>(pub T);

/// No bound on that side.
#[derive(Clone, Copy)]
pub struct Unbound;

impl<'a> Filter<'a> {
    pub open spec fn range_inclusive_spec(lower: &'a [u8], upper: &'a [u8]) -> Filter<'a> {
        Filter { lower: Some(lower), upper: Some(upper), prefix: None }
    }

    pub open spec fn with_prefix_spec(prefix: &'a [u8]) -> Filter<'a> {
        Filter { lower: None, upper: None, prefix: Some(prefix) }
    }

    pub open spec fn full_spec() -> Filter<'a> {
        Filter { lower: None, upper: None, prefix: None }
    }

    /// The keys from `lower` to `upper`, both included.
    pub fn range_inclusive(lower: Include<&'a [u8]>, upper: Include<&'a [u8]>) -> (r: Filter<'a>)
        ensures
            r.lower == Some(lower.0),
            r.upper == Some(upper.0),
            r.prefix is None,
    {
        Filter { lower: Some(lower.0), upper: Some(upper.0), prefix: None }
    }

    /// The keys from `lower` on.
    pub fn range_from(lower: Include<&'a [u8]>, upper: Unbound) -> (r: Filter<'a>)
        ensures
            r.lower == Some(lower.0),
            r.upper is None,
            r.prefix is None,
    {
        Filter { lower: Some(lower.0), upper: None, prefix: None }
    }

    /// The keys up to `upper`, included.
    pub fn range_to_inclusive(lower: Unbound, upper: Include<&'a [u8]>) -> (r: Filter<'a>)
        ensures
            r.lower is None,
            r.upper == Some(upper.0),
            r.prefix is None,
    {
        Filter { lower: None, upper: Some(upper.0), prefix: None }
    }

    /// Every key.
    pub fn range_full(lower: Unbound, upper: Unbound) -> (r: Filter<'a>)
        ensures
            r.lower is None,
            r.upper is None,
            r.prefix is None,
    {
        Filter { lower: None, upper: None, prefix: None }
    }

    /// The keys that start with `prefix`.
    pub fn with_prefix(prefix: &'a [u8]) -> (r: Filter<'a>)
        ensures
            r.lower is None,
            r.upper is None,
            r.prefix == Some(prefix),
    {
        Filter { lower: None, upper: None, prefix: Some(prefix) }
    }

    pub open spec fn admits(&self, k: Seq<u8>) -> bool {
        &&& (self.lower matches Some(l) ==> lex_le(l@, k))
        &&& (self.upper matches Some(u) ==> lex_le(k, u@))
        &&& (self.prefix matches Some(p) ==> is_prefix(p@, k))
    }

    /// Whether `k` passes the filter.
    pub fn check(&self, k: &[u8]) -> (r: bool)
        ensures
            r == self.admits(k@),
    {
        let lower_ok = match self.lower {
            Some(l) => lex_le_bytes(l, k),
            None => true,
        };
        let upper_ok = match self.upper {
            Some(u) => lex_le_bytes(k, u),
            None => true,
        };
        let prefix_ok = match self.prefix {
            Some(p) => starts_with(k, p),
            None => true,
        };
        lower_ok && upper_ok && prefix_ok
    }
}

/// `a` sorts before `b` or equals it.
pub fn lex_le_bytes(a: &[u8], b: &[u8]) -> (r: bool)
    ensures
        r == lex_le(a@, b@),
{
    let mut i: usize = 0;
    while i < a.len() && i < b.len() && a[i] == b[i]
        invariant
            i <= a@.len(),
            i <= b@.len(),
            forall|j: int| 0 <= j < i ==> a@[j] == b@[j],
        decreases a@.len() - i,
    {
        i += 1;
    }
    proof {
        lemma_common_len(a@, b@, i as nat);
    }
    if i == a.len() {
        proof {
            if i == b.len() {
                assert(a@ =~= b@);
            }
        }
        true
    } else if i == b.len() {
        proof {
            assert(a@ != b@) by {
                assert(a@.len() != b@.len());
            }
        }
        false
    } else {
        proof {
            assert(a@ != b@) by {
                assert(a@[i as int] != b@[i as int]);
            }
        }
        a[i] < b[i]
    }
}

/// `s` starts with `p`.
pub fn starts_with(s: &[u8], p: &[u8]) -> (r: bool)
    ensures
        r == is_prefix(p@, s@),
{
    if p.len() > s.len() {
        return false;
    }
    let mut i: usize = 0;
    while i < p.len()
        invariant
            p@.len() <= s@.len(),
            i <= p@.len(),
            forall|j: int| 0 <= j < i ==> s@[j] == p@[j],
        decreases p@.len() - i,
    {
        if s[i] != p[i] {
            proof {
                assert(s@.take(p@.len() as int)[i as int] == s@[i as int]);
            }
            return false;
        }
        i += 1;
    }
    proof {
        assert(s@.take(p@.len() as int) =~= p@);
    }
    true
}

/// Length of the longest common prefix of `a` and `b`.
pub fn common_prefix_len(a: &[u8], b: &[u8]) -> (r: usize)
    ensures
        r == common_len(a@, b@),
{
    let mut i: usize = 0;
    while i < a.len() && i < b.len() && a[i] == b[i]
        invariant
            i <= a@.len(),
            i <= b@.len(),
            forall|j: int| 0 <= j < i ==> a@[j] == b@[j],
        decreases a@.len() - i,
    {
        i += 1;
    }
    proof {
        lemma_common_len(a@, b@, i as nat);
    }
    i
}

/// A key below `full` that agrees with it: `full` is a prefix of `k` and
/// `k` goes on after it.
pub open spec fn below(full: Seq<u8>, k: Seq<u8>) -> bool {
    is_prefix(full, k) && k.len() > full.len()
}

/// Where `full` and a bound `l` part, every key below `full` is ordered
/// against `l` as `full` is.
proof fn lemma_part(full: Seq<u8>, l: Seq<u8>, k: Seq<u8>)
    requires
        below(full, k),
        common_len(full, l) < full.len(),
        common_len(full, l) < l.len(),
    ensures
        full[common_len(full, l) as int] < l[common_len(full, l) as int] ==> lex_lt(k, l),
        full[common_len(full, l) as int] > l[common_len(full, l) as int] ==> lex_lt(l, k),
        !is_prefix(l, k),
{
    let c = common_len(full, l);
    crate::bytes::lemma_common_len_props(full, l);
    let f = l.take(c as int);
    assert(k.take(c as int) =~= f) by {
        assert forall|j: int| 0 <= j < c implies k[j] == l[j] by {
            assert(k.take(full.len() as int)[j] == full[j]);
        }
    }
    assert(k[c as int] == full[c as int]) by {
        assert(k.take(full.len() as int)[c as int] == full[c as int]);
    }
    assert(l.take(c as int) =~= f);
    if full[c as int] < l[c as int] {
        lemma_lex_lt_branch(f, k, l);
    }
    if full[c as int] > l[c as int] {
        lemma_lex_lt_branch(f, l, k);
    }
    if is_prefix(l, k) {
        assert(k.take(l.len() as int)[c as int] == l[c as int]);
    }
}

/// A bound that is a proper prefix of a key sorts before it.
proof fn lemma_proper_prefix_lt(l: Seq<u8>, k: Seq<u8>)
    requires
        l.len() < k.len(),
        k.take(l.len() as int) == l,
    ensures
        lex_lt(l, k),
{
    assert forall|j: int| 0 <= j < l.len() implies l[j] == k[j] by {
        assert(k.take(l.len() as int)[j] == l[j]);
    }
    lemma_common_len(l, k, l.len());
}

/// Keys below `full` continue with the byte `b` of a bound that `full` is
/// a proper prefix of: those that continue with a smaller byte sort before
/// the bound, those with a larger byte after it, and neither starts with it.
proof fn lemma_branch_bound(full: Seq<u8>, l: Seq<u8>, k: Seq<u8>)
    requires
        below(full, k),
        full.len() < l.len(),
        l.take(full.len() as int) == full,
    ensures
        k[full.len() as int] < l[full.len() as int] ==> lex_lt(k, l),
        k[full.len() as int] > l[full.len() as int] ==> lex_lt(l, k),
        k[full.len() as int] != l[full.len() as int] ==> !is_prefix(l, k),
{
    assert(k.take(full.len() as int) =~= full);
    if k[full.len() as int] < l[full.len() as int] {
        lemma_lex_lt_branch(full, k, l);
    }
    if k[full.len() as int] > l[full.len() as int] {
        lemma_lex_lt_branch(full, l, k);
    }
    if is_prefix(l, k) && k[full.len() as int] != l[full.len() as int] {
        assert(k.take(l.len() as int)[full.len() as int] == l[full.len() as int]);
    }
}

/// The bytes that keys below `full` admitted by `f` can continue with:
/// `None` when there are none, else an inclusive range of bytes.
pub fn node_bounds(full: &[u8], f: &Filter) -> (r: Option<(u8, u8)>)
    ensures
        r is None ==> forall|k: Seq<u8>| below(full@, k) ==> !f.admits(k),
        r matches Some((lo, hi)) ==> lo <= hi && forall|k: Seq<u8>|
            below(full@, k) && f.admits(k) ==> lo <= #[trigger] k[full@.len() as int] <= hi,
{
    let mut lo: u8 = 0;
    let mut hi: u8 = 255;
    let n = full.len();
    if let Some(l) = f.lower {
        let c = common_prefix_len(full, l);
        proof {
            crate::bytes::lemma_common_len_props(full@, l@);
        }
        if c == n {
            if c < l.len() {
                lo = l[c];
                proof {
                    assert(l@.take(n as int) =~= full@);
                    assert forall|k: Seq<u8>| below(full@, k) && f.admits(k) implies lo <= k[n as int] by {
                        lemma_branch_bound(full@, l@, k);
                        crate::bytes::lemma_lex_lt_total(k, l@);
                    }
                }
            }
        } else if c < l.len() && full[c] < l[c] {
            proof {
                assert forall|k: Seq<u8>| below(full@, k) implies !f.admits(k) by {
                    lemma_part(full@, l@, k);
                    crate::bytes::lemma_lex_lt_total(k, l@);
                }
            }
            return None;
        }
    }
    if let Some(u) = f.upper {
        let c = common_prefix_len(full, u);
        proof {
            crate::bytes::lemma_common_len_props(full@, u@);
        }
        if c == n {
            if c < u.len() {
                hi = u[c];
                proof {
                    assert(u@.take(n as int) =~= full@);
                    assert forall|k: Seq<u8>| below(full@, k) && f.admits(k) implies k[n as int] <= hi by {
                        lemma_branch_bound(full@, u@, k);
                        crate::bytes::lemma_lex_lt_total(k, u@);
                    }
                }
            } else {
                proof {
                    assert forall|k: Seq<u8>| below(full@, k) implies !f.admits(k) by {
                        assert(k.take(u@.len() as int) =~= u@) by {
                            assert(full@ =~= u@);
                        }
                        lemma_proper_prefix_lt(u@, k);
                        crate::bytes::lemma_lex_lt_total(k, u@);
                    }
                }
                return None;
            }
        } else if c == u.len() {
            proof {
                assert forall|k: Seq<u8>| below(full@, k) implies !f.admits(k) by {
                    assert(k.take(u@.len() as int) =~= u@) by {
                        assert forall|j: int| 0 <= j < u@.len() implies k[j] == u@[j] by {
                            assert(k.take(full@.len() as int)[j] == full@[j]);
                        }
                    }
                    lemma_proper_prefix_lt(u@, k);
                    crate::bytes::lemma_lex_lt_total(k, u@);
                }
            }
            return None;
        } else if full[c] > u[c] {
            proof {
                assert forall|k: Seq<u8>| below(full@, k) implies !f.admits(k) by {
                    lemma_part(full@, u@, k);
                    crate::bytes::lemma_lex_lt_total(k, u@);
                }
            }
            return None;
        }
    }
    if let Some(p) = f.prefix {
        let c = common_prefix_len(full, p);
        proof {
            crate::bytes::lemma_common_len_props(full@, p@);
        }
        if c == n {
            if c < p.len() {
                let b = p[c];
                proof {
                    assert(p@.take(n as int) =~= full@);
                    assert forall|k: Seq<u8>| below(full@, k) && f.admits(k) implies k[n as int]
                        == b by {
                        lemma_branch_bound(full@, p@, k);
                    }
                }
                if b < lo || b > hi {
                    return None;
                }
                lo = b;
                hi = b;
            }
        } else if c < p.len() {
            proof {
                assert forall|k: Seq<u8>| below(full@, k) implies !f.admits(k) by {
                    lemma_part(full@, p@, k);
                }
            }
            return None;
        }
    }
    if lo > hi {
        return None;
    }
    Some((lo, hi))
}

/// A run of entries in strictly increasing key order.
pub open spec fn sorted(s: Seq<(Vec<u8>, u64)>) -> bool {
    forall|i: int, j: int| 0 <= i < j < s.len() ==> lex_lt(s[i].0@, s[j].0@)
}

/// `s` lists, in key order, exactly the entries below `edge` (whose path
/// starts after `pre`) that `f` admits.
pub open spec fn lists(s: Seq<(Vec<u8>, u64)>, edge: Edge, pre: Seq<u8>, f: Filter) -> bool {
    &&& sorted(s)
    &&& forall|j: int|
        0 <= j < s.len() ==> f.admits((#[trigger] s[j]).0@) && find(edge, pre, s[j].0@) == Some(
            s[j].1,
        )
    &&& forall|k: Seq<u8>|
        f.admits(k) && #[trigger] find(edge, pre, k) is Some ==> exists|j: int|
            0 <= j < s.len() && (#[trigger] s[j]).0@ == k
}

/// What the child under `b` finds is what its parent finds among the keys
/// that go through `b`.
pub proof fn lemma_find_child(edge: Edge, pre: Seq<u8>, b: u8, k: Seq<u8>)
    requires
        edge.child matches Child::Node(n) && n.child(b) is Some,
    ensures
        ({
            let fb = (pre + edge.key()).push(b);
            let n = edge.child->Node_0;
            find(n.child(b)->0, fb, k) == (if is_prefix(fb, k) {
                find(edge, pre, k)
            } else {
                None
            })
        }),
{
    let p = edge.key();
    let fb = (pre + p).push(b);
    if is_prefix(fb, k) {
        assert(is_prefix(pre, k)) by {
            assert(k.take(pre.len() as int) =~= fb.take(pre.len() as int));
        }
        let k1 = k.skip(pre.len() as int);
        assert(k1.take(p.len() as int) =~= p) by {
            assert forall|j: int| 0 <= j < p.len() implies k1[j] == p[j] by {
                assert(k.take(fb.len() as int)[pre.len() + j] == fb[pre.len() + j]);
            }
        }
        assert(k1[p.len() as int] == b) by {
            assert(k.take(fb.len() as int)[(pre.len() + p.len()) as int] == fb[(pre.len() + p.len()) as int]);
        }
        assert(k1.skip((p.len() + 1) as int) =~= k.skip(fb.len() as int));
    }
}

/// Append to `out`, in key order, the entries below `edge` that `f` admits.
/// `path` holds the bytes before the edge, and holds them again on return.
pub fn collect(edge: &Edge, path: &mut Vec<u8>, f: &Filter, out: &mut Vec<(Vec<u8>, u64)>)
    requires
        edge.wf(),
    ensures
        final(path)@ == old(path)@,
        final(out)@.len() >= old(out)@.len(),
        final(out)@.take(old(out)@.len() as int) == old(out)@,
        lists(final(out)@.skip(old(out)@.len() as int), *edge, old(path)@, *f),
    decreases edge,
{
    let ghost pre = path@;
    let ghost old_out = out@;
    let ghost p = edge.key();
    proof {
        edge.meta.lemma_wf_len();
    }
    let base = path.len();
    let key = edge.meta.to_vec();
    path.extend_from_slice(key.as_slice());
    proof {
        assert(path@ =~= pre + p);
    }
    let ghost full = pre + p;
    match &edge.child {
        Child::Null => {
            proof {
                assert forall|k: Seq<u8>| #[trigger] find(*edge, pre, k) is None by {
                    edge.lemma_lookup_null(k.skip(pre.len() as int));
                }
            }
        },
        Child::Value(v) => {
            if f.check(path.as_slice()) {
                let mut k: Vec<u8> = Vec::new();
                k.extend_from_slice(path.as_slice());
                proof {
                    assert(k@ =~= full);
                }
                out.push((k, *v));
            }
            proof {
                let seg = out@.skip(old_out.len() as int);
                assert(edge.child == Child::Value(*v));
                assert forall|k: Seq<u8>| #[trigger] find(*edge, pre, k) == (if k == full {
                    Some(*v)
                } else {
                    None
                }) by {
                    if is_prefix(pre, k) {
                        let k1 = k.skip(pre.len() as int);
                        assert(find(*edge, pre, k) == edge.lookup(k1));
                        if p.len() <= k1.len() && k1.take(p.len() as int) == p && k1.len() == p.len() {
                            assert(k =~= full) by {
                                assert(k1 =~= p);
                                assert(k =~= k.take(pre.len() as int) + k1);
                            }
                            assert(edge.lookup(k1) == Some(*v));
                        } else {
                            assert(edge.lookup(k1) is None);
                            assert(k != full) by {
                                if k == full {
                                    assert(k1 =~= p);
                                    assert(k1.take(p.len() as int) =~= p);
                                }
                            }
                        }
                    } else {
                        assert(k != full) by {
                            if k == full {
                                assert(k.take(pre.len() as int) =~= pre);
                            }
                        }
                    }
                }
                if seg.len() == 1 {
                    assert(seg[0].0@ == full);
                }
            }
        },
        Child::Node(n) => {
            let bounds = node_bounds(path.as_slice(), f);
            let (lo, hi) = match bounds {
                Some(b) => b,
                None => (1u8, 0u8),
            };
            let entries = n.entries(lo, hi);
            let mut t: usize = 0;
            let ghost mut acc: Seq<(Vec<u8>, u64)> = Seq::empty();
            while t < entries.len()
                invariant
                    edge.wf(),
                    edge.child == Child::Node(*n),
                    n.shape_wf(),
                    forall|i: int| 0 <= i < n.edges@.len() ==> (#[trigger] n.edges@[i]).wf(),
                    p == edge.key(),
                    full == pre + p,
                    path@ == full,
                    t <= entries@.len(),
                    out@ == old_out + acc,
                    forall|j: int, m: int|
                        0 <= j < m < entries@.len() ==> entries@[j].key < entries@[m].key,
                    forall|j: int|
                        0 <= j < entries@.len() ==> n.slot((#[trigger] entries@[j]).key) == Some(
                            entries@[j].index as nat,
                        ),
                    sorted(acc),
                    forall|j: int|
                        0 <= j < acc.len() ==> {
                            let key = (#[trigger] acc[j]).0@;
                            &&& f.admits(key)
                            &&& find(*edge, pre, key) == Some(acc[j].1)
                            &&& key.len() > full.len()
                            &&& key.take(full.len() as int) == full
                            &&& t > 0 && key[full.len() as int] <= entries@[t - 1].key
                        },
                    forall|k: Seq<u8>|
                        f.admits(k) && #[trigger] find(*edge, pre, k) is Some && (exists|t2: int|
                            0 <= t2 < t && is_prefix(full.push((#[trigger] entries@[t2]).key), k))
                            ==> exists|j: int| 0 <= j < acc.len() && (#[trigger] acc[j]).0@ == k,
                decreases entries@.len() - t,
            {
                let e = entries[t];
                let ghost before = out@;
                proof {
                    n.lemma_shape();
                }
                path.push(e.key);
                let child = &n.edges[e.index as usize];
                proof {
                    assert(n.child(e.key) == Some(*child));
                }
                collect(child, path, f, out);
                path.pop();
                proof {
                    let fb = full.push(e.key);
                    let seg = out@.skip(before.len() as int);
                    assert(out@ =~= before + seg) by {
                        assert(out@.take(before.len() as int) == before);
                    }
                    assert forall|k: Seq<u8>| #[trigger] find(*child, fb, k) == (if is_prefix(fb, k) {
                        find(*edge, pre, k)
                    } else {
                        None
                    }) by {
                        lemma_find_child(*edge, pre, e.key, k);
                        let nn = edge.child->Node_0;
                        assert(nn == *n);
                        assert(nn.child(e.key)->0 == *child);
                        assert((pre + edge.key()).push(e.key) == fb);
                    }
                    let acc2 = acc + seg;
                    assert forall|j: int| 0 <= j < seg.len() implies {
                        let key = (#[trigger] seg[j]).0@;
                        &&& key.len() > full.len()
                        &&& key.take(full.len() as int) == full
                        &&& key[full.len() as int] == e.key
                    } by {
                        let key = seg[j].0@;
                        assert(is_prefix(fb, key));
                        assert(key.take(full.len() as int) =~= fb.take(full.len() as int));
                        assert(key.take(fb.len() as int)[full.len() as int] == fb[full.len() as int]);
                    }
                    assert forall|i: int, j: int| 0 <= i < j < acc2.len() implies lex_lt(
                        acc2[i].0@,
                        acc2[j].0@,
                    ) by {
                        if j < acc.len() {
                        } else if i >= acc.len() {
                            assert(acc2[i] == seg[i - acc.len()]);
                            assert(acc2[j] == seg[j - acc.len()]);
                        } else {
                            assert(acc2[i] == acc[i]);
                            assert(acc2[j] == seg[j - acc.len()]);
                            lemma_lex_lt_branch(full, acc2[i].0@, acc2[j].0@);
                        }
                    }
                    assert forall|k: Seq<u8>|
                        f.admits(k) && #[trigger] find(*edge, pre, k) is Some && (exists|t2: int|
                            0 <= t2 < t + 1 && is_prefix(full.push((#[trigger] entries@[t2]).key), k))
                            implies exists|j: int| 0 <= j < acc2.len() && (#[trigger] acc2[j]).0@ == k by {
                        let t2 = choose|t2: int|
                            0 <= t2 < t + 1 && is_prefix(full.push((#[trigger] entries@[t2]).key), k);
                        if t2 < t {
                            let j = choose|j: int| 0 <= j < acc.len() && (#[trigger] acc[j]).0@ == k;
                            assert(acc2[j] == acc[j]);
                        } else {
                            assert(find(*child, fb, k) is Some);
                            let j = choose|j: int| 0 <= j < seg.len() && (#[trigger] seg[j]).0@ == k;
                            assert(acc2[acc.len() + j] == seg[j]);
                        }
                    }
                    acc = acc2;
                }
                t += 1;
            }
            proof {
                n.lemma_shape();
                assert(out@.skip(old_out.len() as int) =~= acc);
                assert forall|k: Seq<u8>| f.admits(k) && #[trigger] find(*edge, pre, k) is Some implies exists|
                    j: int,
                | 0 <= j < acc.len() && (#[trigger] acc[j]).0@ == k by {
                    let k1 = k.skip(pre.len() as int);
                    let x = k1[p.len() as int];
                    assert(n.slot(x) is Some);
                    assert(below(full, k)) by {
                        assert(k =~= k.take(pre.len() as int) + k1);
                        assert(k.take(full.len() as int) =~= full);
                    }
                    assert(k[full.len() as int] == x) by {
                        assert(k =~= k.take(pre.len() as int) + k1);
                    }
                    assert(lo <= x <= hi);
                    let t2 = choose|t2: int| 0 <= t2 < entries@.len() && entries@[t2].key == x;
                    assert(is_prefix(full.push(entries@[t2].key), k)) by {
                        assert(k.take((full.len() + 1) as int) =~= full.push(x)) by {
                            assert(k =~= k.take(pre.len() as int) + k1);
                        }
                    }
                }
            }
        },
    }
    path.truncate(base);
    proof {
        assert(path@ =~= pre);
        assert(out@.take(old_out.len() as int) =~= old_out);
    }
}

/// A filter with only a lower bound admits exactly the keys equal to the
/// bound or after it; the bound itself is admitted.
pub proof fn lemma_lower_bound_admits(l: &[u8], k: Seq<u8>)
    ensures
        (Filter { lower: Some(l), upper: None, prefix: None }).admits(k) <==> (k == l@ || lex_lt(
            l@,
            k,
        )),
        (Filter { lower: Some(l), upper: None, prefix: None }).admits(l@),
{
}

/// A filter with only an upper bound admits exactly the keys equal to the
/// bound or before it; the bound itself is admitted.
pub proof fn lemma_upper_bound_admits(u: &[u8], k: Seq<u8>)
    ensures
        (Filter { lower: None, upper: Some(u), prefix: None }).admits(k) <==> (k == u@ || lex_lt(
            k,
            u@,
        )),
        (Filter { lower: None, upper: Some(u), prefix: None }).admits(u@),
{
}

/// A filter with two bounds admits exactly the keys from the lower bound to
/// the upper one, both included.
pub proof fn lemma_bounds_admit(l: &[u8], u: &[u8], k: Seq<u8>)
    ensures
        (Filter { lower: Some(l), upper: Some(u), prefix: None }).admits(k) <==> ((k == l@ || lex_lt(
            l@,
            k,
        )) && (k == u@ || lex_lt(k, u@))),
{
}

/// A filter with no bound and no prefix admits every key.
pub proof fn lemma_unfiltered_admits(k: Seq<u8>)
    ensures
        (Filter { lower: None, upper: None, prefix: None }).admits(k),
{
}

/// A prefix filter admits exactly the keys whose first bytes are the
/// prefix, the prefix itself among them.
pub proof fn lemma_prefix_admits(p: &[u8], k: Seq<u8>)
    ensures
        (Filter { lower: None, upper: None, prefix: Some(p) }).admits(k) <==> (p@.len() <= k.len()
            && k.subrange(0, p@.len() as int) == p@),
        (Filter { lower: None, upper: None, prefix: Some(p) }).admits(p@),
{
    if p@.len() <= k.len() {
        assert(k.take(p@.len() as int) =~= k.subrange(0, p@.len() as int));
    }
    assert(p@.take(p@.len() as int) =~= p@);
}

} // verus!
