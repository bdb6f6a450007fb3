//! Specification helpers on byte strings: prefixes, lexicographic order and
//! the byte views of packed 64-bit words.
use vstd::prelude::*;
use vstd::bytes::spec_u64_to_le_bytes;

verus! {

/// The eight bytes of `v`, least significant first.
pub open spec fn le8(v: u64) -> Seq<u8> {
    spec_u64_to_le_bytes(v)
}

/// The eight bytes of `v`, most significant first.
pub open spec fn be8(v: u64) -> Seq<u8> {
    le8(v).reverse()
}

/// `p` is a prefix of `s` (possibly equal to it).
pub open spec fn is_prefix(p: Seq<u8>, s: Seq<u8>) -> bool {
    p.len() <= s.len() && s.take(p.len() as int) =~= p
}

/// `p` is a prefix of `s` and strictly shorter.
pub open spec fn is_proper_prefix(p: Seq<u8>, s: Seq<u8>) -> bool {
    p.len() < s.len() && s.take(p.len() as int) =~= p
}

/// Length of the longest common prefix of `a` and `b`.
pub open spec fn common_len(a: Seq<u8>, b: Seq<u8>) -> nat
    decreases a.len(),
{
    if a.len() == 0 || b.len() == 0 || a[0] != b[0] {
        0
    } else {
        1 + common_len(a.skip(1), b.skip(1))
    }
}

/// Lexicographic order on byte strings: a proper prefix sorts first,
/// otherwise the first differing byte decides.
pub open spec fn lex_lt(a: Seq<u8>, b: Seq<u8>) -> bool {
    let c = common_len(a, b);
    ||| c == a.len() && c < b.len()
    ||| c < a.len() && c < b.len() && a[c as int] < b[c as int]
}

pub open spec fn lex_le(a: Seq<u8>, b: Seq<u8>) -> bool {
    a == b || lex_lt(a, b)
}

/// `common_len` does not depend on the order of its arguments.
pub proof fn lemma_common_len_sym(a: Seq<u8>, b: Seq<u8>)
    ensures
        common_len(a, b) == common_len(b, a),
{
    lemma_common_len_props(a, b);
    lemma_common_len(b, a, common_len(a, b));
}

/// No string sorts before itself.
pub proof fn lemma_lex_lt_irreflexive(a: Seq<u8>)
    ensures
        !lex_lt(a, a),
{
    lemma_common_len(a, a, a.len());
}

/// Of two different strings, one sorts before the other, and never both.
pub proof fn lemma_lex_lt_total(a: Seq<u8>, b: Seq<u8>)
    ensures
        a != b ==> lex_lt(a, b) || lex_lt(b, a),
        !(lex_lt(a, b) && lex_lt(b, a)),
{
    lemma_common_len_props(a, b);
    lemma_common_len_sym(a, b);
    let c = common_len(a, b);
    if c == a.len() && c == b.len() {
        assert(a =~= b);
    }
}

/// The order is transitive.
pub proof fn lemma_lex_lt_transitive(a: Seq<u8>, b: Seq<u8>, c: Seq<u8>)
    requires
        lex_lt(a, b),
        lex_lt(b, c),
    ensures
        lex_lt(a, c),
{
    lemma_common_len_props(a, b);
    lemma_common_len_props(b, c);
    let c1 = common_len(a, b);
    let c2 = common_len(b, c);
    if c1 < c2 {
        assert forall|j: int| 0 <= j < c1 implies a[j] == c[j] by {
            assert(a[j] == b[j]);
            assert(b[j] == c[j]);
        }
        if c1 < a.len() {
            assert(b[c1 as int] == c[c1 as int]);
        }
        lemma_common_len(a, c, c1);
    } else if c2 < c1 {
        assert forall|j: int| 0 <= j < c2 implies a[j] == c[j] by {
            assert(a[j] == b[j]);
            assert(b[j] == c[j]);
        }
        assert(a[c2 as int] == b[c2 as int]);
        lemma_common_len(a, c, c2);
    } else {
        assert forall|j: int| 0 <= j < c1 implies a[j] == c[j] by {
            assert(a[j] == b[j]);
            assert(b[j] == c[j]);
        }
        lemma_common_len(a, c, c1);
    }
}

/// Strings in strictly increasing order.
pub open spec fn lex_sorted(s: Seq<Seq<u8>>) -> bool {
    forall|i: int, j: int| 0 <= i < j < s.len() ==> lex_lt(s[i], s[j])
}

/// Two strictly increasing lists of the same strings are equal.
pub proof fn lemma_lex_sorted_unique(a: Seq<Seq<u8>>, b: Seq<Seq<u8>>)
    requires
        lex_sorted(a),
        lex_sorted(b),
        forall|x: Seq<u8>| a.contains(x) <==> b.contains(x),
    ensures
        a == b,
    decreases a.len() + b.len(),
{
    if a.len() == 0 {
        if b.len() > 0 {
            assert(b.contains(b[0]));
        }
        assert(a =~= b);
    } else if b.len() == 0 {
        assert(a.contains(a[0]));
    } else {
        assert(a.contains(a[0]));
        assert(b.contains(b[0]));
        let i = choose|i: int| 0 <= i < b.len() && b[i] == a[0];
        let j = choose|j: int| 0 <= j < a.len() && a[j] == b[0];
        if i > 0 {
            assert(lex_lt(b[0], b[i]));
            if j > 0 {
                assert(lex_lt(a[0], a[j]));
                lemma_lex_lt_total(a[0], b[0]);
            } else {
                lemma_lex_lt_irreflexive(a[0]);
            }
        } else if j > 0 {
            assert(lex_lt(a[0], a[j]));
            lemma_lex_lt_irreflexive(b[0]);
        }
        assert(a[0] == b[0]);
        let a1 = a.skip(1);
        let b1 = b.skip(1);
        assert forall|x: Seq<u8>| a1.contains(x) <==> b1.contains(x) by {
            if a1.contains(x) {
                let k = choose|k: int| 0 <= k < a1.len() && a1[k] == x;
                assert(a[k + 1] == x);
                assert(lex_lt(a[0], a[k + 1]));
                assert(b.contains(x));
                let m = choose|m: int| 0 <= m < b.len() && b[m] == x;
                if m == 0 {
                    lemma_lex_lt_irreflexive(x);
                }
                assert(b1[m - 1] == x);
            }
            if b1.contains(x) {
                let k = choose|k: int| 0 <= k < b1.len() && b1[k] == x;
                assert(b[k + 1] == x);
                assert(lex_lt(b[0], b[k + 1]));
                assert(a.contains(x));
                let m = choose|m: int| 0 <= m < a.len() && a[m] == x;
                if m == 0 {
                    lemma_lex_lt_irreflexive(x);
                }
                assert(a1[m - 1] == x);
            }
        }
        lemma_lex_sorted_unique(a1, b1);
        assert(a =~= b) by {
            assert forall|k: int| 0 <= k < a.len() implies a[k] == b[k] by {
                if k > 0 {
                    assert(a[k] == a1[k - 1]);
                    assert(b[k] == b1[k - 1]);
                }
            }
        }
    }
}

/// Strings that share a prefix `f` and differ in the byte after it are
/// ordered by that byte.
pub proof fn lemma_lex_lt_branch(f: Seq<u8>, a: Seq<u8>, b: Seq<u8>)
    requires
        a.len() > f.len(),
        b.len() > f.len(),
        a.take(f.len() as int) == f,
        b.take(f.len() as int) == f,
        a[f.len() as int] < b[f.len() as int],
    ensures
        lex_lt(a, b),
{
    assert forall|j: int| 0 <= j < f.len() implies a[j] == b[j] by {
        assert(a.take(f.len() as int)[j] == b.take(f.len() as int)[j]);
    }
    lemma_common_len(a, b, f.len());
}

/// Facts about `le8`: it has eight bytes and determines its word.
pub proof fn lemma_le8(v: u64, w: u64)
    ensures
        le8(v).len() == 8,
        le8(v) == le8(w) ==> v == w,
{
    vstd::bytes::lemma_auto_spec_u64_to_from_le_bytes();
}

/// The word built from eight bytes has exactly those bytes.
pub proof fn lemma_le8_from(s: Seq<u8>)
    requires
        s.len() == 8,
    ensures
        le8(vstd::bytes::spec_u64_from_le_bytes(s)) == s,
{
    vstd::bytes::lemma_auto_spec_u64_to_from_le_bytes();
}

/// Shifting a word left by a byte drops its most significant byte and
/// brings in a zero byte at the bottom.
pub proof fn lemma_be8_shl8(v: u64)
    ensures
        be8(v << 8u64) == be8(v).skip(1).push(0u8),
        be8(v).len() == 8,
{
    let w = v << 8u64;
    vstd::bytes::spec_u64_to_le_bytes_to_open(v);
    vstd::bytes::spec_u64_to_le_bytes_to_open(w);
    assert(((w & 0xff) as u8 == 0u8) && (((w >> 8) & 0xff) as u8 == (v & 0xff) as u8) && (((w
        >> 16) & 0xff) as u8 == ((v >> 8) & 0xff) as u8) && (((w >> 24) & 0xff) as u8 == ((v >> 16)
        & 0xff) as u8) && (((w >> 32) & 0xff) as u8 == ((v >> 24) & 0xff) as u8) && (((w >> 40)
        & 0xff) as u8 == ((v >> 32) & 0xff) as u8) && (((w >> 48) & 0xff) as u8 == ((v >> 40)
        & 0xff) as u8) && (((w >> 56) & 0xff) as u8 == ((v >> 48) & 0xff) as u8)) by (bit_vector)
        requires
            w == v << 8u64,
    ;
    assert(be8(w) =~= be8(v).skip(1).push(0u8));
}

/// The most significant byte of `v` is its last little-endian byte.
pub proof fn lemma_le8_top(v: u64)
    ensures
        le8(v)[7] == ((v >> 56u64) & 0xffu64) as u8,
        le8(v)[0] == (v & 0xffu64) as u8,
{
    vstd::bytes::spec_u64_to_le_bytes_to_open(v);
}

/// Index of the first occurrence of `b` in `s`.
pub open spec fn first_index(s: Seq<u8>, b: u8) -> Option<nat>
    decreases s.len(),
{
    if s.len() == 0 {
        None
    } else if s[0] == b {
        Some(0)
    } else {
        match first_index(s.skip(1), b) {
            Some(i) => Some(i + 1),
            None => None,
        }
    }
}

/// What `first_index` finds.
pub proof fn lemma_first_index(s: Seq<u8>, b: u8)
    ensures
        match first_index(s, b) {
            Some(i) => i < s.len() && s[i as int] == b && forall|j: int| 0 <= j < i ==> s[j] != b,
            None => forall|j: int| 0 <= j < s.len() ==> s[j] != b,
        },
    decreases s.len(),
{
    if s.len() > 0 && s[0] != b {
        lemma_first_index(s.skip(1), b);
        match first_index(s.skip(1), b) {
            Some(i) => {
                assert forall|j: int| 0 <= j < i + 1 implies s[j] != b by {
                    if j > 0 {
                        assert(s[j] == s.skip(1)[j - 1]);
                    }
                }
            },
            None => {
                assert forall|j: int| 0 <= j < s.len() implies s[j] != b by {
                    if j > 0 {
                        assert(s[j] == s.skip(1)[j - 1]);
                    }
                }
            },
        }
    }
}

/// `first_index` is determined by the properties above.
pub proof fn lemma_first_index_at(s: Seq<u8>, b: u8, i: nat)
    requires
        i < s.len(),
        s[i as int] == b,
        forall|j: int| 0 <= j < i ==> s[j] != b,
    ensures
        first_index(s, b) == Some(i),
{
    lemma_first_index(s, b);
    match first_index(s, b) {
        Some(k) => {
            if k < i {
                assert(s[k as int] != b);
            }
            if k > i {
                assert(s[i as int] != b);
            }
        },
        None => {
            assert(s[i as int] != b);
        },
    }
}

/// `first_index` finds nothing.
pub proof fn lemma_first_index_none(s: Seq<u8>, b: u8)
    requires
        forall|j: int| 0 <= j < s.len() ==> s[j] != b,
    ensures
        first_index(s, b) is None,
{
    lemma_first_index(s, b);
}

/// Searching a prefix of `s` finds the same occurrence, if it lies within it.
pub proof fn lemma_first_index_take(s: Seq<u8>, b: u8, n: nat)
    requires
        n <= s.len(),
    ensures
        first_index(s.take(n as int), b) == (match first_index(s, b) {
            Some(i) => if i < n {
                Some(i)
            } else {
                None
            },
            None => None,
        }),
{
    lemma_first_index(s, b);
    let t = s.take(n as int);
    match first_index(s, b) {
        Some(i) => {
            if i < n {
                lemma_first_index_at(t, b, i);
            } else {
                lemma_first_index_none(t, b);
            }
        },
        None => {
            lemma_first_index_none(t, b);
        },
    }
}

/// Searching after appending `x`.
pub proof fn lemma_first_index_push(s: Seq<u8>, x: u8, b: u8)
    ensures
        first_index(s.push(x), b) == (match first_index(s, b) {
            Some(i) => Some(i),
            None => if x == b {
                Some(s.len())
            } else {
                None
            },
        }),
{
    lemma_first_index(s, b);
    let t = s.push(x);
    match first_index(s, b) {
        Some(i) => {
            lemma_first_index_at(t, b, i);
        },
        None => {
            if x == b {
                lemma_first_index_at(t, b, s.len());
            } else {
                lemma_first_index_none(t, b);
            }
        },
    }
}

/// `s` is strictly increasing.
pub open spec fn increasing(s: Seq<u8>) -> bool {
    forall|i: int, j: int| 0 <= i < j < s.len() ==> s[i] < s[j]
}

/// Two strictly increasing sequences with the same elements are equal.
pub proof fn lemma_increasing_unique(a: Seq<u8>, b: Seq<u8>)
    requires
        increasing(a),
        increasing(b),
        forall|x: u8| a.contains(x) <==> b.contains(x),
    ensures
        a == b,
    decreases a.len() + b.len(),
{
    if a.len() == 0 {
        if b.len() > 0 {
            assert(b.contains(b[0]));
        }
        assert(a =~= b);
    } else if b.len() == 0 {
        assert(a.contains(a[0]));
    } else {
        // The first elements are the least ones, so they agree.
        assert(a.contains(a[0]));
        assert(b.contains(b[0]));
        let i = choose|i: int| 0 <= i < b.len() && b[i] == a[0];
        let j = choose|j: int| 0 <= j < a.len() && a[j] == b[0];
        if i > 0 {
            assert(b[0] < b[i]);
            if j > 0 {
                assert(a[0] < a[j]);
            }
        }
        if j > 0 {
            assert(a[0] < a[j]);
        }
        assert(a[0] == b[0]);
        let a1 = a.skip(1);
        let b1 = b.skip(1);
        assert forall|x: u8| a1.contains(x) <==> b1.contains(x) by {
            if a1.contains(x) {
                let k = choose|k: int| 0 <= k < a1.len() && a1[k] == x;
                assert(a[k + 1] == x);
                assert(a[0] < a[k + 1]);
                assert(b.contains(x));
                let m = choose|m: int| 0 <= m < b.len() && b[m] == x;
                assert(m != 0);
                assert(b1[m - 1] == x);
            }
            if b1.contains(x) {
                let k = choose|k: int| 0 <= k < b1.len() && b1[k] == x;
                assert(b[k + 1] == x);
                assert(b[0] < b[k + 1]);
                assert(a.contains(x));
                let m = choose|m: int| 0 <= m < a.len() && a[m] == x;
                assert(m != 0);
                assert(a1[m - 1] == x);
            }
        }
        lemma_increasing_unique(a1, b1);
        assert(a =~= b) by {
            assert forall|k: int| 0 <= k < a.len() implies a[k] == b[k] by {
                if k > 0 {
                    assert(a[k] == a1[k - 1]);
                    assert(b[k] == b1[k - 1]);
                }
            }
        }
    }
}

/// `common_len` is the first index at which `a` and `b` differ (or the end
/// of the shorter one).
pub proof fn lemma_common_len(a: Seq<u8>, b: Seq<u8>, i: nat)
    requires
        i <= a.len(),
        i <= b.len(),
        forall|j: int| 0 <= j < i ==> a[j] == b[j],
        i == a.len() || i == b.len() || a[i as int] != b[i as int],
    ensures
        common_len(a, b) == i,
    decreases i,
{
    if i > 0 {
        assert(a[0] == b[0]);
        lemma_common_len(a.skip(1), b.skip(1), (i - 1) as nat);
    }
}

/// The bytes before `common_len` agree and the one after differs.
pub proof fn lemma_common_len_props(a: Seq<u8>, b: Seq<u8>)
    ensures
        common_len(a, b) <= a.len(),
        common_len(a, b) <= b.len(),
        forall|j: int| 0 <= j < common_len(a, b) ==> a[j] == b[j],
        common_len(a, b) < a.len() && common_len(a, b) < b.len() ==> a[common_len(a, b) as int]
            != b[common_len(a, b) as int],
    decreases a.len(),
{
    if !(a.len() == 0 || b.len() == 0 || a[0] != b[0]) {
        lemma_common_len_props(a.skip(1), b.skip(1));
        assert forall|j: int| 0 <= j < common_len(a, b) implies a[j] == b[j] by {
            if j > 0 {
                assert(a.skip(1)[j - 1] == b.skip(1)[j - 1]);
            }
        }
    }
}

/// Facts about a length in the low four bits of a byte with a flag in bit 4.
pub proof fn lemma_len_tag(n: u8)
    by (bit_vector)
    requires
        n < 16,
    ensures
        n & 15u8 == n,
        n & 16u8 == 0,
        n | 0u8 == n,
        (n | 16u8) & 15u8 == n,
        (n | 16u8) & 16u8 == 16u8,
{
}

/// `256` to the power `n`.
pub open spec fn p256(n: nat) -> nat
    decreases n,
{
    if n == 0 {
        1
    } else {
        256 * p256((n - 1) as nat)
    }
}

/// The number whose base-256 digits, most significant first, are `s`.
pub open spec fn be_value(s: Seq<u8>) -> nat
    decreases s.len(),
{
    if s.len() == 0 {
        0
    } else {
        be_value(s.drop_last()) * 256 + s.last() as nat
    }
}

/// A number of `n` digits is below `256` to the `n`.
pub proof fn lemma_be_value_bound(s: Seq<u8>)
    ensures
        be_value(s) < p256(s.len()),
    decreases s.len(),
{
    if s.len() > 0 {
        lemma_be_value_bound(s.drop_last());
    }
}

/// The digits of a concatenation.
pub proof fn lemma_be_value_concat(x: Seq<u8>, y: Seq<u8>)
    ensures
        be_value(x + y) == be_value(x) * p256(y.len()) + be_value(y),
    decreases y.len(),
{
    if y.len() == 0 {
        assert(x + y =~= x);
        assert(p256(0) == 1);
        assert(be_value(y) == 0);
    } else {
        let y1 = y.drop_last();
        lemma_be_value_concat(x, y1);
        assert((x + y).drop_last() =~= x + y1);
        assert((x + y).last() == y.last());
        assert(be_value(x + y) == be_value(x + y1) * 256 + y.last() as nat);
        assert(be_value(y) == be_value(y1) * 256 + y.last() as nat);
        assert(p256(y.len()) == 256 * p256(y1.len()));
        let a = be_value(x) as int;
        let b = p256(y1.len()) as int;
        assert(a * b * 256 == a * (256 * b)) by (nonlinear_arith);
        assert((a * b + be_value(y1)) * 256 == a * b * 256 + be_value(y1) * 256) by (nonlinear_arith);
    }
}

/// Of two strings of digits of one length, the one that sorts first is the
/// smaller number.
pub proof fn lemma_be_value_lt(a: Seq<u8>, b: Seq<u8>)
    requires
        a.len() == b.len(),
        lex_lt(a, b),
    ensures
        be_value(a) < be_value(b),
{
    let c = common_len(a, b);
    lemma_common_len_props(a, b);
    let n = a.len();
    let m = (n - c - 1) as nat;
    let pa = a.take(c as int);
    let pb = b.take(c as int);
    assert(pa =~= pb);
    let ra = a.skip((c + 1) as int);
    let rb = b.skip((c + 1) as int);
    assert(a =~= pa.push(a[c as int]) + ra);
    assert(b =~= pb.push(b[c as int]) + rb);
    lemma_be_value_concat(pa.push(a[c as int]), ra);
    lemma_be_value_concat(pb.push(b[c as int]), rb);
    assert(pa.push(a[c as int]).drop_last() =~= pa);
    assert(pb.push(b[c as int]).drop_last() =~= pb);
    lemma_be_value_bound(ra);
    let p = be_value(pa) as int;
    let x = a[c as int] as int;
    let y = b[c as int] as int;
    let big = p256(m) as int;
    let u = be_value(ra) as int;
    let v = be_value(rb) as int;
    assert((p * 256 + x) * big + u < (p * 256 + y) * big + v) by (nonlinear_arith)
        requires
            x < y,
            0 <= u < big,
            0 <= v,
            0 <= p,
    ;
}

/// A word is the number its bytes spell, most significant first.
pub proof fn lemma_be_value_be8(v: u64)
    ensures
        be_value(be8(v)) == v,
{
    vstd::bytes::spec_u64_to_le_bytes_to_open(v);
    let s = be8(v);
    assert(v as int == (v & 0xff) + ((v >> 8u64) & 0xff) * 0x100 + ((v >> 16u64) & 0xff) * 0x10000
        + ((v >> 24u64) & 0xff) * 0x1000000 + ((v >> 32u64) & 0xff) * 0x100000000 + ((v >> 40u64)
        & 0xff) * 0x10000000000 + ((v >> 48u64) & 0xff) * 0x1000000000000 + ((v >> 56u64) & 0xff)
        * 0x100000000000000 && (v & 0xff) < 256 && ((v >> 8u64) & 0xff) < 256 && ((v >> 16u64)
        & 0xff) < 256 && ((v >> 24u64) & 0xff) < 256 && ((v >> 32u64) & 0xff) < 256 && ((v
        >> 40u64) & 0xff) < 256 && ((v >> 48u64) & 0xff) < 256 && ((v >> 56u64) & 0xff) < 256)
        by (bit_vector);
    assert(s.len() == 8);
    let s1 = s.drop_last();
    let s2 = s1.drop_last();
    let s3 = s2.drop_last();
    let s4 = s3.drop_last();
    let s5 = s4.drop_last();
    let s6 = s5.drop_last();
    let s7 = s6.drop_last();
    let s8 = s7.drop_last();
    assert(be_value(s8) == 0);
    assert(be_value(s7) == be_value(s8) * 256 + s[0]);
    assert(be_value(s6) == be_value(s7) * 256 + s[1]);
    assert(be_value(s5) == be_value(s6) * 256 + s[2]);
    assert(be_value(s4) == be_value(s5) * 256 + s[3]);
    assert(be_value(s3) == be_value(s4) * 256 + s[4]);
    assert(be_value(s2) == be_value(s3) * 256 + s[5]);
    assert(be_value(s1) == be_value(s2) * 256 + s[6]);
    assert(be_value(s) == be_value(s1) * 256 + s[7]);
    assert(be_value(s) == ((((((((s[0] as int) * 256 + s[1]) * 256 + s[2]) * 256 + s[3]) * 256
        + s[4]) * 256 + s[5]) * 256 + s[6]) * 256 + s[7]));
}

/// Words compare like their bytes, most significant first.
pub proof fn lemma_be8_order(a: u64, b: u64)
    ensures
        a < b <==> lex_lt(be8(a), be8(b)),
        a <= b <==> lex_le(be8(a), be8(b)),
        be8(a) == be8(b) <==> a == b,
{
    lemma_be_value_be8(a);
    lemma_be_value_be8(b);
    lemma_le8(a, b);
    lemma_le8(b, a);
    assert(be8(a).len() == 8 && be8(b).len() == 8);
    lemma_lex_lt_total(be8(a), be8(b));
    if lex_lt(be8(a), be8(b)) {
        lemma_be_value_lt(be8(a), be8(b));
    }
    if lex_lt(be8(b), be8(a)) {
        lemma_be_value_lt(be8(b), be8(a));
    }
}

/// A string between `a` and `b` starts with what `a` and `b` have in
/// common.
pub proof fn lemma_between_shares_prefix(a: Seq<u8>, b: Seq<u8>, k: Seq<u8>)
    requires
        lex_le(a, k),
        lex_le(k, b),
    ensures
        is_prefix(a.take(common_len(a, b) as int), k),
{
    let c = common_len(a, b);
    lemma_common_len_props(a, b);
    let d = common_len(a, k);
    lemma_common_len_props(a, k);
    if a == k {
        assert(k.take(c as int) =~= a.take(c as int));
    } else if d >= c {
        assert(k.take(c as int) =~= a.take(c as int));
    } else {
        assert(d < k.len() && a[d as int] < k[d as int]);
        assert forall|j: int| 0 <= j < d implies k[j] == b[j] by {}
        lemma_common_len(k, b, d);
        assert(k != b);
        assert(!lex_lt(k, b));
    }
}

} // verus!
