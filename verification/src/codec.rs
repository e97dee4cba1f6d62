//! Key encoding for durable paths.
//!
//! Every durable location lowers to a key built from *length-prefixed
//! segments*. A segment is `uvarint(len) ++ bytes`, which makes segment
//! sequences self-delimiting: no segment is a prefix of a *different* segment,
//! so sibling subtrees never overlap and a parent prefix only ever prefixes its
//! own descendants.
//!
//! Within a location prefix `P` a one-byte discriminator is reserved:
//!
//! - `P` (exact): a leaf value lives here.
//! - `P ++ [DATA] ++ seg`: a child (map entry, struct field, list element).
//! - `P ++ [META] ++ seg`: collection metadata (a list length, say).
//!
//! Children and metadata live *under* `P`, so a whole subtree is the key range
//! `[P, prefix_upper_bound(P))`.

use crate::bytes::{
    be, be_bytes, copy_bytes, copy_range, extend_bytes, from_be, lemma_be_len, lemma_be_monotone,
    lemma_be_roundtrip, lemma_lex_irreflexive, lemma_lex_prefix, lemma_pow256_8, lex_le, lex_lt,
    starts_with,
};
use vstd::prelude::*;

verus! {

/// Discriminator for child data living under a location.
pub const DATA: u8 = 0x01;

/// Discriminator for collection metadata living under a location.
pub const META: u8 = 0x00;

/// The unsigned LEB128 varint of `v`: base-128 digits, least significant
/// first, the high bit set on all but the last.
pub open spec fn uvarint(v: nat) -> Seq<u8>
    decreases v,
{
    if v < 128 {
        seq![v as u8]
    } else {
        seq![(v % 128 + 128) as u8] + uvarint(v / 128)
    }
}

/// 128 to the power `n`.
pub open spec fn pow128(n: nat) -> int
    decreases n,
{
    if n == 0 {
        1
    } else {
        128 * pow128((n - 1) as nat)
    }
}

/// What the low seven bits of the first `n` bytes of `s` add up to, the first
/// byte being the least significant digit.
pub open spec fn uvarint_sum(s: Seq<u8>, n: nat) -> int
    decreases n,
{
    if n == 0 {
        0
    } else {
        uvarint_sum(s, (n - 1) as nat) + (s[n - 1] % 128) * pow128((n - 1) as nat)
    }
}

/// The first `n` bytes of `s` are one varint: the high bit is clear on the last
/// of them alone, there are at most ten, and the tenth holds no more than the one
/// bit that is left of 64.
pub open spec fn is_uvarint(s: Seq<u8>, n: nat) -> bool {
    &&& 1 <= n <= 10
    &&& n <= s.len()
    &&& s[n - 1] < 128
    &&& n == 10 ==> s[9] <= 1
    &&& forall|i: int| 0 <= i < n - 1 ==> s[i] >= 128
}

/// The varint at the front of `s`: its value and its length.
pub open spec fn uvarint_at(s: Seq<u8>) -> Option<(u64, nat)> {
    if exists|n: nat| is_uvarint(s, n) {
        let n = choose|n: nat| is_uvarint(s, n);
        Some((uvarint_sum(s, n) as u64, n))
    } else {
        None
    }
}

/// A byte string begins with at most one varint.
pub proof fn lemma_uvarint_unique(s: Seq<u8>, m: nat, n: nat)
    requires
        is_uvarint(s, m),
        is_uvarint(s, n),
    ensures
        m == n,
{
    if m < n {
        assert(s[m - 1] >= 128);
    }
    if n < m {
        assert(s[n - 1] >= 128);
    }
}

proof fn lemma_uvarint_found(s: Seq<u8>, n: nat)
    requires
        is_uvarint(s, n),
    ensures
        uvarint_at(s) == Some((uvarint_sum(s, n) as u64, n)),
        0 <= uvarint_sum(s, n) <= u64::MAX,
{
    let m = choose|m: nat| is_uvarint(s, m);
    lemma_uvarint_unique(s, m, n);
    lemma_uvarint_bound(s, (n - 1) as nat);
    reveal_with_fuel(pow128, 11);
    let d = (s[n - 1] % 128) as int;
    let p = pow128((n - 1) as nat);
    if n == 10 {
        assert(d * p <= p) by (nonlinear_arith)
            requires
                0 <= d <= 1,
                p >= 0,
        ;
    } else {
        lemma_uvarint_bound(s, n);
        lemma_pow128_grows(n, 9);
    }
    assert(d * p >= 0) by (nonlinear_arith)
        requires
            d >= 0,
            p >= 0,
    ;
}

proof fn lemma_pow128_grows(m: nat, n: nat)
    requires
        m <= n,
    ensures
        1 <= pow128(m) <= pow128(n),
    decreases n,
{
    if m < n {
        lemma_pow128_grows(m, (n - 1) as nat);
    } else if m > 0 {
        lemma_pow128_grows((m - 1) as nat, (m - 1) as nat);
    }
}

/// The first `n` digits make a number below 128 to the power `n`.
proof fn lemma_uvarint_bound(s: Seq<u8>, n: nat)
    requires
        n <= s.len(),
    ensures
        0 <= uvarint_sum(s, n) < pow128(n),
    decreases n,
{
    if n > 0 {
        lemma_uvarint_bound(s, (n - 1) as nat);
        let d = (s[n - 1] % 128) as int;
        let p = pow128((n - 1) as nat);
        assert(0 <= d * p <= 127 * p) by (nonlinear_arith)
            requires
                0 <= d <= 127,
                p >= 0,
        ;
    }
}

proof fn lemma_uvarint_sum_front(b: u8, t: Seq<u8>, n: nat)
    requires
        n <= t.len(),
    ensures
        uvarint_sum(seq![b] + t, n + 1) == (b % 128) as int + 128 * uvarint_sum(t, n),
    decreases n,
{
    let s = seq![b] + t;
    if n == 0 {
        assert(uvarint_sum(s, 1) == uvarint_sum(s, 0) + (s[0] % 128) * pow128(0)) by {
            reveal_with_fuel(uvarint_sum, 2);
        }
        assert(pow128(0) == 1);
    } else {
        let m = (n - 1) as nat;
        lemma_uvarint_sum_front(b, t, m);
        let d = (t[n - 1] % 128) as int;
        assert(s[n as int] == t[n - 1]);
        assert(uvarint_sum(s, n + 1) == uvarint_sum(s, n) + d * pow128(n));
        assert(d * pow128(n) == 128 * (d * pow128(m))) by (nonlinear_arith)
            requires
                pow128(n) == 128 * pow128(m),
        ;
    }
}

proof fn lemma_uvarint_sum_local(s: Seq<u8>, t: Seq<u8>, n: nat)
    requires
        n <= s.len(),
        n <= t.len(),
        forall|i: int| 0 <= i < n ==> s[i] == t[i],
    ensures
        uvarint_sum(s, n) == uvarint_sum(t, n),
    decreases n,
{
    if n > 0 {
        lemma_uvarint_sum_local(s, t, (n - 1) as nat);
    }
}

proof fn lemma_uvarint_shape(v: nat, k: nat)
    requires
        v < pow128(k),
        k >= 1,
    ensures
        1 <= uvarint(v).len() <= k,
        uvarint(v).last() < 128,
        forall|i: int| 0 <= i < uvarint(v).len() - 1 ==> uvarint(v)[i] >= 128,
        uvarint_sum(uvarint(v), uvarint(v).len()) == v,
    decreases k,
{
    let s = uvarint(v);
    if v < 128 {
        reveal_with_fuel(uvarint_sum, 2);
        assert(pow128(0) == 1);
    } else {
        if k == 1 {
            assert(pow128(1) == 128) by {
                reveal_with_fuel(pow128, 2);
            }
        }
        assert(v / 128 < pow128((k - 1) as nat)) by (nonlinear_arith)
            requires
                v < 128 * pow128((k - 1) as nat),
        ;
        let t = uvarint(v / 128);
        lemma_uvarint_shape(v / 128, (k - 1) as nat);
        lemma_uvarint_sum_front((v % 128 + 128) as u8, t, t.len());
        assert(((v % 128 + 128) as u8) % 128 == v % 128);
    }
}

/// Reading a varint gives back the number written and the bytes it took,
/// whatever follows.
pub proof fn law_uvarint_roundtrip(v: u64, rest: Seq<u8>)
    ensures
        uvarint_at(uvarint(v as nat) + rest) == Some((v, uvarint(v as nat).len())),
{
    let u = uvarint(v as nat);
    let s = u + rest;
    assert(v < pow128(10)) by {
        reveal_with_fuel(pow128, 11);
    }
    lemma_uvarint_shape(v as nat, 10);
    lemma_uvarint_sum_local(s, u, u.len());
    if u.len() == 10 {
        lemma_uvarint_bound(u, 9);
        reveal_with_fuel(pow128, 11);
        let d = (u[9] % 128) as int;
        assert(v == uvarint_sum(u, 9) + d * 0x8000_0000_0000_0000);
    }
    assert(is_uvarint(s, u.len()));
    lemma_uvarint_found(s, u.len());
}

/// Append an unsigned LEB128 varint to `out`.
pub fn put_uvarint(out: &mut Vec<u8>, value: u64)
    ensures
        final(out)@ == old(out)@ + uvarint(value as nat),
{
    let mut v: u64 = value;
    while v >= 128
        invariant
            out@ + uvarint(v as nat) == old(out)@ + uvarint(value as nat),
        decreases v,
    {
        let ghost before = out@;
        out.push((v % 128 + 128) as u8);
        proof {
            assert(before + uvarint(v as nat) =~= out@ + uvarint((v / 128) as nat));
        }
        v = v / 128;
    }
    let ghost before = out@;
    out.push(v as u8);
    assert(out@ =~= before + uvarint(v as nat));
}

/// Decode an unsigned LEB128 varint from the front of `bytes`.
///
/// Returns the value and the number of bytes consumed, or `None` if the input
/// is truncated or overlong.
pub fn read_uvarint(bytes: &[u8]) -> (r: Option<(u64, usize)>)
    ensures
        match (r, uvarint_at(bytes@)) {
            (Some((v, n)), Some((w, m))) => v == w && n as nat == m,
            (None, None) => true,
            _ => false,
        },
        r matches Some((_, n)) ==> 1 <= n <= bytes@.len(),
{
    let mut result: u64 = 0;
    let mut scale: u64 = 1;
    let mut i: usize = 0;
    while i < bytes.len()
        invariant
            i <= bytes.len(),
            i <= 9,
            forall|j: int| 0 <= j < i ==> bytes@[j] >= 128,
            result == uvarint_sum(bytes@, i as nat),
            scale == pow128(i as nat),
        decreases bytes.len() - i,
    {
        let digit: u64 = (bytes[i] % 128) as u64;
        if i == 9 && bytes[i] > 1 {
            assert forall|n: nat| !is_uvarint(bytes@, n) by {
                if is_uvarint(bytes@, n) {
                    assert(bytes@[n - 1] < 128);
                }
            }
            return None;
        }
        proof {
            let p = pow128(i as nat);
            lemma_uvarint_bound(bytes@, i as nat);
            lemma_uvarint_bound(bytes@, (i + 1) as nat);
            assert(uvarint_sum(bytes@, (i + 1) as nat) == uvarint_sum(bytes@, i as nat) + digit * p);
            assert(pow128((i + 1) as nat) == 128 * p);
            lemma_pow128_grows(i as nat, 9);
            lemma_pow128_grows((i + 1) as nat, if i < 9 { 9 } else { 10 });
            assert(pow128(9) == 0x8000_0000_0000_0000) by {
                reveal_with_fuel(pow128, 10);
            }
            assert(0 <= digit * p && (digit <= 1 ==> digit * p <= p)) by (nonlinear_arith)
                requires
                    digit >= 0,
                    p >= 0,
            ;
        }
        result = result + digit * scale;
        if bytes[i] < 128 {
            proof {
                assert(is_uvarint(bytes@, (i + 1) as nat));
                lemma_uvarint_found(bytes@, (i + 1) as nat);
            }
            return Some((result, i + 1));
        }
        scale = scale * 128;
        i = i + 1;
    }
    assert forall|n: nat| !is_uvarint(bytes@, n) by {
        if is_uvarint(bytes@, n) {
            assert(bytes@[n - 1] < 128);
        }
    }
    None
}

/// The segment that holds `b`: its length as a varint, then its bytes.
pub open spec fn segment(b: Seq<u8>) -> Seq<u8> {
    uvarint(b.len()) + b
}

/// The segment at the front of `s`: its payload and all the bytes it takes.
pub open spec fn segment_at(s: Seq<u8>) -> Option<(Seq<u8>, nat)> {
    match uvarint_at(s) {
        Some((len, header)) => if header + len <= s.len() {
            Some((s.subrange(header as int, header + len), header + len as nat))
        } else {
            None
        },
        None => None,
    }
}

/// Reading a segment gives back its payload and leaves what follows.
pub proof fn law_segment_roundtrip(b: Seq<u8>, rest: Seq<u8>)
    requires
        b.len() <= u64::MAX,
    ensures
        segment_at(segment(b) + rest) == Some((b, segment(b).len())),
{
    let u = uvarint(b.len());
    law_uvarint_roundtrip(b.len() as u64, b + rest);
    assert(segment(b) + rest =~= u + (b + rest));
    let s = segment(b) + rest;
    assert(s.subrange(u.len() as int, (u.len() + b.len()) as int) =~= b);
}

/// Segment sequences are self-delimiting: where two sequences that each begin
/// with a segment are equal, so are the segments and what follows them.
pub proof fn law_segments_self_delimiting(a: Seq<u8>, x: Seq<u8>, b: Seq<u8>, y: Seq<u8>)
    requires
        a.len() <= u64::MAX,
        b.len() <= u64::MAX,
        segment(a) + x == segment(b) + y,
    ensures
        a == b,
        x == y,
{
    law_segment_roundtrip(a, x);
    law_segment_roundtrip(b, y);
    assert(x =~= (segment(a) + x).skip(segment(a).len() as int));
    assert(y =~= (segment(b) + y).skip(segment(b).len() as int));
}

/// No segment is a prefix of a different segment.
pub proof fn law_segment_no_false_prefix(a: Seq<u8>, b: Seq<u8>)
    requires
        a.len() <= u64::MAX,
        b.len() <= u64::MAX,
        starts_with(segment(b), segment(a)),
    ensures
        a == b,
{
    let n = segment(a).len() as int;
    assert(segment(b) =~= segment(a) + segment(b).skip(n));
    assert(segment(b) =~= segment(b) + Seq::<u8>::empty());
    law_segments_self_delimiting(a, segment(b).skip(n), b, Seq::<u8>::empty());
}

/// Append a length-prefixed segment to `out`.
pub fn put_segment(out: &mut Vec<u8>, bytes: &[u8])
    ensures
        final(out)@ == old(out)@ + segment(bytes@),
{
    put_uvarint(out, bytes.len() as u64);
    extend_bytes(out, bytes);
    assert(out@ =~= old(out)@ + segment(bytes@));
}

/// Read one length-prefixed segment from the front of `bytes`.
///
/// Returns the segment payload and the total number of bytes consumed
/// (including the length prefix).
pub fn read_segment(bytes: &[u8]) -> (r: Option<(&[u8], usize)>)
    ensures
        match (r, segment_at(bytes@)) {
            (Some((payload, n)), Some((b, m))) => payload@ == b && n as nat == m && n <= bytes@.len(),
            (None, None) => true,
            _ => false,
        },
{
    match read_uvarint(bytes) {
        Some((len, header)) => {
            if len > (bytes.len() - header) as u64 {
                return None;
            }
            let end: usize = header + len as usize;
            Some((vstd::slice::slice_subrange(bytes, header, end), end))
        },
        None => None,
    }
}

/// The key of child `seg` under location prefix `parent`.
pub open spec fn child_of(parent: Seq<u8>, seg: Seq<u8>) -> Seq<u8> {
    parent.push(DATA) + segment(seg)
}

/// The key of metadata `name` under location prefix `parent`.
pub open spec fn meta_of(parent: Seq<u8>, name: Seq<u8>) -> Seq<u8> {
    parent.push(META) + segment(name)
}

/// Build the key for child `seg` under location prefix `parent`.
pub fn child_key(parent: &[u8], seg: &[u8]) -> (key: Vec<u8>)
    ensures
        key@ == child_of(parent@, seg@),
{
    let mut key: Vec<u8> = copy_bytes(parent);
    key.push(DATA);
    put_segment(&mut key, seg);
    key
}

/// The prefix under which all of `parent`'s child data lives.
pub fn child_scan_prefix(parent: &[u8]) -> (key: Vec<u8>)
    ensures
        key@ == parent@.push(DATA),
{
    let mut key: Vec<u8> = copy_bytes(parent);
    key.push(DATA);
    key
}

/// Build a metadata key `name` under location prefix `parent`.
pub fn meta_key(parent: &[u8], name: &[u8]) -> (key: Vec<u8>)
    ensures
        key@ == meta_of(parent@, name@),
{
    let mut key: Vec<u8> = copy_bytes(parent);
    key.push(META);
    put_segment(&mut key, name);
    key
}

/// Sibling subtrees never overlap: a key that lies under two children of one
/// parent lies under one child only.
pub proof fn law_siblings_disjoint(parent: Seq<u8>, a: Seq<u8>, b: Seq<u8>, key: Seq<u8>)
    requires
        a.len() <= u64::MAX,
        b.len() <= u64::MAX,
        starts_with(key, child_of(parent, a)),
        starts_with(key, child_of(parent, b)),
    ensures
        a == b,
{
    let n = parent.len() + 1;
    let sa = segment(a);
    let sb = segment(b);
    let x = key.skip(child_of(parent, a).len() as int);
    let y = key.skip(child_of(parent, b).len() as int);
    assert(key =~= child_of(parent, a) + x);
    assert(key =~= child_of(parent, b) + y);
    assert(key.skip(n as int) =~= sa + x);
    assert(key.skip(n as int) =~= sb + y);
    law_segments_self_delimiting(a, x, b, y);
}

/// Children and metadata of a location lie under it, in disjoint subtrees.
pub proof fn law_children_and_metadata_apart(parent: Seq<u8>, seg: Seq<u8>, name: Seq<u8>)
    ensures
        starts_with(child_of(parent, seg), parent),
        starts_with(meta_of(parent, name), parent),
        forall|key: Seq<u8>|
            !(#[trigger] starts_with(key, child_of(parent, seg)) && starts_with(
                key,
                meta_of(parent, name),
            )),
{
    let n = parent.len() as int;
    assert(child_of(parent, seg).take(n) =~= parent);
    assert(meta_of(parent, name).take(n) =~= parent);
    assert forall|key: Seq<u8>|
        !(#[trigger] starts_with(key, child_of(parent, seg)) && starts_with(
            key,
            meta_of(parent, name),
        )) by {
        if starts_with(key, child_of(parent, seg)) && starts_with(key, meta_of(parent, name)) {
            assert(key.take(child_of(parent, seg).len() as int)[n] == DATA);
            assert(key.take(meta_of(parent, name).len() as int)[n] == META);
        }
    }
}

/// How many bytes of `p` are left once its trailing `0xff` bytes are gone.
pub open spec fn trimmed_len(p: Seq<u8>) -> nat
    decreases p.len(),
{
    if p.len() == 0 || p.last() != 0xff {
        p.len()
    } else {
        trimmed_len(p.drop_last())
    }
}

/// The end of the key range that `p` prefixes: `p` without its trailing `0xff`
/// bytes, the last byte one higher.
pub open spec fn upper_bound(p: Seq<u8>) -> Option<Seq<u8>> {
    let n = trimmed_len(p) as int;
    if n == 0 {
        None
    } else {
        Some(p.take(n - 1).push((p[n - 1] + 1) as u8))
    }
}

proof fn lemma_trimmed(p: Seq<u8>)
    ensures
        trimmed_len(p) <= p.len(),
        trimmed_len(p) > 0 ==> p[trimmed_len(p) - 1] != 0xff,
        forall|i: int| trimmed_len(p) <= i < p.len() ==> p[i] == 0xff,
    decreases p.len(),
{
    if p.len() > 0 && p.last() == 0xff {
        let q = p.drop_last();
        lemma_trimmed(q);
        assert forall|i: int| trimmed_len(p) <= i < p.len() implies p[i] == 0xff by {
            if i < q.len() {
                assert(q[i] == 0xff);
            }
        }
    }
}

/// A string of `0xff` bytes is a prefix of every string that is not before it.
proof fn lemma_all_ff(p: Seq<u8>, k: Seq<u8>)
    requires
        forall|i: int| 0 <= i < p.len() ==> p[i] == 0xff,
    ensures
        lex_lt(k, p) || starts_with(k, p),
    decreases p.len(),
{
    if p.len() == 0 {
        assert(k.take(0) =~= p);
    } else if k.len() > 0 && k[0] == 0xff {
        lemma_all_ff(p.skip(1), k.skip(1));
        if starts_with(k.skip(1), p.skip(1)) {
            assert(k.take(p.len() as int) =~= seq![k[0]] + k.skip(1).take(p.len() - 1));
            assert(p =~= seq![p[0]] + p.skip(1));
        }
    }
}

proof fn lemma_range(p: Seq<u8>, n: int, k: Seq<u8>)
    requires
        0 < n <= p.len(),
        p[n - 1] != 0xff,
        forall|i: int| n <= i < p.len() ==> p[i] == 0xff,
    ensures
        starts_with(k, p) <==> (!lex_lt(k, p) && lex_lt(k, p.take(n - 1).push((p[n - 1] + 1) as u8))),
    decreases n,
{
    let ub = p.take(n - 1).push((p[n - 1] + 1) as u8);
    if starts_with(k, p) {
        lemma_lex_prefix(k, p);
    }
    if k.len() > 0 {
        assert(starts_with(k, p) <==> (k[0] == p[0] && starts_with(k.skip(1), p.skip(1)))) by {
            if starts_with(k, p) {
                assert(k.take(p.len() as int)[0] == k[0]);
                assert(k.skip(1).take(p.len() - 1) =~= k.take(p.len() as int).skip(1));
            }
            if k[0] == p[0] && starts_with(k.skip(1), p.skip(1)) {
                assert(k.take(p.len() as int) =~= seq![k[0]] + k.skip(1).take(p.len() - 1));
                assert(p =~= seq![p[0]] + p.skip(1));
            }
        }
        if n == 1 {
            assert(ub[0] == p[0] + 1);
            lemma_all_ff(p.skip(1), k.skip(1));
            if starts_with(k.skip(1), p.skip(1)) {
                lemma_lex_prefix(k.skip(1), p.skip(1));
            }
            assert(!lex_lt(k.skip(1), ub.skip(1)));
        } else {
            assert(p.skip(1)[n - 2] == p[n - 1]);
            lemma_range(p.skip(1), n - 1, k.skip(1));
            assert(p.skip(1)[n - 1 - 1] == p[n - 1]);
            assert(p.skip(1).take(n - 2).push((p[n - 1] + 1) as u8) =~= ub.skip(1));
            assert(ub[0] == p[0]);
        }
    }
}

/// The keys that start with `p` are exactly those from `p` on that come before
/// its upper bound.
pub proof fn law_subtree_is_range(p: Seq<u8>, key: Seq<u8>)
    requires
        upper_bound(p) is Some,
    ensures
        starts_with(key, p) <==> (lex_le(p, key) && lex_lt(key, upper_bound(p)->0)),
{
    lemma_trimmed(p);
    lemma_range(p, trimmed_len(p) as int, key);
    crate::bytes::lemma_lex_total(p, key);
    if lex_lt(p, key) {
        crate::bytes::lemma_lex_asymmetric(p, key);
    }
    lemma_lex_irreflexive(p);
}

/// The upper bound is the smallest key greater than every key that starts with
/// `p`.
pub proof fn law_upper_bound_is_least(p: Seq<u8>, m: Seq<u8>)
    requires
        upper_bound(p) is Some,
        forall|key: Seq<u8>| #[trigger] starts_with(key, p) ==> lex_lt(key, m),
    ensures
        lex_le(upper_bound(p)->0, m),
{
    let ub = upper_bound(p)->0;
    crate::bytes::lemma_lex_total(ub, m);
    if lex_lt(m, ub) {
        assert(p.take(p.len() as int) =~= p);
        assert(starts_with(p, p));
        law_subtree_is_range(p, m);
        assert(starts_with(m, p));
        lemma_lex_irreflexive(m);
    }
}

/// A prefix has no upper bound exactly when it is empty or all `0xff`; then the
/// keys from it on are those that start with it.
pub proof fn law_unbounded_prefix(p: Seq<u8>, key: Seq<u8>)
    ensures
        upper_bound(p) is None <==> forall|i: int| 0 <= i < p.len() ==> p[i] == 0xff,
        upper_bound(p) is None ==> (starts_with(key, p) <==> lex_le(p, key)),
{
    lemma_trimmed(p);
    if upper_bound(p) is None {
        lemma_all_ff(p, key);
        if starts_with(key, p) {
            lemma_lex_prefix(key, p);
        } else if lex_lt(p, key) {
            crate::bytes::lemma_lex_asymmetric(p, key);
        } else if p == key {
            assert(p.take(p.len() as int) =~= p);
        }
    } else {
        assert(p[trimmed_len(p) - 1] != 0xff);
    }
}

/// Smallest key strictly greater than every key prefixed by `prefix`.
///
/// Returns `None` when `prefix` is empty or all `0xff` (the range extends to
/// the end of the keyspace), in which case callers fall back to a scan.
pub fn prefix_upper_bound(prefix: &[u8]) -> (r: Option<Vec<u8>>)
    ensures
        match (r, upper_bound(prefix@)) {
            (Some(end), Some(ub)) => end@ == ub,
            (None, None) => true,
            _ => false,
        },
{
    let mut n: usize = prefix.len();
    assert(prefix@.take(n as int) =~= prefix@);
    while n > 0 && prefix[n - 1] == 0xff
        invariant
            n <= prefix@.len(),
            trimmed_len(prefix@) == trimmed_len(prefix@.take(n as int)),
        decreases n,
    {
        assert(prefix@.take(n as int).drop_last() =~= prefix@.take(n - 1));
        n = n - 1;
    }
    if n == 0 {
        return None;
    }
    let mut end: Vec<u8> = copy_range(prefix, 0, n - 1);
    end.push(prefix[n - 1] + 1);
    assert(end@ =~= prefix@.take(n - 1).push((prefix@[n - 1] + 1) as u8));
    Some(end)
}

/// The order-preserving encoding of a signed index: the index moved up by
/// 2^63, as eight bytes, most significant first.
pub open spec fn ordered_i64(index: int) -> Seq<u8> {
    be(index + 0x8000_0000_0000_0000, 8)
}

/// The order-preserving encoding of an unsigned index: eight bytes, most
/// significant first.
pub open spec fn ordered_u64(index: int) -> Seq<u8> {
    be(index, 8)
}

/// Order-preserving encoding of an `i64` index (used by deques).
///
/// Flipping the sign bit makes the unsigned big-endian byte order match signed
/// numeric order, so negative front indices sort before positive ones.
pub fn order_i64(index: i64) -> (r: [u8; 8])
    ensures
        r@ == ordered_i64(index as int),
{
    be_bytes((index as i128 + 0x8000_0000_0000_0000) as u64)
}

/// Order-preserving encoding of a `u64` index (used by lists).
pub fn order_u64(index: u64) -> (r: [u8; 8])
    ensures
        r@ == ordered_u64(index as int),
{
    be_bytes(index)
}

/// Encoded signed indices sort as the indices do.
pub proof fn law_order_i64_monotone(x: i64, y: i64)
    ensures
        lex_lt(ordered_i64(x as int), ordered_i64(y as int)) <==> x < y,
{
    lemma_pow256_8();
    lemma_be_monotone(x + 0x8000_0000_0000_0000, y + 0x8000_0000_0000_0000, 8);
}

/// Encoded unsigned indices sort as the indices do.
pub proof fn law_order_u64_monotone(x: u64, y: u64)
    ensures
        lex_lt(ordered_u64(x as int), ordered_u64(y as int)) <==> x < y,
{
    lemma_pow256_8();
    lemma_be_monotone(x as int, y as int, 8);
}

/// Reading an encoded index gives the index back.
pub proof fn law_order_roundtrip(x: i64, y: u64)
    ensures
        ordered_i64(x as int).len() == 8,
        ordered_u64(y as int).len() == 8,
        from_be(ordered_i64(x as int)) - 0x8000_0000_0000_0000 == x,
        from_be(ordered_u64(y as int)) == y,
{
    lemma_pow256_8();
    lemma_be_len(x + 0x8000_0000_0000_0000, 8);
    lemma_be_len(y as int, 8);
    lemma_be_roundtrip(x + 0x8000_0000_0000_0000, 8);
    lemma_be_roundtrip(y as int, 8);
}

} // verus!
