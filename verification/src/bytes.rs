//! Byte strings: their order, and fixed-width integers written in them.

use vstd::prelude::*;

verus! {

/// `a` comes strictly before `b` in the byte-wise lexicographic order, the
/// order in which a key-value store keeps its keys.
pub open spec fn lex_lt(a: Seq<u8>, b: Seq<u8>) -> bool
    decreases a.len(),
{
    if b.len() == 0 {
        false
    } else if a.len() == 0 {
        true
    } else if a[0] != b[0] {
        a[0] < b[0]
    } else {
        lex_lt(a.skip(1), b.skip(1))
    }
}

/// `a` comes before `b` or is `b`.
pub open spec fn lex_le(a: Seq<u8>, b: Seq<u8>) -> bool {
    a == b || lex_lt(a, b)
}

/// `p` is an initial part of `s`.
pub open spec fn starts_with(s: Seq<u8>, p: Seq<u8>) -> bool {
    p.len() <= s.len() && s.take(p.len() as int) == p
}

/// No byte string comes before itself.
pub proof fn lemma_lex_irreflexive(a: Seq<u8>)
    ensures
        !lex_lt(a, a),
    decreases a.len(),
{
    if a.len() > 0 {
        lemma_lex_irreflexive(a.skip(1));
    }
}

/// The order is transitive.
pub proof fn lemma_lex_transitive(a: Seq<u8>, b: Seq<u8>, c: Seq<u8>)
    requires
        lex_lt(a, b),
        lex_lt(b, c),
    ensures
        lex_lt(a, c),
    decreases a.len(),
{
    if a.len() > 0 && a[0] == b[0] && b[0] == c[0] {
        lemma_lex_transitive(a.skip(1), b.skip(1), c.skip(1));
    }
}

/// Of two different byte strings one comes before the other.
pub proof fn lemma_lex_total(a: Seq<u8>, b: Seq<u8>)
    ensures
        a == b || lex_lt(a, b) || lex_lt(b, a),
    decreases a.len(),
{
    if a.len() == 0 {
        if b.len() == 0 {
            assert(a =~= b);
        }
    } else if b.len() > 0 && a[0] == b[0] {
        lemma_lex_total(a.skip(1), b.skip(1));
        if a.skip(1) == b.skip(1) {
            assert(a =~= seq![a[0]] + a.skip(1));
            assert(b =~= seq![b[0]] + b.skip(1));
        }
    }
}

/// Neither of two byte strings that come in order is before the other way
/// round.
pub proof fn lemma_lex_asymmetric(a: Seq<u8>, b: Seq<u8>)
    requires
        lex_lt(a, b),
    ensures
        !lex_lt(b, a),
        a != b,
{
    if lex_lt(b, a) {
        lemma_lex_transitive(a, b, a);
    }
    lemma_lex_irreflexive(a);
}

/// A common front does not change the order.
pub proof fn lemma_lex_common_front(p: Seq<u8>, a: Seq<u8>, b: Seq<u8>)
    ensures
        lex_lt(p + a, p + b) == lex_lt(a, b),
    decreases p.len(),
{
    if p.len() == 0 {
        assert(p + a =~= a);
        assert(p + b =~= b);
    } else {
        lemma_lex_common_front(p.skip(1), a, b);
        assert((p + a).skip(1) =~= p.skip(1) + a);
        assert((p + b).skip(1) =~= p.skip(1) + b);
    }
}

/// A byte string is never before one of its initial parts.
pub proof fn lemma_lex_prefix(s: Seq<u8>, p: Seq<u8>)
    requires
        starts_with(s, p),
    ensures
        lex_le(p, s),
        !lex_lt(s, p),
    decreases p.len(),
{
    if p.len() == 0 {
        if s.len() == 0 {
            assert(s =~= p);
        }
    } else {
        assert(s[0] == s.take(p.len() as int)[0]);
        assert(s.skip(1).take(p.len() - 1) =~= s.take(p.len() as int).skip(1));
        lemma_lex_prefix(s.skip(1), p.skip(1));
        if p.skip(1) == s.skip(1) {
            assert(p =~= seq![p[0]] + p.skip(1));
            assert(s =~= seq![s[0]] + s.skip(1));
        }
    }
}

/// `a` comes before `b`.
pub fn bytes_lt(a: &[u8], b: &[u8]) -> (r: bool)
    ensures
        r == lex_lt(a@, b@),
{
    let mut i: usize = 0;
    assert(a@.skip(0) =~= a@ && b@.skip(0) =~= b@);
    while i < a.len() && i < b.len() && a[i] == b[i]
        invariant
            i <= a.len(),
            i <= b.len(),
            lex_lt(a@, b@) == lex_lt(a@.skip(i as int), b@.skip(i as int)),
        decreases a.len() - i,
    {
        assert(a@.skip(i as int).skip(1) =~= a@.skip(i + 1));
        assert(b@.skip(i as int).skip(1) =~= b@.skip(i + 1));
        i = i + 1;
    }
    if i >= b.len() {
        false
    } else if i >= a.len() {
        true
    } else {
        a[i] < b[i]
    }
}

/// The two byte strings are the same.
pub fn bytes_eq(a: &[u8], b: &[u8]) -> (r: bool)
    ensures
        r == (a@ == b@),
{
    if a.len() != b.len() {
        return false;
    }
    let mut i: usize = 0;
    while i < a.len()
        invariant
            i <= a.len(),
            a.len() == b.len(),
            forall|j: int| 0 <= j < i ==> a@[j] == b@[j],
        decreases a.len() - i,
    {
        if a[i] != b[i] {
            return false;
        }
        i = i + 1;
    }
    assert(a@ =~= b@);
    true
}

/// `s` starts with `p`.
pub fn bytes_start_with(s: &[u8], p: &[u8]) -> (r: bool)
    ensures
        r == starts_with(s@, p@),
{
    if p.len() > s.len() {
        return false;
    }
    let mut i: usize = 0;
    while i < p.len()
        invariant
            i <= p.len() <= s.len(),
            forall|j: int| 0 <= j < i ==> p@[j] == s@[j],
        decreases p.len() - i,
    {
        if p[i] != s[i] {
            assert(s@.take(p@.len() as int)[i as int] == s@[i as int]);
            return false;
        }
        i = i + 1;
    }
    assert(s@.take(p@.len() as int) =~= p@);
    true
}

/// Appends `b` to `out`.
pub fn extend_bytes(out: &mut Vec<u8>, b: &[u8])
    ensures
        final(out)@ == old(out)@ + b@,
{
    out.extend_from_slice(b);
    assert(out@ =~= old(out)@ + b@);
}

/// A copy of `b`.
pub fn copy_bytes(b: &[u8]) -> (r: Vec<u8>)
    ensures
        r@ == b@,
{
    let mut r: Vec<u8> = Vec::new();
    extend_bytes(&mut r, b);
    assert(r@ =~= b@);
    r
}

/// A copy of `s` from `from` up to, not including, `to`.
pub fn copy_range(s: &[u8], from: usize, to: usize) -> (r: Vec<u8>)
    requires
        from <= to <= s@.len(),
    ensures
        r@ == s@.subrange(from as int, to as int),
{
    let mut r: Vec<u8> = Vec::new();
    let mut i: usize = from;
    while i < to
        invariant
            from <= i <= to <= s@.len(),
            r@ == s@.subrange(from as int, i as int),
        decreases to - i,
    {
        r.push(s[i]);
        assert(r@ =~= s@.subrange(from as int, i + 1));
        i = i + 1;
    }
    r
}

/// The last `n` base-256 digits of `x`, most significant first.
pub open spec fn be(x: int, n: nat) -> Seq<u8>
    decreases n,
{
    if n == 0 {
        Seq::empty()
    } else {
        be(x / 256, (n - 1) as nat).push((x % 256) as u8)
    }
}

/// The number that `s` writes in base 256, most significant digit first.
pub open spec fn from_be(s: Seq<u8>) -> int
    decreases s.len(),
{
    if s.len() == 0 {
        0
    } else {
        from_be(s.drop_last()) * 256 + s.last()
    }
}

/// The last `n` base-256 digits of `x`, least significant first.
pub open spec fn le(x: int, n: nat) -> Seq<u8>
    decreases n,
{
    if n == 0 {
        Seq::empty()
    } else {
        seq![(x % 256) as u8] + le(x / 256, (n - 1) as nat)
    }
}

/// The number that `s` writes in base 256, least significant digit first.
pub open spec fn from_le(s: Seq<u8>) -> int
    decreases s.len(),
{
    if s.len() == 0 {
        0
    } else {
        s[0] + 256 * from_le(s.skip(1))
    }
}

/// 256 to the power `n`.
pub open spec fn pow256(n: nat) -> int
    decreases n,
{
    if n == 0 {
        1
    } else {
        256 * pow256((n - 1) as nat)
    }
}

pub proof fn lemma_be_len(x: int, n: nat)
    ensures
        be(x, n).len() == n,
    decreases n,
{
    if n > 0 {
        lemma_be_len(x / 256, (n - 1) as nat);
    }
}

pub proof fn lemma_le_len(x: int, n: nat)
    ensures
        le(x, n).len() == n,
    decreases n,
{
    if n > 0 {
        lemma_le_len(x / 256, (n - 1) as nat);
    }
}

/// Reading big-endian digits gives the number that was written.
pub proof fn lemma_be_roundtrip(x: int, n: nat)
    requires
        0 <= x < pow256(n),
    ensures
        from_be(be(x, n)) == x,
    decreases n,
{
    if n > 0 {
        assert(0 <= x / 256 < pow256((n - 1) as nat)) by (nonlinear_arith)
            requires
                0 <= x < 256 * pow256((n - 1) as nat),
        ;
        lemma_be_roundtrip(x / 256, (n - 1) as nat);
        assert(be(x, n).drop_last() =~= be(x / 256, (n - 1) as nat));
    }
}

/// Reading little-endian digits gives the number that was written.
pub proof fn lemma_le_roundtrip(x: int, n: nat)
    requires
        0 <= x < pow256(n),
    ensures
        from_le(le(x, n)) == x,
    decreases n,
{
    if n > 0 {
        assert(0 <= x / 256 < pow256((n - 1) as nat)) by (nonlinear_arith)
            requires
                0 <= x < 256 * pow256((n - 1) as nat),
        ;
        lemma_le_roundtrip(x / 256, (n - 1) as nat);
        assert(le(x, n).skip(1) =~= le(x / 256, (n - 1) as nat));
    }
}

/// A number read from `n` bytes is below 256 to the `n`.
pub proof fn lemma_from_le_bound(s: Seq<u8>)
    ensures
        0 <= from_le(s) < pow256(s.len()),
        le(from_le(s), s.len()) == s,
    decreases s.len(),
{
    if s.len() > 0 {
        lemma_from_le_bound(s.skip(1));
        let r = from_le(s.skip(1));
        assert((s[0] + 256 * r) / 256 == r && (s[0] + 256 * r) % 256 == s[0] as int);
        assert(le(from_le(s), s.len()) =~= s) by {
            assert(s =~= seq![s[0]] + s.skip(1));
        }
    } else {
        assert(le(from_le(s), s.len()) =~= s);
    }
}

/// A number read from `n` bytes is below 256 to the `n`.
pub proof fn lemma_from_be_bound(s: Seq<u8>)
    ensures
        0 <= from_be(s) < pow256(s.len()),
        be(from_be(s), s.len()) == s,
    decreases s.len(),
{
    if s.len() > 0 {
        lemma_from_be_bound(s.drop_last());
        let r = from_be(s.drop_last());
        assert((s.last() + 256 * r) / 256 == r && (s.last() + 256 * r) % 256 == s.last() as int);
        assert(be(from_be(s), s.len()) =~= s) by {
            assert(s =~= s.drop_last().push(s.last()));
        }
    } else {
        assert(be(from_be(s), s.len()) =~= s);
    }
}

/// Bytes appended to two strings of one length leave the order to the strings
/// where these differ.
proof fn lemma_lex_push(a: Seq<u8>, b: Seq<u8>, x: u8, y: u8)
    requires
        a.len() == b.len(),
    ensures
        lex_lt(a.push(x), b.push(y)) == (lex_lt(a, b) || (a == b && x < y)),
    decreases a.len(),
{
    if a.len() == 0 {
        assert(a =~= b);
        assert(a.push(x).skip(1) =~= b.push(y).skip(1));
        lemma_lex_irreflexive(a.push(x).skip(1));
    } else {
        assert(a.push(x).skip(1) =~= a.skip(1).push(x));
        assert(b.push(y).skip(1) =~= b.skip(1).push(y));
        lemma_lex_push(a.skip(1), b.skip(1), x, y);
        if a[0] == b[0] && a.skip(1) == b.skip(1) {
            assert(a =~= seq![a[0]] + a.skip(1));
            assert(b =~= seq![b[0]] + b.skip(1));
            assert(a == b);
        }
    }
}

/// Big-endian digits of one width come in the order of the numbers.
pub proof fn lemma_be_monotone(x: int, y: int, n: nat)
    requires
        0 <= x < pow256(n),
        0 <= y < pow256(n),
    ensures
        lex_lt(be(x, n), be(y, n)) == (x < y),
    decreases n,
{
    if n > 0 {
        let m = (n - 1) as nat;
        assert(0 <= x / 256 < pow256(m) && 0 <= y / 256 < pow256(m)) by (nonlinear_arith)
            requires
                0 <= x < 256 * pow256(m),
                0 <= y < 256 * pow256(m),
        ;
        lemma_be_len(x / 256, m);
        lemma_be_len(y / 256, m);
        lemma_be_monotone(x / 256, y / 256, m);
        lemma_lex_push(be(x / 256, m), be(y / 256, m), (x % 256) as u8, (y % 256) as u8);
        lemma_be_roundtrip(x / 256, m);
        lemma_be_roundtrip(y / 256, m);
    }
}

/// 256 to the 8 is the number of values of a `u64`.
pub proof fn lemma_pow256_8()
    ensures
        pow256(8) == 0x1_0000_0000_0000_0000,
{
    reveal_with_fuel(pow256, 9);
}

/// The eight bytes of `x`, most significant first.
pub fn be_bytes(x: u64) -> (r: [u8; 8])
    ensures
        r@ == be(x as int, 8),
{
    let x1: u64 = x / 256;
    let x2: u64 = x1 / 256;
    let x3: u64 = x2 / 256;
    let x4: u64 = x3 / 256;
    let x5: u64 = x4 / 256;
    let x6: u64 = x5 / 256;
    let x7: u64 = x6 / 256;
    let r: [u8; 8] = [
        (x7 % 256) as u8,
        (x6 % 256) as u8,
        (x5 % 256) as u8,
        (x4 % 256) as u8,
        (x3 % 256) as u8,
        (x2 % 256) as u8,
        (x1 % 256) as u8,
        (x % 256) as u8,
    ];
    proof {
        reveal_with_fuel(be, 9);
        assert(r@ =~= be(x as int, 8));
    }
    r
}

/// The eight bytes of `x`, least significant first.
pub fn le_bytes(x: u64) -> (r: [u8; 8])
    ensures
        r@ == le(x as int, 8),
{
    let x1: u64 = x / 256;
    let x2: u64 = x1 / 256;
    let x3: u64 = x2 / 256;
    let x4: u64 = x3 / 256;
    let x5: u64 = x4 / 256;
    let x6: u64 = x5 / 256;
    let x7: u64 = x6 / 256;
    let r: [u8; 8] = [
        (x % 256) as u8,
        (x1 % 256) as u8,
        (x2 % 256) as u8,
        (x3 % 256) as u8,
        (x4 % 256) as u8,
        (x5 % 256) as u8,
        (x6 % 256) as u8,
        (x7 % 256) as u8,
    ];
    proof {
        reveal_with_fuel(le, 9);
        assert(r@ =~= le(x as int, 8));
    }
    r
}

/// The number in eight bytes, most significant first.
pub fn read_be(s: &[u8]) -> (r: u64)
    requires
        s@.len() == 8,
    ensures
        r == from_be(s@),
{
    let mut r: u64 = 0;
    let mut i: usize = 0;
    assert(s@.take(0) =~= Seq::<u8>::empty());
    proof {
        reveal_with_fuel(pow256, 9);
    }
    while i < 8
        invariant
            i <= 8,
            s@.len() == 8,
            r == from_be(s@.take(i as int)),
        decreases 8 - i,
    {
        proof {
            lemma_from_be_bound(s@.take(i as int));
            lemma_from_be_bound(s@.take(i + 1));
            assert(s@.take(i + 1).drop_last() =~= s@.take(i as int));
            reveal_with_fuel(pow256, 9);
        }
        r = r * 256 + s[i] as u64;
        i = i + 1;
    }
    assert(s@.take(8) =~= s@);
    r
}

/// The number in eight bytes, least significant first.
pub fn read_le(s: &[u8]) -> (r: u64)
    requires
        s@.len() == 8,
    ensures
        r == from_le(s@),
{
    let mut r: u64 = 0;
    let mut i: usize = 8;
    assert(s@.skip(8) =~= Seq::<u8>::empty());
    while i > 0
        invariant
            i <= 8,
            s@.len() == 8,
            r == from_le(s@.skip(i as int)),
        decreases i,
    {
        proof {
            lemma_from_le_bound(s@.skip(i as int));
            lemma_from_le_bound(s@.skip(i - 1));
            assert(s@.skip(i - 1).skip(1) =~= s@.skip(i as int));
            reveal_with_fuel(pow256, 9);
        }
        i = i - 1;
        r = s[i] as u64 + 256 * r;
    }
    assert(s@.skip(0) =~= s@);
    r
}

} // verus!
