//! Type-level schema markers, and the numbers that sums accumulate.
//!
//! A *schema* describes the shape of a durable location at the type level. It
//! is never instantiated; it only parameterizes a path, so that only legal
//! steps compile.

use crate::bytes::{
    copy_range, extend_bytes, from_le, le, le_bytes, lemma_from_le_bound, lemma_le_len,
    lemma_le_roundtrip, lemma_pow256_8, read_le,
};
use crate::float::{computed, FactV, FloatTable};
use crate::ir::BinOp;
use crate::value::{Ask, AskV, Try, TryV};
use core::marker::PhantomData;
use vstd::prelude::*;

verus! {

/// Marker trait of every durable schema.
pub trait Schema {

}

/// A single data item.
pub struct Leaf;

impl Schema for Leaf {

}

/// A map from data items to sub-schema `V`.
pub struct Dict<V>(pub PhantomData<V>);

impl<V: Schema> Schema for Dict<V> {

}

/// An index-addressed growable sequence of sub-schema `V`.
pub struct List<V>(pub PhantomData<V>);

impl<V: Schema> Schema for List<V> {

}

/// A double-ended queue of sub-schema `V`.
pub struct Deque<V>(pub PhantomData<V>);

impl<V: Schema> Schema for Deque<V> {

}

/// A numeric accumulator, updated with blind, associative merge writes.
pub struct Sum<N>(pub PhantomData<N>);

impl<N: Summable> Schema for Sum<N> {

}

/// A float, by its IEEE 754 bits.
#[derive(Clone, Copy, Debug, PartialEq, Eq, Structural)]
pub struct Real(pub u64);

/// Numbers that can back a `Sum`.
///
/// Stored as a one-byte type tag and eight little-endian bytes. The tag lets
/// one merge operator fold accumulators of every kind.
pub trait Summable: Copy {
    /// The type tag, different for each kind of number.
    spec fn tag_of() -> u8;

    /// The number as 64 bits.
    spec fn bits_of(self) -> u64;

    /// The number with the given bits.
    spec fn number_of(bits: u64) -> Self;

    /// The type tag.
    fn tag() -> (r: u8)
        ensures
            r == Self::tag_of(),
    ;

    /// The additive identity.
    fn zero() -> (r: Self)
        ensures
            r == Self::number_of(0),
    ;

    /// The number as 64 bits.
    fn to_bits(self) -> (r: u64)
        ensures
            r == self.bits_of(),
    ;

    /// The number with the given bits.
    fn from_bits(bits: u64) -> (r: Self)
        ensures
            r == Self::number_of(bits),
    ;

    /// The bits are those of one number.
    proof fn lemma_bits(self)
        ensures
            Self::number_of(self.bits_of()) == self,
    ;
}

impl Summable for Real {
    open spec fn tag_of() -> u8 {
        0
    }

    open spec fn bits_of(self) -> u64 {
        self.0
    }

    open spec fn number_of(bits: u64) -> Self {
        Real(bits)
    }

    fn tag() -> (r: u8) {
        0
    }

    fn zero() -> (r: Self) {
        Real(0)
    }

    fn to_bits(self) -> (r: u64) {
        self.0
    }

    fn from_bits(bits: u64) -> (r: Self) {
        Real(bits)
    }

    proof fn lemma_bits(self) {
    }
}

/// The two's complement bits of `i`.
pub open spec fn twos(i: int) -> u64 {
    if i >= 0 {
        i as u64
    } else {
        (i + 0x1_0000_0000_0000_0000) as u64
    }
}

/// The integer with the two's complement bits `b`.
pub open spec fn signed(b: u64) -> i64 {
    if b < 0x8000_0000_0000_0000 {
        b as i64
    } else {
        (b - 0x1_0000_0000_0000_0000) as i64
    }
}

/// The two's complement bits of `i`.
pub fn i64_bits(i: i64) -> (r: u64)
    ensures
        r == twos(i as int),
{
    if i >= 0 {
        i as u64
    } else {
        (i as i128 + 0x1_0000_0000_0000_0000) as u64
    }
}

/// The integer with the two's complement bits `b`.
pub fn bits_i64(b: u64) -> (r: i64)
    ensures
        r == signed(b),
{
    if b < 0x8000_0000_0000_0000 {
        b as i64
    } else {
        (b as i128 - 0x1_0000_0000_0000_0000) as i64
    }
}

impl Summable for i64 {
    open spec fn tag_of() -> u8 {
        1
    }

    open spec fn bits_of(self) -> u64 {
        twos(self as int)
    }

    open spec fn number_of(bits: u64) -> Self {
        signed(bits)
    }

    fn tag() -> (r: u8) {
        1
    }

    fn zero() -> (r: Self) {
        0
    }

    fn to_bits(self) -> (r: u64) {
        i64_bits(self)
    }

    fn from_bits(bits: u64) -> (r: Self) {
        bits_i64(bits)
    }

    proof fn lemma_bits(self) {
    }
}

impl Summable for u64 {
    open spec fn tag_of() -> u8 {
        2
    }

    open spec fn bits_of(self) -> u64 {
        self
    }

    open spec fn number_of(bits: u64) -> Self {
        bits
    }

    fn tag() -> (r: u8) {
        2
    }

    fn zero() -> (r: Self) {
        0
    }

    fn to_bits(self) -> (r: u64) {
        self
    }

    fn from_bits(bits: u64) -> (r: Self) {
        bits
    }

    proof fn lemma_bits(self) {
    }
}

/// The stored form of an accumulator: the tag, then eight bytes.
pub open spec fn sum_bytes(tag: u8, bits: u64) -> Seq<u8> {
    seq![tag] + le(bits as int, 8)
}

/// The tag and bits that nine bytes store; none where they are not nine.
pub open spec fn sum_of(b: Seq<u8>) -> Option<(u8, u64)> {
    if b.len() == 9 {
        Some((b[0], from_le(b.skip(1)) as u64))
    } else {
        None
    }
}

/// The tag and bits of an accumulator.
#[derive(Clone, Copy, Debug, PartialEq, Eq, Structural)]
pub struct Tagged {
    pub tag: u8,
    pub bits: u64,
}

/// Reading an accumulator gives what was stored.
pub proof fn law_sum_roundtrip(tag: u8, bits: u64)
    ensures
        sum_bytes(tag, bits).len() == 9,
        sum_of(sum_bytes(tag, bits)) == Some((tag, bits)),
{
    lemma_le_len(bits as int, 8);
    lemma_pow256_8();
    lemma_le_roundtrip(bits as int, 8);
    assert(sum_bytes(tag, bits).skip(1) =~= le(bits as int, 8));
}

/// The stored form of an accumulator.
pub fn put_sum(tag: u8, bits: u64) -> (r: Vec<u8>)
    ensures
        r@ == sum_bytes(tag, bits),
{
    let mut out: Vec<u8> = Vec::new();
    out.push(tag);
    let b = le_bytes(bits);
    extend_bytes(&mut out, &b);
    assert(out@ =~= sum_bytes(tag, bits));
    out
}

/// The accumulator in `b`.
pub fn read_sum(b: &[u8]) -> (r: Option<Tagged>)
    ensures
        r == (match sum_of(b@) {
            Some((tag, bits)) => Some(Tagged { tag, bits }),
            None => None,
        }),
{
    if b.len() != 9 {
        return None;
    }
    let p: Vec<u8> = copy_range(b, 1, 9);
    assert(p@ =~= b@.skip(1));
    proof {
        lemma_from_le_bound(p@);
        lemma_pow256_8();
    }
    Some(Tagged { tag: b[0], bits: read_le(p.as_slice()) })
}

/// Encode a number to its stored form.
pub fn encode_sum<N: Summable>(value: N) -> (r: Vec<u8>)
    ensures
        r@ == sum_bytes(N::tag_of(), value.bits_of()),
{
    put_sum(N::tag(), value.to_bits())
}

/// Decode an accumulator, checking the tag.
pub fn decode_sum<N: Summable>(bytes: &[u8]) -> (r: Option<N>)
    ensures
        r == (match sum_of(bytes@) {
            Some((tag, bits)) => if tag == N::tag_of() {
                Some(N::number_of(bits))
            } else {
                None
            },
            None => None,
        }),
{
    match read_sum(bytes) {
        Some(t) => if t.tag == N::tag() {
            Some(N::from_bits(t.bits))
        } else {
            None
        },
        None => None,
    }
}

/// Decoding gives the number that was encoded; a number of another kind is
/// refused.
pub proof fn law_encode_decode_sum<N: Summable, M: Summable>(value: N)
    ensures
        sum_of(sum_bytes(N::tag_of(), value.bits_of())) == Some((N::tag_of(), value.bits_of())),
        N::number_of(value.bits_of()) == value,
        N::tag_of() != M::tag_of() ==> (sum_of(sum_bytes(N::tag_of(), value.bits_of()))->Some_0).0
            != M::tag_of(),
{
    law_sum_roundtrip(N::tag_of(), value.bits_of());
    value.lemma_bits();
}

/// The sum of two numbers of the kind `tag`: integers wrap around, floats by
/// what is known of them. None for a tag that stands for no kind.
pub open spec fn combined(f: Seq<FactV>, tag: u8, a: u64, b: u64) -> TryV<Option<u64>> {
    if tag == 0 {
        match computed(f, BinOp::Add, a, b) {
            Some(c) => TryV::Done(Some(c)),
            None => TryV::Need(AskV::Arith(BinOp::Add, a, b)),
        }
    } else if tag == 1 || tag == 2 {
        TryV::Done(Some(((a + b) % 0x1_0000_0000_0000_0000) as u64))
    } else {
        TryV::Done(None)
    }
}

/// The accumulator once an operand is folded in. An operand of another kind, or
/// a malformed one, is skipped.
pub open spec fn folded(f: Seq<FactV>, acc: Option<Tagged>, operand: Seq<u8>) -> TryV<
    Option<Tagged>,
> {
    match sum_of(operand) {
        None => TryV::Done(acc),
        Some((tag, bits)) => match acc {
            None => TryV::Done(Some(Tagged { tag, bits })),
            Some(a) => if a.tag != tag {
                TryV::Done(acc)
            } else {
                match combined(f, tag, a.bits, bits) {
                    TryV::Done(Some(c)) => TryV::Done(Some(Tagged { tag, bits: c })),
                    TryV::Done(None) => TryV::Done(acc),
                    TryV::Fail(m) => TryV::Fail(m),
                    TryV::Need(q) => TryV::Need(q),
                }
            },
        },
    }
}

/// Fold one stored operand into a running accumulator. Operands of another kind
/// are skipped, which keeps compaction resilient to stray bytes. Where two
/// floats are to be added of which nothing is known, the sum is asked for.
pub fn fold_tagged(floats: &FloatTable, acc: Option<Tagged>, operand: &[u8]) -> (r: Try<
    Option<Tagged>,
>)
    ensures
        match (r, folded(floats@, acc, operand@)) {
            (Try::Done(x), TryV::Done(y)) => x == y,
            (Try::Fail(x), TryV::Fail(y)) => x@ == y,
            (Try::Need(x), TryV::Need(y)) => x@ == y,
            _ => false,
        },
{
    match read_sum(operand) {
        None => Try::Done(acc),
        Some(op) => match acc {
            None => Try::Done(Some(op)),
            Some(a) => {
                if a.tag != op.tag {
                    return Try::Done(acc);
                }
                if op.tag == 0 {
                    match floats.computed(BinOp::Add, a.bits, op.bits) {
                        Some(c) => Try::Done(Some(Tagged { tag: op.tag, bits: c })),
                        None => Try::Need(Ask::Arith(BinOp::Add, a.bits, op.bits)),
                    }
                } else if op.tag == 1 || op.tag == 2 {
                    Try::Done(Some(Tagged { tag: op.tag, bits: a.bits.wrapping_add(op.bits) }))
                } else {
                    Try::Done(acc)
                }
            },
        },
    }
}

/// The accumulator in the stored value, if it is well-formed.
pub open spec fn starting(existing: Option<Seq<u8>>) -> Option<Tagged> {
    match existing {
        Some(b) => match sum_of(b) {
            Some((tag, bits)) => Some(Tagged { tag, bits }),
            None => None,
        },
        None => None,
    }
}

/// The accumulator once the first `n` operands are folded in.
pub open spec fn folded_all(
    f: Seq<FactV>,
    acc: Option<Tagged>,
    operands: Seq<Seq<u8>>,
    n: int,
) -> TryV<Option<Tagged>>
    decreases n,
{
    if n <= 0 || n > operands.len() {
        TryV::Done(acc)
    } else {
        match folded_all(f, acc, operands, n - 1) {
            TryV::Done(a) => folded(f, a, operands[n - 1]),
            other => other,
        }
    }
}

/// The stored form of an accumulator.
pub open spec fn stored(acc: Option<Tagged>) -> Option<Seq<u8>> {
    match acc {
        Some(a) => Some(sum_bytes(a.tag, a.bits)),
        None => None,
    }
}

/// The value of a key once `operand` is merged into it.
pub open spec fn merged(f: Seq<FactV>, existing: Option<Seq<u8>>, operand: Seq<u8>) -> TryV<
    Option<Seq<u8>>,
> {
    match folded(f, starting(existing), operand) {
        TryV::Done(acc) => TryV::Done(stored(acc)),
        TryV::Fail(m) => TryV::Fail(m),
        TryV::Need(q) => TryV::Need(q),
    }
}

/// The merge operator that every durable database folds `Sum` accumulators
/// with: the existing value, then the operands in turn.
pub fn sum_merge(floats: &FloatTable, existing: Option<&[u8]>, operands: &Vec<Vec<u8>>) -> (r: Try<
    Option<Vec<u8>>,
>)
    ensures
        match (
            r,
            folded_all(
                floats@,
                starting(
                    match existing {
                        Some(b) => Some(b@),
                        None => None,
                    },
                ),
                operands_v(operands@),
                operands@.len() as int,
            ),
        ) {
            (Try::Done(x), TryV::Done(y)) => match (x, stored(y)) {
                (Some(v), Some(w)) => v@ == w,
                (None, None) => true,
                _ => false,
            },
            (Try::Fail(x), TryV::Fail(y)) => x@ == y,
            (Try::Need(x), TryV::Need(y)) => x@ == y,
            _ => false,
        },
{
    let mut acc: Option<Tagged> = match existing {
        Some(b) => read_sum(b),
        None => None,
    };
    let ghost start = acc;
    let ghost ops = operands_v(operands@);
    let mut i: usize = 0;
    while i < operands.len()
        invariant
            i <= operands@.len(),
            ops == operands_v(operands@),
            start == starting(
                match existing {
                    Some(b) => Some(b@),
                    None => None,
                },
            ),
            folded_all(floats@, start, ops, i as int) == TryV::Done(acc),
        decreases operands@.len() - i,
    {
        assert(ops[i as int] == operands@[i as int]@);
        match fold_tagged(floats, acc, operands[i].as_slice()) {
            Try::Done(a) => {
                acc = a;
            },
            Try::Fail(m) => {
                proof {
                    lemma_folded_stop(floats@, start, ops, i + 1, ops.len() as int);
                }
                return Try::Fail(m);
            },
            Try::Need(q) => {
                proof {
                    lemma_folded_stop(floats@, start, ops, i + 1, ops.len() as int);
                }
                return Try::Need(q);
            },
        }
        i = i + 1;
    }
    match acc {
        Some(a) => Try::Done(Some(put_sum(a.tag, a.bits))),
        None => Try::Done(None),
    }
}

/// The operands of `v`.
pub open spec fn operands_v(v: Seq<Vec<u8>>) -> Seq<Seq<u8>> {
    v.map_values(|b: Vec<u8>| b@)
}

proof fn lemma_folded_stop(
    f: Seq<FactV>,
    acc: Option<Tagged>,
    operands: Seq<Seq<u8>>,
    i: int,
    n: int,
)
    requires
        0 <= i <= n <= operands.len(),
        !(folded_all(f, acc, operands, i) is Done),
    ensures
        folded_all(f, acc, operands, n) == folded_all(f, acc, operands, i),
    decreases n,
{
    if i < n {
        lemma_folded_stop(f, acc, operands, i, n - 1);
    }
}

/// The total of the first `n` numbers.
pub open spec fn total(deltas: Seq<i64>, n: int) -> int
    decreases n,
{
    if n <= 0 || n > deltas.len() {
        0
    } else {
        total(deltas, n - 1) + deltas[n - 1]
    }
}

/// The operands that add `deltas`.
pub open spec fn delta_operands(deltas: Seq<i64>) -> Seq<Seq<u8>> {
    Seq::new(deltas.len(), |i: int| sum_bytes(1, twos(deltas[i] as int)))
}

/// A sum of integers holds the total of what was added to it, as far as 64 bits
/// hold it: folding the operands of `deltas` into nothing leaves their total.
pub proof fn law_sum_is_total(f: Seq<FactV>, deltas: Seq<i64>, n: int)
    requires
        0 < n <= deltas.len(),
    ensures
        folded_all(f, None, delta_operands(deltas), n) == TryV::Done(
            Some(
                Tagged {
                    tag: 1,
                    bits: (total(deltas, n) % 0x1_0000_0000_0000_0000) as u64,
                },
            ),
        ),
    decreases n,
{
    let ops = delta_operands(deltas);
    let m: int = 0x1_0000_0000_0000_0000;
    let d = deltas[n - 1];
    law_sum_roundtrip(1, twos(d as int));
    assert(ops[n - 1] == sum_bytes(1, twos(d as int)));
    assert(twos(d as int) == d as int % m) by {
        if d < 0 {
            vstd::arithmetic::div_mod::lemma_fundamental_div_mod_converse(d as int, m, -1, d + m);
        } else {
            vstd::arithmetic::div_mod::lemma_small_mod(d as nat, m as nat);
        }
    }
    if n == 1 {
        assert(folded_all(f, None, ops, 0) == TryV::<Option<Tagged>>::Done(None));
        assert(total(deltas, 1) == total(deltas, 0) + d);
        assert(total(deltas, 0) == 0);
    } else {
        law_sum_is_total(f, deltas, n - 1);
        let t = total(deltas, n - 1);
        vstd::arithmetic::div_mod::lemma_add_mod_noop(t, d as int, m);
        assert((t % m + d as int % m) % m == (t + d) % m);
    }
}

} // verus!
