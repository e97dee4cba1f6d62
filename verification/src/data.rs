//! Data: the values that cross the wire and rest in the store.

use crate::bytes::{bytes_eq, copy_bytes};
use crate::text::text_eq;
use ciborium::Value as Cbor;
use vstd::prelude::*;

verus! {

/// A CBOR data item. Integers are those of CBOR: `UInt(n)` is n, `NInt(n)` is
/// -1 - n. A float is held by its IEEE 754 bits.
#[derive(Debug)]
pub enum Data {
    Null,
    Bool(bool),
    UInt(u64),
    NInt(u64),
    Float(u64),
    Text(String),
    Bytes(Vec<u8>),
    Array(Vec<Data>),
    Dict(Vec<(Data, Data)>),
    Tag(u64, Box<Data>),
}

pub enum DataV {
    Null,
    Bool(bool),
    UInt(u64),
    NInt(u64),
    Float(u64),
    Text(Seq<char>),
    Bytes(Seq<u8>),
    Array(Seq<DataV>),
    Dict(Seq<(DataV, DataV)>),
    Tag(u64, Box<DataV>),
}

/// The items of a list.
pub open spec fn items_v(v: Vec<Data>) -> Seq<DataV> {
    v@.map_values(|d: Data| d@)
}

/// The pairs of a list.
pub open spec fn pairs_v(v: Vec<(Data, Data)>) -> Seq<(DataV, DataV)> {
    v@.map_values(|p: (Data, Data)| (p.0@, p.1@))
}

impl View for Data {
    type V = DataV;

    open spec fn view(&self) -> DataV
        decreases self, 0int,
    {
        match *self {
            Data::Null => DataV::Null,
            Data::Bool(b) => DataV::Bool(b),
            Data::UInt(n) => DataV::UInt(n),
            Data::NInt(n) => DataV::NInt(n),
            Data::Float(b) => DataV::Float(b),
            Data::Text(s) => DataV::Text(s@),
            Data::Bytes(b) => DataV::Bytes(b@),
            Data::Array(xs) => DataV::Array(first_items(xs, xs@.len() as int)),
            Data::Dict(m) => DataV::Dict(first_pairs(m, m@.len() as int)),
            Data::Tag(t, v) => DataV::Tag(t, Box::new((*v)@)),
        }
    }
}

/// The first `n` items of a list.
pub open spec fn first_items(v: Vec<Data>, n: int) -> Seq<DataV>
    decreases v, n,
{
    if n <= 0 || n > v@.len() {
        Seq::empty()
    } else {
        first_items(v, n - 1).push(v@[n - 1]@)
    }
}

/// The first `n` pairs of a list.
pub open spec fn first_pairs(v: Vec<(Data, Data)>, n: int) -> Seq<(DataV, DataV)>
    decreases v, n,
{
    if n <= 0 || n > v@.len() {
        Seq::empty()
    } else {
        first_pairs(v, n - 1).push((v@[n - 1].0@, v@[n - 1].1@))
    }
}

proof fn lemma_first_items(v: Vec<Data>, n: int)
    requires
        0 <= n <= v@.len(),
    ensures
        first_items(v, n) == items_v(v).take(n),
    decreases n,
{
    if n > 0 {
        lemma_first_items(v, n - 1);
        assert(items_v(v).take(n) =~= items_v(v).take(n - 1).push(v@[n - 1]@));
    } else {
        assert(items_v(v).take(n) =~= Seq::<DataV>::empty());
    }
}

proof fn lemma_first_pairs(v: Vec<(Data, Data)>, n: int)
    requires
        0 <= n <= v@.len(),
    ensures
        first_pairs(v, n) == pairs_v(v).take(n),
    decreases n,
{
    if n > 0 {
        lemma_first_pairs(v, n - 1);
        assert(pairs_v(v).take(n) =~= pairs_v(v).take(n - 1).push((v@[n - 1].0@, v@[n - 1].1@)));
    } else {
        assert(pairs_v(v).take(n) =~= Seq::<(DataV, DataV)>::empty());
    }
}

/// The view of an array holds the views of its items.
pub proof fn lemma_items(v: Vec<Data>)
    ensures
        Data::Array(v)@ == DataV::Array(items_v(v)),
        items_v(v).len() == v@.len(),
        forall|i: int| 0 <= i < v@.len() ==> #[trigger] items_v(v)[i] == v@[i]@,
{
    lemma_first_items(v, v@.len() as int);
    assert(items_v(v).take(v@.len() as int) =~= items_v(v));
}

/// The view of a map holds the views of its pairs.
pub proof fn lemma_pairs(v: Vec<(Data, Data)>)
    ensures
        Data::Dict(v)@ == DataV::Dict(pairs_v(v)),
        pairs_v(v).len() == v@.len(),
        forall|i: int| 0 <= i < v@.len() ==> #[trigger] pairs_v(v)[i] == (v@[i].0@, v@[i].1@),
{
    lemma_first_pairs(v, v@.len() as int);
    assert(pairs_v(v).take(v@.len() as int) =~= pairs_v(v));
}

/// An item pushed to a list is pushed to its view.
pub proof fn lemma_items_push(v: Vec<Data>, w: Vec<Data>, d: Data)
    requires
        w@ == v@.push(d),
    ensures
        items_v(w) == items_v(v).push(d@),
{
    lemma_items(v);
    lemma_items(w);
    assert(items_v(w) =~= items_v(v).push(d@)) by {
        assert forall|i: int| 0 <= i < w@.len() implies #[trigger] items_v(w)[i] == items_v(v).push(
            d@,
        )[i] by {
            if i < v@.len() {
                assert(items_v(v)[i] == v@[i]@);
            }
        }
    }
}

/// A pair pushed to a list is pushed to its view.
pub proof fn lemma_pairs_push(v: Vec<(Data, Data)>, w: Vec<(Data, Data)>, k: Data, d: Data)
    requires
        w@ == v@.push((k, d)),
    ensures
        pairs_v(w) == pairs_v(v).push((k@, d@)),
{
    lemma_pairs(v);
    lemma_pairs(w);
    assert(pairs_v(w) =~= pairs_v(v).push((k@, d@))) by {
        assert forall|i: int| 0 <= i < w@.len() implies #[trigger] pairs_v(w)[i] == pairs_v(v).push(
            (k@, d@),
        )[i] by {
            if i < v@.len() {
                assert(pairs_v(v)[i] == (v@[i].0@, v@[i].1@));
            }
        }
    }
}

/// The integer that `d` is.
pub open spec fn int_of(d: DataV) -> Option<int> {
    match d {
        DataV::UInt(n) => Some(n as int),
        DataV::NInt(n) => Some(-1 - n),
        _ => None,
    }
}

/// The data of the integer `i`.
pub open spec fn data_of_int(i: int) -> DataV {
    if i >= 0 {
        DataV::UInt(i as u64)
    } else {
        DataV::NInt((-1 - i) as u64)
    }
}

/// The data of an `i64`.
pub fn int_data(i: i64) -> (r: Data)
    ensures
        r@ == data_of_int(i as int),
{
    if i >= 0 {
        Data::UInt(i as u64)
    } else {
        Data::NInt((-1 - i as i128) as u64)
    }
}

/// A copy of `d`.
pub fn copy_data(d: &Data) -> (r: Data)
    ensures
        r@ == d@,
    decreases d, 0int,
{
    match d {
        Data::Null => Data::Null,
        Data::Bool(b) => Data::Bool(*b),
        Data::UInt(n) => Data::UInt(*n),
        Data::NInt(n) => Data::NInt(*n),
        Data::Float(b) => Data::Float(*b),
        Data::Text(s) => Data::Text(s.clone()),
        Data::Bytes(b) => Data::Bytes(copy_bytes(b.as_slice())),
        Data::Array(xs) => {
            let r: Vec<Data> = copy_items(xs);
            proof {
                lemma_items(*xs);
                lemma_items(r);
            }
            Data::Array(r)
        },
        Data::Dict(m) => {
            let r: Vec<(Data, Data)> = copy_pairs(m);
            proof {
                lemma_pairs(*m);
                lemma_pairs(r);
            }
            Data::Dict(r)
        },
        Data::Tag(t, v) => Data::Tag(*t, Box::new(copy_data(v))),
    }
}

/// A copy of `v`.
pub fn copy_items(v: &Vec<Data>) -> (r: Vec<Data>)
    ensures
        items_v(r) == items_v(*v),
        r@.len() == v@.len(),
    decreases v, 1int,
{
    let mut r: Vec<Data> = Vec::new();
    let mut i: usize = 0;
    while i < v.len()
        invariant
            i <= v@.len(),
            r@.len() == i,
            forall|j: int| 0 <= j < i ==> (#[trigger] r@[j])@ == v@[j]@,
        decreases v@.len() - i,
    {
        r.push(copy_data(&v[i]));
        i = i + 1;
    }
    proof {
        lemma_items(r);
        lemma_items(*v);
        assert forall|j: int| 0 <= j < v@.len() implies items_v(r)[j] == items_v(*v)[j] by {
            assert(r@[j]@ == v@[j]@);
        }
        assert(items_v(r) =~= items_v(*v));
    }
    r
}

/// A copy of `v`.
pub fn copy_pairs(v: &Vec<(Data, Data)>) -> (r: Vec<(Data, Data)>)
    ensures
        pairs_v(r) == pairs_v(*v),
        r@.len() == v@.len(),
    decreases v, 1int,
{
    let mut r: Vec<(Data, Data)> = Vec::new();
    let mut i: usize = 0;
    while i < v.len()
        invariant
            i <= v@.len(),
            r@.len() == i,
            forall|j: int|
                0 <= j < i ==> (#[trigger] r@[j]).0@ == v@[j].0@ && r@[j].1@ == v@[j].1@,
        decreases v@.len() - i,
    {
        let k: Data = copy_data(&v[i].0);
        let d: Data = copy_data(&v[i].1);
        r.push((k, d));
        i = i + 1;
    }
    proof {
        lemma_pairs(r);
        lemma_pairs(*v);
        assert forall|j: int| 0 <= j < v@.len() implies pairs_v(r)[j] == pairs_v(*v)[j] by {
            assert(r@[j].0@ == v@[j].0@);
        }
        assert(pairs_v(r) =~= pairs_v(*v));
    }
    r
}

/// `d` is the text `s`.
pub fn is_text(d: &Data, s: &str) -> (r: bool)
    ensures
        r == (d@ == DataV::Text(s@)),
{
    match d {
        Data::Text(t) => text_eq(t.as_str(), s),
        _ => false,
    }
}

/// The two items are the same.
pub fn same_data(a: &Data, b: &Data) -> (r: bool)
    ensures
        r == (a@ == b@),
    decreases a, 0int,
{
    match (a, b) {
        (Data::Null, Data::Null) => true,
        (Data::Bool(x), Data::Bool(y)) => *x == *y,
        (Data::UInt(x), Data::UInt(y)) => *x == *y,
        (Data::NInt(x), Data::NInt(y)) => *x == *y,
        (Data::Float(x), Data::Float(y)) => *x == *y,
        (Data::Text(x), Data::Text(y)) => text_eq(x.as_str(), y.as_str()),
        (Data::Bytes(x), Data::Bytes(y)) => bytes_eq(x.as_slice(), y.as_slice()),
        (Data::Array(x), Data::Array(y)) => {
            proof {
                lemma_items(*x);
                lemma_items(*y);
            }
            same_items(x, y)
        },
        (Data::Dict(x), Data::Dict(y)) => {
            proof {
                lemma_pairs(*x);
                lemma_pairs(*y);
            }
            same_pairs(x, y)
        },
        (Data::Tag(s, x), Data::Tag(t, y)) => *s == *t && same_data(x, y),
        _ => false,
    }
}

fn same_items(a: &Vec<Data>, b: &Vec<Data>) -> (r: bool)
    ensures
        r == (items_v(*a) == items_v(*b)),
    decreases a, 1int,
{
    proof {
        lemma_items(*a);
        lemma_items(*b);
    }
    if a.len() != b.len() {
        return false;
    }
    let mut i: usize = 0;
    while i < a.len()
        invariant
            i <= a@.len(),
            a@.len() == b@.len(),
            items_v(*a).len() == a@.len(),
            items_v(*b).len() == b@.len(),
            forall|j: int| 0 <= j < a@.len() ==> #[trigger] items_v(*a)[j] == a@[j]@,
            forall|j: int| 0 <= j < b@.len() ==> #[trigger] items_v(*b)[j] == b@[j]@,
            forall|j: int| 0 <= j < i ==> items_v(*a)[j] == items_v(*b)[j],
        decreases a@.len() - i,
    {
        if !same_data(&a[i], &b[i]) {
            assert(items_v(*a)[i as int] != items_v(*b)[i as int]);
            return false;
        }
        i = i + 1;
    }
    assert(items_v(*a) =~= items_v(*b));
    true
}

fn same_pairs(a: &Vec<(Data, Data)>, b: &Vec<(Data, Data)>) -> (r: bool)
    ensures
        r == (pairs_v(*a) == pairs_v(*b)),
    decreases a, 1int,
{
    proof {
        lemma_pairs(*a);
        lemma_pairs(*b);
    }
    if a.len() != b.len() {
        return false;
    }
    let mut i: usize = 0;
    while i < a.len()
        invariant
            i <= a@.len(),
            a@.len() == b@.len(),
            pairs_v(*a).len() == a@.len(),
            pairs_v(*b).len() == b@.len(),
            forall|j: int| 0 <= j < a@.len() ==> #[trigger] pairs_v(*a)[j] == (a@[j].0@, a@[j].1@),
            forall|j: int| 0 <= j < b@.len() ==> #[trigger] pairs_v(*b)[j] == (b@[j].0@, b@[j].1@),
            forall|j: int| 0 <= j < i ==> pairs_v(*a)[j] == pairs_v(*b)[j],
        decreases a@.len() - i,
    {
        if !same_data(&a[i].0, &b[i].0) || !same_data(&a[i].1, &b[i].1) {
            assert(pairs_v(*a)[i as int] != pairs_v(*b)[i as int]);
            return false;
        }
        i = i + 1;
    }
    assert(pairs_v(*a) =~= pairs_v(*b));
    true
}

/// An array of two items.
pub fn array2(a: Data, b: Data) -> (r: Data)
    ensures
        r@ == DataV::Array(seq![a@, b@]),
{
    let mut v: Vec<Data> = Vec::new();
    let ghost v0 = v;
    v.push(a);
    let ghost v1 = v;
    v.push(b);
    proof {
        lemma_items(v0);
        lemma_items_push(v0, v1, a);
        lemma_items_push(v1, v, b);
        lemma_items(v);
        assert(items_v(v) =~= seq![a@, b@]);
    }
    Data::Array(v)
}

/// An array of one item.
pub fn array1(a: Data) -> (r: Data)
    ensures
        r@ == DataV::Array(seq![a@]),
{
    let mut v: Vec<Data> = Vec::new();
    let ghost v0 = v;
    v.push(a);
    proof {
        lemma_items(v0);
        lemma_items_push(v0, v, a);
        lemma_items(v);
        assert(items_v(v) =~= seq![a@]);
    }
    Data::Array(v)
}

/// An array of three items.
pub fn array3(a: Data, b: Data, c: Data) -> (r: Data)
    ensures
        r@ == DataV::Array(seq![a@, b@, c@]),
{
    let mut v: Vec<Data> = Vec::new();
    let ghost v0 = v;
    v.push(a);
    let ghost v1 = v;
    v.push(b);
    let ghost v2 = v;
    v.push(c);
    proof {
        lemma_items(v0);
        lemma_items_push(v0, v1, a);
        lemma_items_push(v1, v2, b);
        lemma_items_push(v2, v, c);
        lemma_items(v);
        assert(items_v(v) =~= seq![a@, b@, c@]);
    }
    Data::Array(v)
}

/// `d` comes back from its encoding as it was: no NaN, no bignum tag, and no
/// more than `depth` arrays, maps and tags within one another.
pub open spec fn plain(d: DataV, depth: nat) -> bool
    decreases d,
{
    match d {
        DataV::Float(b) => !crate::value::is_nan(b),
        DataV::Array(xs) => depth > 0 && forall|i: int|
            0 <= i < xs.len() ==> plain(#[trigger] xs[i], (depth - 1) as nat),
        DataV::Dict(m) => depth > 0 && forall|i: int|
            0 <= i < m.len() ==> plain((#[trigger] m[i]).0, (depth - 1) as nat) && plain(
                m[i].1,
                (depth - 1) as nat,
            ),
        DataV::Tag(t, v) => depth > 0 && t != 2 && t != 3 && plain(*v, (depth - 1) as nat),
        _ => true,
    }
}

/// How deep the decoder reads.
pub open spec fn cbor_depth() -> nat {
    256
}

#[verifier::external_type_specification]
#[verifier::external_body]
pub struct ExCbor(Cbor);

/// `ciborium::from_reader` on the nine bytes of a double: the float with the
/// given bits.
#[verifier::external_body]
pub(crate) fn outer_float(bits: u64) -> Cbor {
    ciborium::from_reader(&[&[0xfb][..], &bits.to_be_bytes()[..]].concat()[..]).unwrap()
}

/// The integer below zero that is stored as `n`.
fn below_zero(n: u64) -> (r: i128)
    ensures
        r == -1 - n,
{
    -1 - n as i128
}

/// The data of an integer in the range of CBOR.
fn wide_data(i: i128) -> (r: Data)
    requires
        -0x1_0000_0000_0000_0000 <= i < 0x1_0000_0000_0000_0000,
    ensures
        r@ == data_of_int(i as int),
{
    if i >= 0 {
        Data::UInt(i as u64)
    } else {
        Data::NInt((-1 - i) as u64)
    }
}

/// The `ciborium::Value` of an integer in the range of CBOR, which it holds as
/// an `Integer`.
#[verifier::external_body]
fn outer_integer(i: i128) -> Cbor
    requires
        -0x1_0000_0000_0000_0000 <= i < 0x1_0000_0000_0000_0000,
{
    Cbor::Integer(i.try_into().unwrap())
}

/// The data of the integer that a `ciborium::Value` holds; an `Integer` is in
/// the range of CBOR.
#[verifier::external_body]
fn of_integer(v: &Cbor) -> Data {
    match v.as_integer() {
        Some(i) => wide_data(i.into()),
        None => Data::Null,
    }
}

/// The pair of `ciborium::Value`s with the same contents.
#[verifier::external_body]
fn outer_pair(p: &(Data, Data)) -> (Cbor, Cbor) {
    (to_cbor(&p.0), to_cbor(&p.1))
}

/// The pair with the contents of two `ciborium::Value`s.
#[verifier::external_body]
fn of_pair(p: &(Cbor, Cbor)) -> (Data, Data) {
    (of_cbor(&p.0), of_cbor(&p.1))
}

/// The `ciborium::Value` with the same contents.
#[verifier::external_body]
pub(crate) fn to_cbor(d: &Data) -> Cbor {
    match d {
        Data::Null => Cbor::Null,
        Data::Bool(b) => Cbor::Bool(*b),
        Data::UInt(n) => Cbor::Integer((*n).into()),
        Data::NInt(n) => outer_integer(below_zero(*n)),
        Data::Float(b) => outer_float(*b),
        Data::Text(s) => Cbor::Text(s.clone()),
        Data::Bytes(b) => Cbor::Bytes(b.clone()),
        Data::Array(xs) => Cbor::Array(xs.iter().map(to_cbor).collect()),
        Data::Dict(m) => Cbor::Map(m.iter().map(outer_pair).collect()),
        Data::Tag(t, v) => Cbor::Tag(*t, Box::new(to_cbor(v))),
    }
}

/// The data with the contents of a `ciborium::Value`.
#[verifier::external_body]
fn of_cbor(v: &Cbor) -> Data {
    match v {
        Cbor::Bool(b) => Data::Bool(*b),
        Cbor::Integer(_) => of_integer(v),
        Cbor::Float(x) => Data::Float(x.to_bits()),
        Cbor::Text(s) => Data::Text(s.clone()),
        Cbor::Bytes(b) => Data::Bytes(b.clone()),
        Cbor::Array(xs) => Data::Array(xs.iter().map(of_cbor).collect()),
        Cbor::Map(m) => Data::Dict(m.iter().map(of_pair).collect()),
        Cbor::Tag(t, v) => Data::Tag(*t, Box::new(of_cbor(v))),
        _ => Data::Null,
    }
}

/// The CBOR encoding of `d`.
pub uninterp spec fn cbor_bytes(d: DataV) -> Seq<u8>;

/// The diagnostic text of `d`.
pub uninterp spec fn debug_of_data(d: DataV) -> Seq<char>;

/// The `Debug` text of the `ciborium::Value` with the contents of `d`, which is
/// named.
#[verifier::external_body]
pub(crate) fn debug_data(d: &Data) -> (r: String)
    ensures
        r@ == debug_of_data(d@),
{
    format!("{:?}", to_cbor(d))
}

/// What the bytes `b` decode to, or the decoder's message.
pub uninterp spec fn cbor_read(b: Seq<u8>) -> Result<DataV, Seq<char>>;

/// The bytes `b` decode to `d`.
pub open spec fn reads_as(b: Seq<u8>, d: DataV) -> bool {
    match cbor_read(b) {
        Ok(v) => v == d,
        Err(_) => false,
    }
}

/// `ciborium::into_writer` on the item. The encoding is named; of it is said
/// that `ciborium::from_reader` reads the item back, where it holds no NaN and
/// no bignum tag and nests no deeper than the decoder reads.
#[verifier::external_body]
pub(crate) fn encode(d: &Data) -> (r: Vec<u8>)
    ensures
        r@ == cbor_bytes(d@),
        plain(d@, cbor_depth()) ==> reads_as(r@, d@),
{
    let mut out = Vec::new();
    ciborium::into_writer(&to_cbor(d), &mut out).unwrap();
    out
}

/// `ciborium::from_reader`: the item at the front of `b`, or the decoder's
/// message; both are named.
#[verifier::external_body]
pub(crate) fn decode(b: &[u8]) -> (r: Result<Data, String>)
    ensures
        match (r, cbor_read(b@)) {
            (Ok(d), Ok(v)) => d@ == v,
            (Err(m), Err(w)) => m@ == w,
            _ => false,
        },
{
    ciborium::from_reader::<Cbor, &[u8]>(b).map(|v| of_cbor(&v)).map_err(|e| e.to_string())
}

} // verus!
