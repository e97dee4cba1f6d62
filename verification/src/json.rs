//! JSON, and how data crosses into it.

use crate::data::{
    data_of_int, int_data, items_v, lemma_items, lemma_items_push, lemma_pairs, lemma_pairs_push,
    outer_float, pairs_v, Data, DataV,
};
use crate::text::{text_before, text_eq, text_lt};
use ciborium::Value as Cbor;
use serde_json::Value as OuterJson;
use vstd::prelude::*;
use vstd::string::*;

verus! {

/// A JSON value. `Int` holds the integers that fit in 64 bits with a sign,
/// `UInt` those above; a float is held by its IEEE 754 bits. The members of an
/// object are in the order of their keys.
#[derive(Debug)]
pub enum Json {
    Null,
    Bool(bool),
    Int(i64),
    UInt(u64),
    Float(u64),
    Str(String),
    Array(Vec<Json>),
    Object(Vec<(String, Json)>),
}

/// The model of a JSON value.
pub enum JsonV {
    Null,
    Bool(bool),
    Int(i64),
    UInt(u64),
    Float(u64),
    Str(Seq<char>),
    Array(Seq<JsonV>),
    Object(Seq<(Seq<char>, JsonV)>),
}

/// The values of a list.
pub open spec fn values_v(v: Vec<Json>) -> Seq<JsonV> {
    v@.map_values(|d: Json| d@)
}

/// The members of a list.
pub open spec fn members_v(v: Vec<(String, Json)>) -> Seq<(Seq<char>, JsonV)> {
    v@.map_values(|p: (String, Json)| (p.0@, p.1@))
}

impl View for Json {
    type V = JsonV;

    open spec fn view(&self) -> JsonV
        decreases self, 0int,
    {
        match *self {
            Json::Null => JsonV::Null,
            Json::Bool(b) => JsonV::Bool(b),
            Json::Int(n) => JsonV::Int(n),
            Json::UInt(n) => JsonV::UInt(n),
            Json::Float(b) => JsonV::Float(b),
            Json::Str(s) => JsonV::Str(s@),
            Json::Array(xs) => JsonV::Array(first_values(xs, xs@.len() as int)),
            Json::Object(m) => JsonV::Object(first_members(m, m@.len() as int)),
        }
    }
}

/// The first `n` values of a list.
pub open spec fn first_values(v: Vec<Json>, n: int) -> Seq<JsonV>
    decreases v, n,
{
    if n <= 0 || n > v@.len() {
        Seq::empty()
    } else {
        first_values(v, n - 1).push(v@[n - 1]@)
    }
}

/// The first `n` members of a list.
pub open spec fn first_members(v: Vec<(String, Json)>, n: int) -> Seq<(Seq<char>, JsonV)>
    decreases v, n,
{
    if n <= 0 || n > v@.len() {
        Seq::empty()
    } else {
        first_members(v, n - 1).push((v@[n - 1].0@, v@[n - 1].1@))
    }
}

proof fn lemma_first_values(v: Vec<Json>, n: int)
    requires
        0 <= n <= v@.len(),
    ensures
        first_values(v, n) == values_v(v).take(n),
    decreases n,
{
    if n > 0 {
        lemma_first_values(v, n - 1);
        assert(values_v(v).take(n) =~= values_v(v).take(n - 1).push(v@[n - 1]@));
    } else {
        assert(values_v(v).take(n) =~= Seq::<JsonV>::empty());
    }
}

proof fn lemma_first_members(v: Vec<(String, Json)>, n: int)
    requires
        0 <= n <= v@.len(),
    ensures
        first_members(v, n) == members_v(v).take(n),
    decreases n,
{
    if n > 0 {
        lemma_first_members(v, n - 1);
        assert(members_v(v).take(n) =~= members_v(v).take(n - 1).push(
            (v@[n - 1].0@, v@[n - 1].1@),
        ));
    } else {
        assert(members_v(v).take(n) =~= Seq::<(Seq<char>, JsonV)>::empty());
    }
}

/// The view of an array holds the views of its values.
pub proof fn lemma_values(v: Vec<Json>)
    ensures
        Json::Array(v)@ == JsonV::Array(values_v(v)),
        values_v(v).len() == v@.len(),
        forall|i: int| 0 <= i < v@.len() ==> #[trigger] values_v(v)[i] == v@[i]@,
{
    lemma_first_values(v, v@.len() as int);
    assert(values_v(v).take(v@.len() as int) =~= values_v(v));
}

/// The view of an object holds the views of its members.
pub proof fn lemma_members(v: Vec<(String, Json)>)
    ensures
        Json::Object(v)@ == JsonV::Object(members_v(v)),
        members_v(v).len() == v@.len(),
        forall|i: int| 0 <= i < v@.len() ==> #[trigger] members_v(v)[i] == (v@[i].0@, v@[i].1@),
{
    lemma_first_members(v, v@.len() as int);
    assert(members_v(v).take(v@.len() as int) =~= members_v(v));
}

/// A value pushed to a list is pushed to its view.
pub proof fn lemma_values_push(v: Vec<Json>, w: Vec<Json>, d: Json)
    requires
        w@ == v@.push(d),
    ensures
        values_v(w) == values_v(v).push(d@),
{
    lemma_values(v);
    lemma_values(w);
    assert(values_v(w) =~= values_v(v).push(d@)) by {
        assert forall|i: int| 0 <= i < w@.len() implies #[trigger] values_v(w)[i] == values_v(
            v,
        ).push(d@)[i] by {
            if i < v@.len() {
                assert(values_v(v)[i] == v@[i]@);
            }
        }
    }
}

/// Where the key `k` belongs among the members from `i` on.
pub open spec fn member_place(m: Seq<(Seq<char>, JsonV)>, k: Seq<char>, i: int) -> int
    decreases m.len() - i,
{
    if i < 0 || i >= m.len() || !text_before(m[i].0, k) {
        i
    } else {
        member_place(m, k, i + 1)
    }
}

/// The members with `k` set to `v`.
pub open spec fn with_member(m: Seq<(Seq<char>, JsonV)>, k: Seq<char>, v: JsonV) -> Seq<
    (Seq<char>, JsonV),
> {
    let p = member_place(m, k, 0);
    if p < m.len() && m[p].0 == k {
        m.update(p, (k, v))
    } else {
        m.insert(p, (k, v))
    }
}

/// The place of the member `k` from `i` on; the length where there is none.
pub open spec fn member_at(m: Seq<(Seq<char>, JsonV)>, k: Seq<char>, i: int) -> int
    decreases m.len() - i,
{
    if i < 0 || i >= m.len() || m[i].0 == k {
        i
    } else {
        member_at(m, k, i + 1)
    }
}

/// The member `k`; null where there is none.
pub open spec fn member_of(v: JsonV, k: Seq<char>) -> JsonV {
    match v {
        JsonV::Object(m) => {
            let p = member_at(m, k, 0);
            if p < m.len() {
                m[p].1
            } else {
                JsonV::Null
            }
        },
        _ => JsonV::Null,
    }
}

/// Sets the member `k`.
pub fn set_member(m: &mut Vec<(String, Json)>, k: &str, v: Json)
    ensures
        members_v(*final(m)) == with_member(members_v(*old(m)), k@, v@),
{
    let ghost before = members_v(*m);
    proof {
        lemma_members(*m);
    }
    let mut i: usize = 0;
    while i < m.len() && text_lt(m[i].0.as_str(), k)
        invariant
            *m == *old(m),
            before == members_v(*m),
            before.len() == m@.len(),
            forall|j: int| 0 <= j < m@.len() ==> #[trigger] before[j] == (m@[j].0@, m@[j].1@),
            i <= m@.len(),
            member_place(before, k@, 0) == member_place(before, k@, i as int),
        decreases m@.len() - i,
    {
        assert(before[i as int] == (m@[i as int].0@, m@[i as int].1@));
        i = i + 1;
    }
    if i < m.len() {
        assert(before[i as int] == (m@[i as int].0@, m@[i as int].1@));
    }
    if i < m.len() && text_eq(m[i].0.as_str(), k) {
        m.set(i, (k.to_owned(), v));
    } else {
        m.insert(i, (k.to_owned(), v));
    }
    proof {
        lemma_members(*m);
        let want = with_member(before, k@, v@);
        assert forall|j: int| 0 <= j < want.len() implies members_v(*m)[j] == want[j] by {
            assert(members_v(*m)[j] == (m@[j].0@, m@[j].1@));
            if j < i {
                assert(before[j] == (old(m)@[j].0@, old(m)@[j].1@));
            } else if j > i && want.len() == before.len() {
                assert(before[j] == (old(m)@[j].0@, old(m)@[j].1@));
            } else if j > i {
                assert(before[j - 1] == (old(m)@[j - 1].0@, old(m)@[j - 1].1@));
            }
        }
        assert(members_v(*m) =~= want);
    }
}

/// A copy of the value.
pub fn copy_json(v: &Json) -> (r: Json)
    ensures
        r@ == v@,
    decreases v, 0int,
{
    match v {
        Json::Null => Json::Null,
        Json::Bool(b) => Json::Bool(*b),
        Json::Int(n) => Json::Int(*n),
        Json::UInt(n) => Json::UInt(*n),
        Json::Float(b) => Json::Float(*b),
        Json::Str(s) => Json::Str(s.clone()),
        Json::Array(xs) => {
            let r: Vec<Json> = copy_values(xs);
            proof {
                lemma_values(*xs);
                lemma_values(r);
            }
            Json::Array(r)
        },
        Json::Object(m) => {
            let r: Vec<(String, Json)> = copy_members(m);
            proof {
                lemma_members(*m);
                lemma_members(r);
            }
            Json::Object(r)
        },
    }
}

fn copy_values(v: &Vec<Json>) -> (r: Vec<Json>)
    ensures
        values_v(r) == values_v(*v),
    decreases v, 1int,
{
    let mut r: Vec<Json> = Vec::new();
    let mut i: usize = 0;
    while i < v.len()
        invariant
            i <= v@.len(),
            r@.len() == i,
            forall|j: int| 0 <= j < i ==> (#[trigger] r@[j])@ == v@[j]@,
        decreases v@.len() - i,
    {
        r.push(copy_json(&v[i]));
        i = i + 1;
    }
    proof {
        lemma_values(r);
        lemma_values(*v);
        assert forall|j: int| 0 <= j < v@.len() implies values_v(r)[j] == values_v(*v)[j] by {
            assert(r@[j]@ == v@[j]@);
        }
        assert(values_v(r) =~= values_v(*v));
    }
    r
}

fn copy_members(v: &Vec<(String, Json)>) -> (r: Vec<(String, Json)>)
    ensures
        members_v(r) == members_v(*v),
    decreases v, 1int,
{
    let mut r: Vec<(String, Json)> = Vec::new();
    let mut i: usize = 0;
    while i < v.len()
        invariant
            i <= v@.len(),
            r@.len() == i,
            forall|j: int|
                0 <= j < i ==> (#[trigger] r@[j]).0@ == v@[j].0@ && r@[j].1@ == v@[j].1@,
        decreases v@.len() - i,
    {
        r.push((v[i].0.clone(), copy_json(&v[i].1)));
        i = i + 1;
    }
    proof {
        lemma_members(r);
        lemma_members(*v);
        assert forall|j: int| 0 <= j < v@.len() implies members_v(r)[j] == members_v(*v)[j] by {
            assert(r@[j].0@ == v@[j].0@);
        }
        assert(members_v(r) =~= members_v(*v));
    }
    r
}

impl Json {
    /// The member `k`; null where there is none.
    pub fn member(&self, k: &str) -> (r: Json)
        ensures
            r@ == member_of(self@, k@),
    {
        match self {
            Json::Object(m) => {
                let ghost mv = members_v(*m);
                proof {
                    lemma_members(*m);
                }
                let mut i: usize = 0;
                while i < m.len() && !text_eq(m[i].0.as_str(), k)
                    invariant
                        i <= m@.len(),
                        mv == members_v(*m),
                        mv.len() == m@.len(),
                        forall|j: int|
                            0 <= j < m@.len() ==> #[trigger] mv[j] == (m@[j].0@, m@[j].1@),
                        member_at(mv, k@, 0) == member_at(mv, k@, i as int),
                    decreases m@.len() - i,
                {
                    assert(mv[i as int] == (m@[i as int].0@, m@[i as int].1@));
                    i = i + 1;
                }
                if i < m.len() {
                    assert(mv[i as int] == (m@[i as int].0@, m@[i as int].1@));
                    copy_json(&m[i].1)
                } else {
                    Json::Null
                }
            },
            _ => Json::Null,
        }
    }
}

/// The data of a JSON value.
pub open spec fn data_of_json(v: JsonV) -> DataV
    decreases v, 0int,
{
    match v {
        JsonV::Null => DataV::Null,
        JsonV::Bool(b) => DataV::Bool(b),
        JsonV::Int(n) => data_of_int(n as int),
        JsonV::UInt(n) => DataV::UInt(n),
        JsonV::Float(b) => DataV::Float(b),
        JsonV::Str(s) => DataV::Text(s),
        JsonV::Array(xs) => DataV::Array(data_of_values(xs, xs.len() as int)),
        JsonV::Object(m) => DataV::Dict(data_of_members(m, m.len() as int)),
    }
}

/// The data of the first `n` values.
pub open spec fn data_of_values(xs: Seq<JsonV>, n: int) -> Seq<DataV>
    decreases xs, n,
{
    if n <= 0 || n > xs.len() {
        Seq::empty()
    } else {
        data_of_values(xs, n - 1).push(data_of_json(xs[n - 1]))
    }
}

/// The data of the first `n` members.
pub open spec fn data_of_members(m: Seq<(Seq<char>, JsonV)>, n: int) -> Seq<(DataV, DataV)>
    decreases m, n,
{
    if n <= 0 || n > m.len() {
        Seq::empty()
    } else {
        data_of_members(m, n - 1).push((DataV::Text(m[n - 1].0), data_of_json(m[n - 1].1)))
    }
}

/// The data of a JSON value.
pub fn json_to_cbor(v: &Json) -> (r: Data)
    ensures
        r@ == data_of_json(v@),
    decreases v, 0int,
{
    match v {
        Json::Null => Data::Null,
        Json::Bool(b) => Data::Bool(*b),
        Json::Int(n) => int_data(*n),
        Json::UInt(n) => Data::UInt(*n),
        Json::Float(b) => Data::Float(*b),
        Json::Str(s) => Data::Text(s.clone()),
        Json::Array(xs) => {
            let out: Vec<Data> = values_to_cbor(xs);
            proof {
                lemma_values(*xs);
                lemma_items(out);
            }
            Data::Array(out)
        },
        Json::Object(m) => {
            let out: Vec<(Data, Data)> = members_to_cbor(m);
            proof {
                lemma_members(*m);
                lemma_pairs(out);
            }
            Data::Dict(out)
        },
    }
}

fn values_to_cbor(xs: &Vec<Json>) -> (r: Vec<Data>)
    ensures
        items_v(r) == data_of_values(values_v(*xs), xs@.len() as int),
    decreases xs, 1int,
{
    let ghost xv = values_v(*xs);
    let mut out: Vec<Data> = Vec::new();
    let mut i: usize = 0;
    proof {
        lemma_values(*xs);
        lemma_items(out);
        assert(items_v(out) =~= Seq::<DataV>::empty());
    }
    while i < xs.len()
        invariant
            i <= xs@.len(),
            xv == values_v(*xs),
            xv.len() == xs@.len(),
            forall|j: int| 0 <= j < xs@.len() ==> #[trigger] xv[j] == xs@[j]@,
            items_v(out) == data_of_values(xv, i as int),
        decreases xs@.len() - i,
    {
        let ghost before = out;
        let ghost x = xv[i as int];
        let d: Data = json_to_cbor(&xs[i]);
        out.push(d);
        proof {
            lemma_items_push(before, out, d);
        }
        i = i + 1;
    }
    out
}

fn members_to_cbor(m: &Vec<(String, Json)>) -> (r: Vec<(Data, Data)>)
    ensures
        pairs_v(r) == data_of_members(members_v(*m), m@.len() as int),
    decreases m, 1int,
{
    let ghost mv = members_v(*m);
    let mut out: Vec<(Data, Data)> = Vec::new();
    let mut i: usize = 0;
    proof {
        lemma_members(*m);
        lemma_pairs(out);
        assert(pairs_v(out) =~= Seq::<(DataV, DataV)>::empty());
    }
    while i < m.len()
        invariant
            i <= m@.len(),
            mv == members_v(*m),
            mv.len() == m@.len(),
            forall|j: int| 0 <= j < m@.len() ==> #[trigger] mv[j] == (m@[j].0@, m@[j].1@),
            pairs_v(out) == data_of_members(mv, i as int),
        decreases m@.len() - i,
    {
        let ghost before = out;
        let ghost x = mv[i as int];
        let k: Data = Data::Text(m[i].0.clone());
        let d: Data = json_to_cbor(&m[i].1);
        out.push((k, d));
        proof {
            lemma_pairs_push(before, out, k, d);
        }
        i = i + 1;
    }
    out
}

/// The float with these bits is a finite number.
pub open spec fn finite(bits: u64) -> bool {
    (bits / 0x10_0000_0000_0000) % 0x800 != 0x7ff
}

/// The JSON of a whole number; null beyond 64 bits.
pub open spec fn json_of_int(i: int) -> JsonV {
    if i64::MIN <= i <= i64::MAX {
        JsonV::Int(i as i64)
    } else if 0 <= i <= u64::MAX {
        JsonV::UInt(i as u64)
    } else {
        JsonV::Null
    }
}

/// All keys of the pairs are texts.
pub open spec fn all_text(m: Seq<(DataV, DataV)>) -> bool {
    forall|i: int| 0 <= i < m.len() ==> (#[trigger] m[i]).0 is Text
}

/// The JSON of data. Bytes become the array of their numbers, a map whose keys
/// are not all texts the array of its pairs; tags are dropped.
pub open spec fn json_of_data(d: DataV) -> JsonV
    decreases d, 0int,
{
    match d {
        DataV::Null => JsonV::Null,
        DataV::Bool(b) => JsonV::Bool(b),
        DataV::UInt(n) => json_of_int(n as int),
        DataV::NInt(n) => json_of_int(-1 - n),
        DataV::Float(b) => if finite(b) {
            JsonV::Float(b)
        } else {
            JsonV::Null
        },
        DataV::Text(s) => JsonV::Str(s),
        DataV::Bytes(b) => JsonV::Array(b.map_values(|x: u8| JsonV::Int(x as i64))),
        DataV::Array(xs) => JsonV::Array(json_of_items(xs, xs.len() as int)),
        DataV::Dict(m) => if all_text(m) {
            JsonV::Object(json_object(m, m.len() as int))
        } else {
            JsonV::Array(json_pairs(m, m.len() as int))
        },
        DataV::Tag(_, v) => json_of_data(*v),
    }
}

/// The JSON of the first `n` items.
pub open spec fn json_of_items(xs: Seq<DataV>, n: int) -> Seq<JsonV>
    decreases xs, n,
{
    if n <= 0 || n > xs.len() {
        Seq::empty()
    } else {
        json_of_items(xs, n - 1).push(json_of_data(xs[n - 1]))
    }
}

/// The object of the first `n` pairs: of two with one key the later stays.
pub open spec fn json_object(m: Seq<(DataV, DataV)>, n: int) -> Seq<(Seq<char>, JsonV)>
    decreases m, n,
{
    if n <= 0 || n > m.len() {
        Seq::empty()
    } else {
        match m[n - 1].0 {
            DataV::Text(k) => with_member(json_object(m, n - 1), k, json_of_data(m[n - 1].1)),
            _ => json_object(m, n - 1),
        }
    }
}

/// The arrays of the first `n` pairs.
pub open spec fn json_pairs(m: Seq<(DataV, DataV)>, n: int) -> Seq<JsonV>
    decreases m, n,
{
    if n <= 0 || n > m.len() {
        Seq::empty()
    } else {
        json_pairs(m, n - 1).push(
            JsonV::Array(seq![json_of_data(m[n - 1].0), json_of_data(m[n - 1].1)]),
        )
    }
}

fn has_text_keys(m: &Vec<(Data, Data)>) -> (r: bool)
    ensures
        r == all_text(pairs_v(*m)),
{
    let ghost mv = pairs_v(*m);
    proof {
        lemma_pairs(*m);
    }
    let mut i: usize = 0;
    while i < m.len()
        invariant
            i <= m@.len(),
            mv == pairs_v(*m),
            mv.len() == m@.len(),
            forall|j: int| 0 <= j < m@.len() ==> #[trigger] mv[j] == (m@[j].0@, m@[j].1@),
            forall|j: int| 0 <= j < i ==> (#[trigger] mv[j]).0 is Text,
        decreases m@.len() - i,
    {
        assert(mv[i as int] == (m@[i as int].0@, m@[i as int].1@));
        match &m[i].0 {
            Data::Text(_) => {},
            _ => {
                assert(!(mv[i as int].0 is Text));
                return false;
            },
        }
        i = i + 1;
    }
    true
}

/// The float is a finite number.
pub fn is_finite(bits: u64) -> (r: bool)
    ensures
        r == finite(bits),
{
    (bits / 0x10_0000_0000_0000) % 0x800 != 0x7ff
}

fn bytes_to_json(b: &Vec<u8>) -> (r: Vec<Json>)
    ensures
        values_v(r) == b@.map_values(|x: u8| JsonV::Int(x as i64)),
{
    let mut out: Vec<Json> = Vec::new();
    let mut i: usize = 0;
    while i < b.len()
        invariant
            i <= b@.len(),
            out@.len() == i,
            forall|j: int| 0 <= j < i ==> (#[trigger] out@[j])@ == JsonV::Int(b@[j] as i64),
        decreases b@.len() - i,
    {
        out.push(Json::Int(b[i] as i64));
        i = i + 1;
    }
    proof {
        lemma_values(out);
        let want = b@.map_values(|x: u8| JsonV::Int(x as i64));
        assert forall|j: int| 0 <= j < want.len() implies values_v(out)[j] == want[j] by {
            assert(out@[j]@ == JsonV::Int(b@[j] as i64));
        }
        assert(values_v(out) =~= want);
    }
    out
}

/// The JSON of data.
pub fn cbor_to_json(d: &Data) -> (r: Json)
    ensures
        r@ == json_of_data(d@),
    decreases d, 0int,
{
    match d {
        Data::Null => Json::Null,
        Data::Bool(b) => Json::Bool(*b),
        Data::UInt(n) => if *n <= i64::MAX as u64 {
            Json::Int(*n as i64)
        } else {
            Json::UInt(*n)
        },
        Data::NInt(n) => if *n <= i64::MAX as u64 {
            Json::Int(-1 - *n as i64)
        } else {
            Json::Null
        },
        Data::Float(b) => if is_finite(*b) {
            Json::Float(*b)
        } else {
            Json::Null
        },
        Data::Text(s) => Json::Str(s.clone()),
        Data::Bytes(b) => {
            let out: Vec<Json> = bytes_to_json(b);
            proof {
                lemma_values(out);
            }
            Json::Array(out)
        },
        Data::Array(xs) => {
            let out: Vec<Json> = items_to_json(xs);
            proof {
                lemma_items(*xs);
                lemma_values(out);
            }
            Json::Array(out)
        },
        Data::Dict(m) => {
            proof {
                lemma_pairs(*m);
            }
            if has_text_keys(m) {
                let out: Vec<(String, Json)> = pairs_to_object(m);
                proof {
                    lemma_members(out);
                }
                Json::Object(out)
            } else {
                let out: Vec<Json> = pairs_to_json(m);
                proof {
                    lemma_values(out);
                }
                Json::Array(out)
            }
        },
        Data::Tag(_, v) => cbor_to_json(v),
    }
}

fn items_to_json(xs: &Vec<Data>) -> (r: Vec<Json>)
    ensures
        values_v(r) == json_of_items(items_v(*xs), xs@.len() as int),
    decreases xs, 1int,
{
    let ghost xv = items_v(*xs);
    let mut out: Vec<Json> = Vec::new();
    let mut i: usize = 0;
    proof {
        lemma_items(*xs);
        lemma_values(out);
        assert(values_v(out) =~= Seq::<JsonV>::empty());
    }
    while i < xs.len()
        invariant
            i <= xs@.len(),
            xv == items_v(*xs),
            xv.len() == xs@.len(),
            forall|j: int| 0 <= j < xs@.len() ==> #[trigger] xv[j] == xs@[j]@,
            values_v(out) == json_of_items(xv, i as int),
        decreases xs@.len() - i,
    {
        let ghost before = out;
        let ghost x = xv[i as int];
        let d: Json = cbor_to_json(&xs[i]);
        out.push(d);
        proof {
            lemma_values_push(before, out, d);
        }
        i = i + 1;
    }
    out
}

fn pairs_to_object(m: &Vec<(Data, Data)>) -> (r: Vec<(String, Json)>)
    ensures
        members_v(r) == json_object(pairs_v(*m), m@.len() as int),
    decreases m, 1int,
{
    let ghost mv = pairs_v(*m);
    let mut out: Vec<(String, Json)> = Vec::new();
    let mut i: usize = 0;
    proof {
        lemma_pairs(*m);
        lemma_members(out);
        assert(members_v(out) =~= Seq::<(Seq<char>, JsonV)>::empty());
    }
    while i < m.len()
        invariant
            i <= m@.len(),
            mv == pairs_v(*m),
            mv.len() == m@.len(),
            forall|j: int| 0 <= j < m@.len() ==> #[trigger] mv[j] == (m@[j].0@, m@[j].1@),
            members_v(out) == json_object(mv, i as int),
        decreases m@.len() - i,
    {
        let ghost x = mv[i as int];
        if let Data::Text(k) = &m[i].0 {
            let v: Json = cbor_to_json(&m[i].1);
            set_member(&mut out, k.as_str(), v);
        }
        i = i + 1;
    }
    out
}

/// The array of two values.
pub fn json2(a: Json, b: Json) -> (r: Json)
    ensures
        r@ == JsonV::Array(seq![a@, b@]),
{
    let mut v: Vec<Json> = Vec::new();
    v.push(a);
    v.push(b);
    proof {
        lemma_values(v);
        assert(values_v(v)[0] == v@[0]@);
        assert(values_v(v)[1] == v@[1]@);
        assert(values_v(v) =~= seq![a@, b@]);
    }
    Json::Array(v)
}

fn pairs_to_json(m: &Vec<(Data, Data)>) -> (r: Vec<Json>)
    ensures
        values_v(r) == json_pairs(pairs_v(*m), m@.len() as int),
    decreases m, 1int,
{
    let ghost mv = pairs_v(*m);
    let mut out: Vec<Json> = Vec::new();
    let mut i: usize = 0;
    proof {
        lemma_pairs(*m);
        lemma_values(out);
        assert(values_v(out) =~= Seq::<JsonV>::empty());
    }
    while i < m.len()
        invariant
            i <= m@.len(),
            mv == pairs_v(*m),
            mv.len() == m@.len(),
            forall|j: int| 0 <= j < m@.len() ==> #[trigger] mv[j] == (m@[j].0@, m@[j].1@),
            values_v(out) == json_pairs(mv, i as int),
        decreases m@.len() - i,
    {
        let ghost before = out;
        let ghost x = mv[i as int];
        let a: Json = cbor_to_json(&m[i].0);
        let b: Json = cbor_to_json(&m[i].1);
        let d: Json = json2(a, b);
        out.push(d);
        proof {
            lemma_values_push(before, out, d);
        }
        i = i + 1;
    }
    out
}

#[verifier::external_type_specification]
#[verifier::external_body]
pub struct ExOuterJson(OuterJson);

/// The `serde_json::Value` with the same contents; a float that is not finite
/// becomes null there.
#[verifier::external_body]
fn to_outer(v: &Json) -> OuterJson {
    match v {
        Json::Null => OuterJson::Null,
        Json::Bool(b) => OuterJson::Bool(*b),
        Json::Int(n) => OuterJson::from(*n),
        Json::UInt(n) => OuterJson::from(*n),
        Json::Float(b) => match outer_float(*b) {
            Cbor::Float(x) => OuterJson::from(x),
            _ => OuterJson::Null,
        },
        Json::Str(s) => OuterJson::String(s.clone()),
        Json::Array(xs) => OuterJson::Array(xs.iter().map(to_outer).collect()),
        Json::Object(m) => m.iter().map(|(k, v)| (k.clone(), to_outer(v))).collect(),
    }
}

/// The number that a `serde_json::Value` holds.
#[verifier::external_body]
fn of_number(v: &OuterJson) -> Json {
    match (v.as_i64(), v.as_u64(), v.as_f64()) {
        (Some(i), _, _) => Json::Int(i),
        (_, Some(u), _) => Json::UInt(u),
        (_, _, x) => x.map_or(Json::Null, |x| Json::Float(x.to_bits())),
    }
}

/// The value with the contents of a `serde_json::Value`.
#[verifier::external_body]
pub(crate) fn of_outer(v: &OuterJson) -> Json {
    match v {
        OuterJson::Null => Json::Null,
        OuterJson::Bool(b) => Json::Bool(*b),
        OuterJson::Number(_) => of_number(v),
        OuterJson::String(s) => Json::Str(s.clone()),
        OuterJson::Array(xs) => Json::Array(xs.iter().map(of_outer).collect()),
        OuterJson::Object(m) => Json::Object(m.iter().map(|(k, v)| (k.clone(), of_outer(v))).collect()),
    }
}

/// The text of a JSON value.
pub uninterp spec fn json_text(v: JsonV) -> Seq<char>;

/// What a JSON text says, or the parser's message.
pub uninterp spec fn json_read(s: Seq<char>) -> Result<JsonV, Seq<char>>;

/// `v` comes back from its text as it was: no float, one form for an integer,
/// members that ascend by their keys, and no more than `depth` arrays and
/// objects within one another.
pub open spec fn exact(v: JsonV, depth: nat) -> bool
    decreases v,
{
    match v {
        JsonV::UInt(n) => n > i64::MAX,
        JsonV::Float(_) => false,
        JsonV::Array(xs) => depth > 0 && forall|i: int|
            0 <= i < xs.len() ==> exact(#[trigger] xs[i], (depth - 1) as nat),
        JsonV::Object(m) => depth > 0 && ascending_members(m) && forall|i: int|
            0 <= i < m.len() ==> exact((#[trigger] m[i]).1, (depth - 1) as nat),
        _ => true,
    }
}

/// How deep the parser reads.
pub open spec fn json_depth() -> nat {
    127
}

/// The text `s` says `v`.
pub open spec fn says(s: Seq<char>, v: JsonV) -> bool {
    match json_read(s) {
        Ok(w) => w == v,
        Err(_) => false,
    }
}

/// `serde_json::to_string` on the value; its result is named. Of it is said that
/// `serde_json::from_str` reads the value back, where it holds no float and
/// nests no deeper than the parser reads. Nothing is said of floats: the parser
/// may read the neighbour of the float that was printed.
#[verifier::external_body]
pub(crate) fn print_json(v: &Json) -> (r: String)
    ensures
        r@ == json_text(v@),
        exact(v@, json_depth()) ==> says(r@, v@),
{
    serde_json::to_string(&to_outer(v)).unwrap()
}

/// `serde_json::from_str` for a `serde_json::Value`: the value, or the parser's
/// message; both are named. A number that is no finite float is refused there,
/// and the members of an object come in the order of their keys.
#[verifier::external_body]
pub(crate) fn parse_json(s: &str) -> (r: Result<Json, String>)
    ensures
        match (r, json_read(s@)) {
            (Ok(d), Ok(v)) => d@ == v && proper(d@),
            (Err(m), Err(w)) => m@ == w,
            _ => false,
        },
{
    serde_json::from_str::<OuterJson>(s).map(|v| of_outer(&v)).map_err(|e| e.to_string())
}

/// The value is JSON as it is kept: floats are finite, an integer has one form,
/// and the members of an object ascend by their keys.
pub open spec fn proper(v: JsonV) -> bool
    decreases v, 0int,
{
    match v {
        JsonV::UInt(n) => n > i64::MAX,
        JsonV::Float(b) => finite(b),
        JsonV::Array(xs) => proper_values(xs, xs.len() as int),
        JsonV::Object(m) => ascending_members(m) && proper_members(m, m.len() as int),
        _ => true,
    }
}

/// The first `n` values are proper.
pub open spec fn proper_values(xs: Seq<JsonV>, n: int) -> bool
    decreases xs, n,
{
    n <= 0 || n > xs.len() || (proper_values(xs, n - 1) && proper(xs[n - 1]))
}

/// The first `n` members are proper.
pub open spec fn proper_members(m: Seq<(Seq<char>, JsonV)>, n: int) -> bool
    decreases m, n,
{
    n <= 0 || n > m.len() || (proper_members(m, n - 1) && proper(m[n - 1].1))
}

/// The members ascend by their keys.
pub open spec fn ascending_members(m: Seq<(Seq<char>, JsonV)>) -> bool {
    forall|i: int, j: int|
        0 <= i < j < m.len() ==> text_before(#[trigger] m[i].0, #[trigger] m[j].0)
}

/// JSON that crosses into data and back is as it was.
pub proof fn law_json_crosses_back(v: JsonV)
    requires
        proper(v),
    ensures
        json_of_data(data_of_json(v)) == v,
    decreases v, 0int,
{
    match v {
        JsonV::Array(xs) => {
            lemma_values_back(xs, xs.len() as int);
            lemma_data_len(xs, xs.len() as int);
            assert(xs.take(xs.len() as int) =~= xs);
        },
        JsonV::Object(m) => {
            lemma_members_back(m, m.len() as int);
            lemma_data_members(m, m.len() as int);
            let ds = data_of_members(m, m.len() as int);
            assert forall|i: int| 0 <= i < ds.len() implies (#[trigger] ds[i]).0 is Text by {}
            assert(m.take(m.len() as int) =~= m);
        },
        _ => {},
    }
}

proof fn lemma_data_len(xs: Seq<JsonV>, n: int)
    requires
        0 <= n <= xs.len(),
    ensures
        data_of_values(xs, n).len() == n,
    decreases n,
{
    if n > 0 {
        lemma_data_len(xs, n - 1);
    }
}

proof fn lemma_data_members(m: Seq<(Seq<char>, JsonV)>, n: int)
    requires
        0 <= n <= m.len(),
    ensures
        data_of_members(m, n).len() == n,
        forall|i: int|
            0 <= i < n ==> (#[trigger] data_of_members(m, n)[i]).0 == DataV::Text(m[i].0),
    decreases n,
{
    if n > 0 {
        lemma_data_members(m, n - 1);
    }
}

proof fn lemma_items_front(xs: Seq<DataV>, d: DataV, n: int)
    requires
        0 <= n <= xs.len(),
    ensures
        json_of_items(xs.push(d), n) == json_of_items(xs, n),
    decreases n,
{
    if n > 0 {
        lemma_items_front(xs, d, n - 1);
        assert(xs.push(d)[n - 1] == xs[n - 1]);
    }
}

proof fn lemma_object_front(m: Seq<(DataV, DataV)>, p: (DataV, DataV), n: int)
    requires
        0 <= n <= m.len(),
    ensures
        json_object(m.push(p), n) == json_object(m, n),
    decreases n,
{
    if n > 0 {
        lemma_object_front(m, p, n - 1);
        assert(m.push(p)[n - 1] == m[n - 1]);
    }
}

proof fn lemma_values_back(xs: Seq<JsonV>, n: int)
    requires
        0 <= n <= xs.len(),
        proper_values(xs, n),
    ensures
        json_of_items(data_of_values(xs, n), n) == xs.take(n),
    decreases xs, n,
{
    if n > 0 {
        lemma_values_back(xs, n - 1);
        lemma_data_len(xs, n - 1);
        law_json_crosses_back(xs[n - 1]);
        let ds = data_of_values(xs, n - 1);
        lemma_items_front(ds, data_of_json(xs[n - 1]), n - 1);
        assert(xs.take(n) =~= xs.take(n - 1).push(xs[n - 1]));
    } else {
        assert(xs.take(0) =~= Seq::<JsonV>::empty());
    }
}

proof fn lemma_member_last(m: Seq<(Seq<char>, JsonV)>, k: Seq<char>, i: int)
    requires
        0 <= i <= m.len(),
        forall|j: int| i <= j < m.len() ==> text_before(#[trigger] m[j].0, k),
    ensures
        member_place(m, k, i) == m.len(),
    decreases m.len() - i,
{
    if i < m.len() {
        assert(text_before(m[i].0, k));
        lemma_member_last(m, k, i + 1);
    }
}

proof fn lemma_members_back(m: Seq<(Seq<char>, JsonV)>, n: int)
    requires
        0 <= n <= m.len(),
        ascending_members(m),
        proper_members(m, n),
    ensures
        json_object(data_of_members(m, n), n) == m.take(n),
    decreases m, n,
{
    if n > 0 {
        lemma_members_back(m, n - 1);
        lemma_data_members(m, n - 1);
        law_json_crosses_back(m[n - 1].1);
        let ds = data_of_members(m, n - 1);
        let k = m[n - 1].0;
        lemma_object_front(ds, (DataV::Text(k), data_of_json(m[n - 1].1)), n - 1);
        let before = m.take(n - 1);
        assert forall|j: int| 0 <= j < before.len() implies text_before(
            #[trigger] before[j].0,
            k,
        ) by {
            assert(text_before(m[j].0, m[n - 1].0));
        }
        lemma_member_last(before, k, 0);
        assert(before.insert(n - 1, m[n - 1]) =~= m.take(n));
    } else {
        assert(m.take(0) =~= Seq::<(Seq<char>, JsonV)>::empty());
    }
}

/// The value that a JSON text holds.
pub fn read_json(s: &str) -> (r: Result<Json, String>)
    ensures
        match (r, json_read(s@)) {
            (Ok(j), Ok(v)) => j@ == v && proper(j@),
            (Err(m), Err(w)) => m@ == w,
            _ => false,
        },
{
    parse_json(s)
}

/// The JSON text of a value.
pub fn write_json(j: &Json) -> (r: String)
    ensures
        r@ == json_text(j@),
        exact(j@, json_depth()) ==> says(r@, j@),
{
    print_json(j)
}

} // verus!
