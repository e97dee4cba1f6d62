//! Runtime schema description.
//!
//! Schema types are enough for typed navigation. The query engine, and any
//! language on the other side of a serialization boundary, needs the same
//! information as a value: field names, collection kinds, nesting. `Shape` is
//! that value; `Describe` produces it.

use crate::codec::{put_uvarint, uvarint};
use crate::data::{
    array1, array2, decode, encode, items_v, lemma_items, lemma_items_push, Data, DataV,
};
use crate::error::{query_error, Error, ErrorV};
use crate::schema::{Deque, Dict, Leaf, List, Sum, Summable};
use crate::text::{debug_of_text, debug_text, dec, dec_u64, text_eq};
use vstd::prelude::*;
use vstd::string::*;

verus! {

/// Runtime description of a durable location's shape.
#[derive(Debug)]
pub enum Shape {
    Leaf,
    Sum,
    Dict { of: Box<Shape> },
    List { of: Box<Shape> },
    Deque { of: Box<Shape> },
    Record { fields: Vec<(String, Shape)> },
}

pub enum ShapeV {
    Leaf,
    Sum,
    Dict { of: Box<ShapeV> },
    List { of: Box<ShapeV> },
    Deque { of: Box<ShapeV> },
    Record { fields: Seq<(Seq<char>, ShapeV)> },
}

/// The fields of a list.
pub open spec fn fields_v(v: Vec<(String, Shape)>) -> Seq<(Seq<char>, ShapeV)> {
    v@.map_values(|p: (String, Shape)| (p.0@, p.1@))
}

/// The first `n` fields of a list.
pub open spec fn first_fields(v: Vec<(String, Shape)>, n: int) -> Seq<(Seq<char>, ShapeV)>
    decreases v, n,
{
    if n <= 0 || n > v@.len() {
        Seq::empty()
    } else {
        first_fields(v, n - 1).push((v@[n - 1].0@, v@[n - 1].1@))
    }
}

impl View for Shape {
    type V = ShapeV;

    open spec fn view(&self) -> ShapeV
        decreases self, 0int,
    {
        match *self {
            Shape::Leaf => ShapeV::Leaf,
            Shape::Sum => ShapeV::Sum,
            Shape::Dict { of } => ShapeV::Dict { of: Box::new((*of)@) },
            Shape::List { of } => ShapeV::List { of: Box::new((*of)@) },
            Shape::Deque { of } => ShapeV::Deque { of: Box::new((*of)@) },
            Shape::Record { fields } => ShapeV::Record {
                fields: first_fields(fields, fields@.len() as int),
            },
        }
    }
}

proof fn lemma_first_fields(v: Vec<(String, Shape)>, n: int)
    requires
        0 <= n <= v@.len(),
    ensures
        first_fields(v, n) == fields_v(v).take(n),
    decreases n,
{
    if n > 0 {
        lemma_first_fields(v, n - 1);
        assert(fields_v(v).take(n) =~= fields_v(v).take(n - 1).push((v@[n - 1].0@, v@[n - 1].1@)));
    } else {
        assert(fields_v(v).take(n) =~= Seq::<(Seq<char>, ShapeV)>::empty());
    }
}

/// The view of a record holds the views of its fields.
pub proof fn lemma_fields(fields: Vec<(String, Shape)>)
    ensures
        (Shape::Record { fields })@ == (ShapeV::Record { fields: fields_v(fields) }),
        fields_v(fields).len() == fields@.len(),
        forall|i: int|
            0 <= i < fields@.len() ==> #[trigger] fields_v(fields)[i] == (fields@[i].0@, fields@[i].1@),
{
    lemma_first_fields(fields, fields@.len() as int);
    assert(fields_v(fields).take(fields@.len() as int) =~= fields_v(fields));
}

/// The name of the kind of a shape.
pub open spec fn kind_name_of(s: ShapeV) -> Seq<char> {
    match s {
        ShapeV::Leaf => "Leaf"@,
        ShapeV::Sum => "Sum"@,
        ShapeV::Dict { of } => "Map"@,
        ShapeV::List { of } => "List"@,
        ShapeV::Deque { of } => "Deque"@,
        ShapeV::Record { fields } => "Record"@,
    }
}

/// The place of the first field called `name` from `i` on.
pub open spec fn field_at(fields: Seq<(Seq<char>, ShapeV)>, name: Seq<char>, i: int) -> int
    decreases fields.len() - i,
{
    if i < 0 || i >= fields.len() || fields[i].0 == name {
        i
    } else {
        field_at(fields, name, i + 1)
    }
}

/// The declaration order and shape of the field `name`.
pub open spec fn field_in(s: ShapeV, name: Seq<char>) -> Result<(u32, ShapeV), ErrorV> {
    match s {
        ShapeV::Record { fields } => {
            let i = field_at(fields, name, 0);
            if i < fields.len() {
                Ok((i as u32, fields[i].1))
            } else {
                Err(ErrorV::Query("unknown field "@ + debug_of_text(name)))
            }
        },
        _ => Err(
            ErrorV::Query(
                "field "@ + debug_of_text(name) + " requested on a "@ + kind_name_of(s),
            ),
        ),
    }
}

/// The shape of the elements.
pub open spec fn element_of(s: ShapeV) -> Result<ShapeV, ErrorV> {
    match s {
        ShapeV::Dict { of } => Ok(*of),
        ShapeV::List { of } => Ok(*of),
        ShapeV::Deque { of } => Ok(*of),
        _ => Err(ErrorV::Query("collection op on a "@ + kind_name_of(s))),
    }
}

pub open spec fn collects(s: ShapeV) -> bool {
    s is Dict || s is List || s is Deque
}

/// The tagged-array form of a shape: `[0]` a leaf, `[1]` a sum, `[2, of]` a map,
/// `[3, of]` a list, `[4, of]` a deque, `[5, [[name, shape], ...]]` a record.
pub open spec fn wire_of(s: ShapeV) -> DataV
    decreases s, 0int,
{
    match s {
        ShapeV::Leaf => DataV::Array(seq![DataV::UInt(0)]),
        ShapeV::Sum => DataV::Array(seq![DataV::UInt(1)]),
        ShapeV::Dict { of } => DataV::Array(seq![DataV::UInt(2), wire_of(*of)]),
        ShapeV::List { of } => DataV::Array(seq![DataV::UInt(3), wire_of(*of)]),
        ShapeV::Deque { of } => DataV::Array(seq![DataV::UInt(4), wire_of(*of)]),
        ShapeV::Record { fields } => DataV::Array(
            seq![DataV::UInt(5), DataV::Array(wire_fields(fields, fields.len() as int))],
        ),
    }
}

/// The forms of the first `n` fields.
pub open spec fn wire_fields(fields: Seq<(Seq<char>, ShapeV)>, n: int) -> Seq<DataV>
    decreases fields, n,
{
    if n <= 0 || n > fields.len() {
        Seq::empty()
    } else {
        wire_fields(fields, n - 1).push(
            DataV::Array(seq![DataV::Text(fields[n - 1].0), wire_of(fields[n - 1].1)]),
        )
    }
}

/// The shape that a tagged array stands for, or why it stands for none.
pub open spec fn shape_of(d: DataV) -> Result<ShapeV, ErrorV>
    decreases d, 0int,
{
    match d {
        DataV::Array(items) => if items.len() == 0 || !(items[0] is UInt) {
            Err(ErrorV::Query("shape missing tag"@))
        } else {
            let tag = items[0]->UInt_0;
            if tag == 0 {
                Ok(ShapeV::Leaf)
            } else if tag == 1 {
                Ok(ShapeV::Sum)
            } else if tag == 2 {
                if items.len() < 2 {
                    Err(ErrorV::Query("Map shape missing element"@))
                } else {
                    match shape_of(items[1]) {
                        Ok(s) => Ok(ShapeV::Dict { of: Box::new(s) }),
                        Err(e) => Err(e),
                    }
                }
            } else if tag == 3 {
                if items.len() < 2 {
                    Err(ErrorV::Query("List shape missing element"@))
                } else {
                    match shape_of(items[1]) {
                        Ok(s) => Ok(ShapeV::List { of: Box::new(s) }),
                        Err(e) => Err(e),
                    }
                }
            } else if tag == 4 {
                if items.len() < 2 {
                    Err(ErrorV::Query("Deque shape missing element"@))
                } else {
                    match shape_of(items[1]) {
                        Ok(s) => Ok(ShapeV::Deque { of: Box::new(s) }),
                        Err(e) => Err(e),
                    }
                }
            } else if tag == 5 {
                if items.len() < 2 {
                    Err(ErrorV::Query("Record shape missing fields"@))
                } else {
                    match items[1] {
                        DataV::Array(fields) => match fields_of(fields, fields.len() as int) {
                            Ok(fs) => Ok(ShapeV::Record { fields: fs }),
                            Err(e) => Err(e),
                        },
                        _ => Err(ErrorV::Query("Record fields must be an array"@)),
                    }
                }
            } else {
                Err(ErrorV::Query("unknown shape tag "@ + dec(tag as nat)))
            }
        },
        _ => Err(ErrorV::Query("shape must be a tagged array"@)),
    }
}

/// The field that `[name, shape]` stands for.
pub open spec fn field_of(d: DataV) -> Result<(Seq<char>, ShapeV), ErrorV>
    decreases d, 1int,
{
    match d {
        DataV::Array(pair) => if pair.len() == 0 || !(pair[0] is Text) {
            Err(ErrorV::Query("Record field name must be text"@))
        } else if pair.len() < 2 {
            Err(ErrorV::Query("Record field missing shape"@))
        } else {
            match shape_of(pair[1]) {
                Ok(s) => Ok((pair[0]->Text_0, s)),
                Err(e) => Err(e),
            }
        },
        _ => Err(ErrorV::Query("Record field must be [name, shape]"@)),
    }
}

/// The first `n` fields.
pub open spec fn fields_of(fields: Seq<DataV>, n: int) -> Result<
    Seq<(Seq<char>, ShapeV)>,
    ErrorV,
>
    decreases fields, 2int, n,
{
    if n <= 0 || n > fields.len() {
        Ok(Seq::empty())
    } else {
        match fields_of(fields, n - 1) {
            Err(e) => Err(e),
            Ok(fs) => match field_of(fields[n - 1]) {
                Err(e) => Err(e),
                Ok(f) => Ok(fs.push(f)),
            },
        }
    }
}

/// A shape's form stands for the shape.
pub proof fn law_shape_roundtrip(s: ShapeV)
    ensures
        shape_of(wire_of(s)) == Ok::<ShapeV, ErrorV>(s),
    decreases s, 0int,
{
    let d = wire_of(s);
    match s {
        ShapeV::Leaf => {},
        ShapeV::Sum => {},
        ShapeV::Dict { of } => {
            law_shape_roundtrip(*of);
            assert(d->Array_0[1] == wire_of(*of));
        },
        ShapeV::List { of } => {
            law_shape_roundtrip(*of);
            assert(d->Array_0[1] == wire_of(*of));
        },
        ShapeV::Deque { of } => {
            law_shape_roundtrip(*of);
            assert(d->Array_0[1] == wire_of(*of));
        },
        ShapeV::Record { fields } => {
            let n = fields.len() as int;
            lemma_fields_roundtrip(fields, n);
            assert(d->Array_0[1] == DataV::Array(wire_fields(fields, n)));
            assert(fields.take(n) =~= fields);
            lemma_wire_fields_len(fields, n);
        },
    }
}

proof fn lemma_wire_fields_len(fields: Seq<(Seq<char>, ShapeV)>, n: int)
    requires
        0 <= n <= fields.len(),
    ensures
        wire_fields(fields, n).len() == n,
    decreases n,
{
    if n > 0 {
        lemma_wire_fields_len(fields, n - 1);
    }
}

proof fn lemma_fields_local(a: Seq<DataV>, b: Seq<DataV>, n: int)
    requires
        0 <= n <= a.len(),
        n <= b.len(),
        forall|i: int| 0 <= i < n ==> a[i] == b[i],
    ensures
        fields_of(a, n) == fields_of(b, n),
    decreases n,
{
    if n > 0 {
        lemma_fields_local(a, b, n - 1);
    }
}

proof fn lemma_fields_roundtrip(fields: Seq<(Seq<char>, ShapeV)>, n: int)
    requires
        0 <= n <= fields.len(),
    ensures
        fields_of(wire_fields(fields, n), n) == Ok::<Seq<(Seq<char>, ShapeV)>, ErrorV>(
            fields.take(n),
        ),
    decreases fields, n,
{
    let w = wire_fields(fields, n);
    if n == 0 {
        assert(fields.take(0) =~= Seq::empty());
    } else {
        let v = wire_fields(fields, n - 1);
        lemma_fields_roundtrip(fields, n - 1);
        lemma_wire_fields_len(fields, n - 1);
        lemma_fields_local(w, v, n - 1);
        law_shape_roundtrip(fields[n - 1].1);
        let pair = w[n - 1]->Array_0;
        assert(pair[0] == DataV::Text(fields[n - 1].0));
        assert(pair[1] == wire_of(fields[n - 1].1));
        assert(field_of(w[n - 1]) == Ok::<(Seq<char>, ShapeV), ErrorV>(fields[n - 1]));
        assert(fields.take(n) =~= fields.take(n - 1).push(fields[n - 1]));
    }
}

/// The reading gave the shape that the model says.
pub open spec fn same_shape(r: Result<Shape, Error>, s: Result<ShapeV, ErrorV>) -> bool {
    match (r, s) {
        (Ok(x), Ok(y)) => x@ == y,
        (Err(x), Err(y)) => x@ == y,
        _ => false,
    }
}

impl Shape {
    pub fn map(of: Shape) -> (r: Shape)
        ensures
            r@ == (ShapeV::Dict { of: Box::new(of@) }),
    {
        Shape::Dict { of: Box::new(of) }
    }

    pub fn list(of: Shape) -> (r: Shape)
        ensures
            r@ == (ShapeV::List { of: Box::new(of@) }),
    {
        Shape::List { of: Box::new(of) }
    }

    pub fn deque(of: Shape) -> (r: Shape)
        ensures
            r@ == (ShapeV::Deque { of: Box::new(of@) }),
    {
        Shape::Deque { of: Box::new(of) }
    }

    pub fn record(fields: Vec<(String, Shape)>) -> (r: Shape)
        ensures
            r@ == (ShapeV::Record { fields: fields_v(fields) }),
    {
        proof {
            lemma_fields(fields);
        }
        Shape::Record { fields }
    }

    /// Look up a record field by name: its declaration order and shape.
    pub fn field(&self, name: &str) -> (r: Result<(u32, &Shape), Error>)
        ensures
            match (r, field_in(self@, name@)) {
                (Ok((i, s)), Ok((j, t))) => i == j && s@ == t && decreases_to!(self => s),
                (Err(e), Err(w)) => e@ == w,
                _ => false,
            },
    {
        match self {
            Shape::Record { fields } => {
                proof {
                    lemma_fields(*fields);
                }
                let ghost fv = fields_v(*fields);
                let mut i: usize = 0;
                while i < fields.len()
                    invariant
                        i <= fields@.len(),
                        *self == (Shape::Record { fields: *fields }),
                        fv == fields_v(*fields),
                        fv.len() == fields@.len(),
                        forall|j: int|
                            0 <= j < fields@.len() ==> #[trigger] fv[j] == (fields@[j].0@, fields@[j].1@),
                        field_at(fv, name@, 0) == field_at(fv, name@, i as int),
                        self@ == (ShapeV::Record { fields: fv }),
                    decreases fields@.len() - i,
                {
                    assert(fv[i as int].0 == fields@[i as int].0@);
                    if text_eq(fields[i].0.as_str(), name) {
                        return Ok((i as u32, &fields[i].1));
                    }
                    i = i + 1;
                }
                let mut m: String = "unknown field ".to_owned();
                let d: String = debug_text(name);
                m.append(d.as_str());
                Err(Error::Query(m))
            },
            _ => {
                let mut m: String = "field ".to_owned();
                let d: String = debug_text(name);
                m.append(d.as_str());
                m.append(" requested on a ");
                m.append(self.kind_name());
                Err(Error::Query(m))
            },
        }
    }

    pub fn kind_name(&self) -> (r: &'static str)
        ensures
            r@ == kind_name_of(self@),
    {
        match self {
            Shape::Leaf => "Leaf",
            Shape::Sum => "Sum",
            Shape::Dict { of: _ } => "Map",
            Shape::List { of: _ } => "List",
            Shape::Deque { of: _ } => "Deque",
            Shape::Record { fields: _ } => "Record",
        }
    }

    pub fn is_collection(&self) -> (r: bool)
        ensures
            r == collects(self@),
    {
        match self {
            Shape::Dict { of: _ } | Shape::List { of: _ } | Shape::Deque { of: _ } => true,
            _ => false,
        }
    }

    /// The shape of the elements.
    pub fn element(&self) -> (r: Result<&Shape, Error>)
        ensures
            match (r, element_of(self@)) {
                (Ok(s), Ok(t)) => s@ == t && decreases_to!(self => s),
                (Err(e), Err(w)) => e@ == w,
                _ => false,
            },
    {
        match self {
            Shape::Dict { of } => Ok(of),
            Shape::List { of } => Ok(of),
            Shape::Deque { of } => Ok(of),
            _ => {
                let mut m: String = "collection op on a ".to_owned();
                m.append(self.kind_name());
                Err(Error::Query(m))
            },
        }
    }

    /// The tagged-array form of the shape.
    pub fn to_wire(&self) -> (r: Data)
        ensures
            r@ == wire_of(self@),
        decreases self, 0int,
    {
        match self {
            Shape::Leaf => array1(Data::UInt(0)),
            Shape::Sum => array1(Data::UInt(1)),
            Shape::Dict { of } => array2(Data::UInt(2), of.to_wire()),
            Shape::List { of } => array2(Data::UInt(3), of.to_wire()),
            Shape::Deque { of } => array2(Data::UInt(4), of.to_wire()),
            Shape::Record { fields } => {
                proof {
                    lemma_fields(*fields);
                }
                array2(Data::UInt(5), wire_list(fields))
            },
        }
    }

    /// The shape that a tagged array stands for.
    pub fn from_wire(wire: &Data) -> (r: Result<Shape, Error>)
        ensures
            same_shape(r, shape_of(wire@)),
        decreases wire, 0int,
    {
        match wire {
            Data::Array(items) => {
                proof {
                    lemma_items(*items);
                }
                if items.len() == 0 {
                    return query_error("shape missing tag");
                }
                assert(items_v(*items)[0] == items@[0]@);
                let tag: u64 = match &items[0] {
                    Data::UInt(n) => *n,
                    _ => {
                        return query_error("shape missing tag");
                    },
                };
                if tag == 0 {
                    return Ok(Shape::Leaf);
                }
                if tag == 1 {
                    return Ok(Shape::Sum);
                }
                if tag == 2 || tag == 3 || tag == 4 {
                    if items.len() < 2 {
                        return if tag == 2 {
                            query_error("Map shape missing element")
                        } else if tag == 3 {
                            query_error("List shape missing element")
                        } else {
                            query_error("Deque shape missing element")
                        };
                    }
                    assert(items_v(*items)[1] == items@[1]@);
                    let of: Shape = Shape::from_wire(&items[1])?;
                    return if tag == 2 {
                        Ok(Shape::map(of))
                    } else if tag == 3 {
                        Ok(Shape::list(of))
                    } else {
                        Ok(Shape::deque(of))
                    };
                }
                if tag == 5 {
                    if items.len() < 2 {
                        return query_error("Record shape missing fields");
                    }
                    assert(items_v(*items)[1] == items@[1]@);
                    return match &items[1] {
                        Data::Array(fields) => {
                            proof {
                                lemma_items(*fields);
                            }
                            let fs: Vec<(String, Shape)> = list_from(fields)?;
                            Ok(Shape::record(fs))
                        },
                        _ => query_error("Record fields must be an array"),
                    };
                }
                let mut m: String = "unknown shape tag ".to_owned();
                let d: String = dec_u64(tag);
                m.append(d.as_str());
                Err(Error::Query(m))
            },
            _ => query_error("shape must be a tagged array"),
        }
    }

    /// The CBOR encoding of the tagged-array form.
    pub fn to_cbor(&self) -> (r: Vec<u8>)
        ensures
            r@ == crate::data::cbor_bytes(wire_of(self@)),
            crate::data::plain(wire_of(self@), crate::data::cbor_depth())
                ==> crate::data::reads_as(r@, wire_of(self@)),
    {
        encode(&self.to_wire())
    }

    /// The shape whose form the bytes encode.
    pub fn from_cbor(bytes: &[u8]) -> (r: Result<Shape, Error>)
        ensures
            same_shape(
                r,
                match crate::data::cbor_read(bytes@) {
                    Ok(d) => shape_of(d),
                    Err(m) => Err(ErrorV::Deserialize(m)),
                },
            ),
    {
        match decode(bytes) {
            Ok(d) => Shape::from_wire(&d),
            Err(m) => Err(Error::Deserialize(m)),
        }
    }
}

fn wire_list(fields: &Vec<(String, Shape)>) -> (r: Data)
    ensures
        r@ == DataV::Array(wire_fields(fields_v(*fields), fields@.len() as int)),
    decreases fields, 1int,
{
    let mut out: Vec<Data> = Vec::new();
    let ghost fv = fields_v(*fields);
    let mut i: usize = 0;
    proof {
        lemma_fields(*fields);
        lemma_items(out);
        assert(items_v(out) =~= Seq::<DataV>::empty());
    }
    while i < fields.len()
        invariant
            i <= fields@.len(),
            fv == fields_v(*fields),
            fv.len() == fields@.len(),
            forall|j: int|
                0 <= j < fields@.len() ==> #[trigger] fv[j] == (fields@[j].0@, fields@[j].1@),
            items_v(out) == wire_fields(fv, i as int),
        decreases fields@.len() - i,
    {
        let ghost f = fv[i as int];
        let ghost before = out;
        let pair: Data = array2(Data::Text(fields[i].0.clone()), fields[i].1.to_wire());
        out.push(pair);
        proof {
            lemma_items_push(before, out, pair);
        }
        i = i + 1;
    }
    proof {
        lemma_items(out);
    }
    Data::Array(out)
}

fn list_from(fields: &Vec<Data>) -> (r: Result<Vec<(String, Shape)>, Error>)
    ensures
        match (r, fields_of(items_v(*fields), fields@.len() as int)) {
            (Ok(v), Ok(w)) => fields_v(v) == w,
            (Err(e), Err(w)) => e@ == w,
            _ => false,
        },
    decreases fields, 2int,
{
    let mut out: Vec<(String, Shape)> = Vec::new();
    let ghost dv = items_v(*fields);
    let mut i: usize = 0;
    proof {
        lemma_items(*fields);
        assert(fields_v(out) =~= Seq::<(Seq<char>, ShapeV)>::empty());
    }
    while i < fields.len()
        invariant
            i <= fields@.len(),
            dv == items_v(*fields),
            dv.len() == fields@.len(),
            forall|j: int| 0 <= j < fields@.len() ==> #[trigger] dv[j] == fields@[j]@,
            fields_of(dv, i as int) == Ok::<Seq<(Seq<char>, ShapeV)>, ErrorV>(fields_v(out)),
        decreases fields@.len() - i,
    {
        let ghost d = dv[i as int];
        match field_from(&fields[i]) {
            Err(e) => {
                proof {
                    lemma_fields_err(dv, i + 1, dv.len() as int);
                }
                return Err(e);
            },
            Ok((n, s)) => {
                let ghost before = fields_v(out);
                let ghost f = (n@, s@);
                out.push((n, s));
                assert(fields_v(out) =~= before.push(f));
            },
        }
        i = i + 1;
    }
    Ok(out)
}

proof fn lemma_fields_err(fields: Seq<DataV>, i: int, n: int)
    requires
        0 <= i <= n <= fields.len(),
        fields_of(fields, i) is Err,
    ensures
        fields_of(fields, n) == fields_of(fields, i),
    decreases n,
{
    if i < n {
        lemma_fields_err(fields, i, n - 1);
    }
}

fn field_from(d: &Data) -> (r: Result<(String, Shape), Error>)
    ensures
        match (r, field_of(d@)) {
            (Ok((n, s)), Ok((m, t))) => n@ == m && s@ == t,
            (Err(e), Err(w)) => e@ == w,
            _ => false,
        },
    decreases d, 1int,
{
    match d {
        Data::Array(pair) => {
            proof {
                lemma_items(*pair);
            }
            if pair.len() == 0 {
                return query_error("Record field name must be text");
            }
            assert(items_v(*pair)[0] == pair@[0]@);
            match &pair[0] {
                Data::Text(name) => {
                    if pair.len() < 2 {
                        return query_error("Record field missing shape");
                    }
                    assert(items_v(*pair)[1] == pair@[1]@);
                    let s: Shape = Shape::from_wire(&pair[1])?;
                    Ok((name.clone(), s))
                },
                _ => query_error("Record field name must be text"),
            }
        },
        _ => query_error("Record field must be [name, shape]"),
    }
}

/// Types that can describe their durable shape at runtime.
pub trait Describe {
    spec fn described() -> ShapeV;

    fn shape() -> (r: Shape)
        ensures
            r@ == Self::described(),
    ;
}

impl Describe for Leaf {
    open spec fn described() -> ShapeV {
        ShapeV::Leaf
    }

    fn shape() -> (r: Shape) {
        Shape::Leaf
    }
}

impl<N: Summable> Describe for Sum<N> {
    open spec fn described() -> ShapeV {
        ShapeV::Sum
    }

    fn shape() -> (r: Shape) {
        Shape::Sum
    }
}

impl<V: Describe> Describe for Dict<V> {
    open spec fn described() -> ShapeV {
        ShapeV::Dict { of: Box::new(V::described()) }
    }

    fn shape() -> (r: Shape) {
        Shape::map(V::shape())
    }
}

impl<V: Describe> Describe for List<V> {
    open spec fn described() -> ShapeV {
        ShapeV::List { of: Box::new(V::described()) }
    }

    fn shape() -> (r: Shape) {
        Shape::list(V::shape())
    }
}

impl<V: Describe> Describe for Deque<V> {
    open spec fn described() -> ShapeV {
        ShapeV::Deque { of: Box::new(V::described()) }
    }

    fn shape() -> (r: Shape) {
        Shape::deque(V::shape())
    }
}

/// The segment of the record field with the given declaration order.
pub fn field_segment(field_id: u32) -> (r: Vec<u8>)
    ensures
        r@ == uvarint(field_id as nat),
{
    let mut seg: Vec<u8> = Vec::new();
    put_uvarint(&mut seg, field_id as u64);
    assert(seg@ =~= uvarint(field_id as nat));
    seg
}

} // verus!
