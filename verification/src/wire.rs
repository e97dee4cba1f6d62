//! How values leave a machine and come back: as data, as bytes and as JSON.

use crate::bytes::copy_bytes;
use crate::data::{
    array2, cbor_bytes, cbor_read, data_of_int, decode, encode, int_data, items_v, lemma_items,
    lemma_items_push, lemma_pairs, lemma_pairs_push, pairs_v, Data, DataV,
};
use crate::float::{of_int, FactV, FloatTable};
use crate::json::{
    finite, is_finite, lemma_members, lemma_values, lemma_values_push, members_v, set_member,
    values_v, with_member, Json, JsonV,
};
use crate::text::{dec, dec_i64, dec_int, dec_u64};
use crate::value::{
    array_at, bytes_at, entry_put, is_nan, is_scalar, kind_of, map_at, str_at, tagged_at, too_deep,
    Ask, AskV, Cell, CellV, Heap, Try, TryV, Value,
};
use vstd::prelude::*;
use vstd::string::*;

verus! {

/// The tag of tagged values.
pub const TAG_GENERIC: u64 = 27;

/// The data of `v`. A function is no data, and nesting beyond `d` is too deep.
pub open spec fn data_of(h: Seq<CellV>, d: nat, v: Value) -> Result<DataV, Seq<char>>
    decreases d, 0int, 0int,
{
    match v {
        Value::Nil => Ok(DataV::Null),
        Value::Bool(b) => Ok(DataV::Bool(b)),
        Value::Int(i) => Ok(data_of_int(i as int)),
        Value::Float(b) => Ok(DataV::Float(b)),
        Value::Str(i) => Ok(DataV::Text(str_at(h, i))),
        Value::Bytes(i) => Ok(DataV::Bytes(bytes_at(h, i))),
        Value::Array(i) => if d == 0 {
            Err(too_deep())
        } else {
            let xs = array_at(h, i);
            match data_of_items(h, (d - 1) as nat, xs, xs.len() as int) {
                Ok(ds) => Ok(DataV::Array(ds)),
                Err(m) => Err(m),
            }
        },
        Value::Dict(i) => if d == 0 {
            Err(too_deep())
        } else {
            let m = map_at(h, i);
            match data_of_entries(h, (d - 1) as nat, m, m.len() as int) {
                Ok(ps) => Ok(DataV::Dict(ps)),
                Err(m) => Err(m),
            }
        },
        Value::Tagged(i) => if d == 0 {
            Err(too_deep())
        } else {
            let (tag, payload) = tagged_at(h, i);
            match data_of(h, (d - 1) as nat, payload) {
                Ok(p) => Ok(
                    DataV::Tag(TAG_GENERIC, Box::new(DataV::Array(seq![DataV::Text(tag), p]))),
                ),
                Err(m) => Err(m),
            }
        },
        _ => Err(kind_of(v) + " is not data and cannot be encoded"@),
    }
}

/// The data of the first `n` items.
pub open spec fn data_of_items(h: Seq<CellV>, d: nat, xs: Seq<Value>, n: int) -> Result<
    Seq<DataV>,
    Seq<char>,
>
    decreases d, 1int, n,
{
    if n <= 0 || n > xs.len() {
        Ok(Seq::empty())
    } else {
        match data_of_items(h, d, xs, n - 1) {
            Err(m) => Err(m),
            Ok(ds) => match data_of(h, d, xs[n - 1]) {
                Err(m) => Err(m),
                Ok(x) => Ok(ds.push(x)),
            },
        }
    }
}

/// The data of the first `n` entries.
pub open spec fn data_of_entries(h: Seq<CellV>, d: nat, m: Seq<(Value, Value)>, n: int) -> Result<
    Seq<(DataV, DataV)>,
    Seq<char>,
>
    decreases d, 1int, n,
{
    if n <= 0 || n > m.len() {
        Ok(Seq::empty())
    } else {
        match data_of_entries(h, d, m, n - 1) {
            Err(e) => Err(e),
            Ok(ps) => match data_of(h, d, m[n - 1].0) {
                Err(e) => Err(e),
                Ok(k) => match data_of(h, d, m[n - 1].1) {
                    Err(e) => Err(e),
                    Ok(x) => Ok(ps.push((k, x))),
                },
            },
        }
    }
}

/// The result is the one that the model says.
pub open spec fn same_result(r: Result<Data, String>, s: Result<DataV, Seq<char>>) -> bool {
    match (r, s) {
        (Ok(x), Ok(y)) => x@ == y,
        (Err(x), Err(y)) => x@ == y,
        _ => false,
    }
}

proof fn lemma_data_items_err(h: Seq<CellV>, d: nat, xs: Seq<Value>, i: int, n: int)
    requires
        0 <= i <= n <= xs.len(),
        data_of_items(h, d, xs, i) is Err,
    ensures
        data_of_items(h, d, xs, n) == data_of_items(h, d, xs, i),
    decreases n,
{
    if i < n {
        lemma_data_items_err(h, d, xs, i, n - 1);
    }
}

proof fn lemma_data_entries_err(h: Seq<CellV>, d: nat, m: Seq<(Value, Value)>, i: int, n: int)
    requires
        0 <= i <= n <= m.len(),
        data_of_entries(h, d, m, i) is Err,
    ensures
        data_of_entries(h, d, m, n) == data_of_entries(h, d, m, i),
    decreases n,
{
    if i < n {
        lemma_data_entries_err(h, d, m, i, n - 1);
    }
}

fn not_data(v: Value) -> (r: String)
    ensures
        r@ == kind_of(v) + " is not data and cannot be encoded"@,
{
    let mut m: String = v.kind().to_owned();
    m.append(" is not data and cannot be encoded");
    m
}

fn deep() -> (r: String)
    ensures
        r@ == too_deep(),
{
    "value is nested too deeply".to_owned()
}

impl Heap {
    /// The data of `v`, nested no deeper than `d`.
    pub fn data_within(&self, d: usize, v: Value) -> (r: Result<Data, String>)
        ensures
            same_result(r, data_of(self@, d as nat, v)),
        decreases d, 0int,
    {
        match v {
            Value::Nil => Ok(Data::Null),
            Value::Bool(b) => Ok(Data::Bool(b)),
            Value::Int(i) => Ok(int_data(i)),
            Value::Float(b) => Ok(Data::Float(b)),
            Value::Str(i) => Ok(Data::Text(self.str_at(i).to_owned())),
            Value::Bytes(i) => Ok(Data::Bytes(self.bytes(i))),
            Value::Array(i) => {
                if d == 0 {
                    return Err(deep());
                }
                let xs: Vec<Value> = self.items(i);
                let ds: Vec<Data> = self.items_data(d - 1, &xs)?;
                proof {
                    lemma_items(ds);
                }
                Ok(Data::Array(ds))
            },
            Value::Dict(i) => {
                if d == 0 {
                    return Err(deep());
                }
                let m: Vec<(Value, Value)> = self.entries(i);
                let ps: Vec<(Data, Data)> = self.entries_data(d - 1, &m)?;
                proof {
                    lemma_pairs(ps);
                }
                Ok(Data::Dict(ps))
            },
            Value::Tagged(i) => {
                if d == 0 {
                    return Err(deep());
                }
                let (tag, payload) = self.tagged_at(i);
                let p: Data = self.data_within(d - 1, payload)?;
                Ok(Data::Tag(TAG_GENERIC, Box::new(array2(Data::Text(tag.to_owned()), p))))
            },
            _ => Err(not_data(v)),
        }
    }

    pub(crate) fn items_data(&self, d: usize, xs: &Vec<Value>) -> (r: Result<Vec<Data>, String>)
        ensures
            match (r, data_of_items(self@, d as nat, xs@, xs@.len() as int)) {
                (Ok(x), Ok(y)) => items_v(x) == y,
                (Err(x), Err(y)) => x@ == y,
                _ => false,
            },
        decreases d, 1int,
    {
        let mut out: Vec<Data> = Vec::new();
        let mut i: usize = 0;
        proof {
            lemma_items(out);
            assert(items_v(out) =~= Seq::<DataV>::empty());
        }
        while i < xs.len()
            invariant
                i <= xs@.len(),
                data_of_items(self@, d as nat, xs@, i as int) == Ok::<Seq<DataV>, Seq<char>>(
                    items_v(out),
                ),
            decreases xs@.len() - i,
        {
            match self.data_within(d, xs[i]) {
                Err(m) => {
                    proof {
                        lemma_data_items_err(self@, d as nat, xs@, i + 1, xs@.len() as int);
                    }
                    return Err(m);
                },
                Ok(x) => {
                    let ghost before = out;
                    out.push(x);
                    proof {
                        lemma_items_push(before, out, x);
                    }
                },
            }
            i = i + 1;
        }
        Ok(out)
    }

    fn entries_data(&self, d: usize, m: &Vec<(Value, Value)>) -> (r: Result<
        Vec<(Data, Data)>,
        String,
    >)
        ensures
            match (r, data_of_entries(self@, d as nat, m@, m@.len() as int)) {
                (Ok(x), Ok(y)) => pairs_v(x) == y,
                (Err(x), Err(y)) => x@ == y,
                _ => false,
            },
        decreases d, 1int,
    {
        let mut out: Vec<(Data, Data)> = Vec::new();
        let mut i: usize = 0;
        proof {
            lemma_pairs(out);
            assert(pairs_v(out) =~= Seq::<(DataV, DataV)>::empty());
        }
        while i < m.len()
            invariant
                i <= m@.len(),
                data_of_entries(self@, d as nat, m@, i as int) == Ok::<
                    Seq<(DataV, DataV)>,
                    Seq<char>,
                >(pairs_v(out)),
            decreases m@.len() - i,
        {
            match self.data_within(d, m[i].0) {
                Err(e) => {
                    proof {
                        lemma_data_entries_err(self@, d as nat, m@, i + 1, m@.len() as int);
                    }
                    return Err(e);
                },
                Ok(k) => match self.data_within(d, m[i].1) {
                    Err(e) => {
                        proof {
                            lemma_data_entries_err(self@, d as nat, m@, i + 1, m@.len() as int);
                        }
                        return Err(e);
                    },
                    Ok(x) => {
                        let ghost before = out;
                        out.push((k, x));
                        proof {
                            lemma_pairs_push(before, out, k, x);
                        }
                    },
                },
            }
            i = i + 1;
        }
        Ok(out)
    }

    /// The data of `v`.
    pub fn to_cbor(&self, v: Value) -> (r: Result<Data, String>)
        ensures
            same_result(r, data_of(self@, self@.len(), v)),
    {
        self.data_within(self.cells.len(), v)
    }

    /// The bytes of `v`.
    pub fn encode(&self, v: Value) -> (r: Result<Vec<u8>, String>)
        ensures
            match (r, data_of(self@, self@.len(), v)) {
                (Ok(b), Ok(d)) => b@ == cbor_bytes(d),
                (Err(x), Err(y)) => x@ == y,
                _ => false,
            },
    {
        let d: Data = self.to_cbor(v)?;
        Ok(encode(&d))
    }
}

/// The cells once a value is loaded from data, and the value.
pub type Loaded = (Seq<CellV>, Result<Value, Seq<char>>);

/// The value of data, and the cells once it is loaded.
pub open spec fn loaded(h: Seq<CellV>, d: DataV) -> Loaded
    decreases d, 0int, 0int,
{
    match d {
        DataV::Null => (h, Ok(Value::Nil)),
        DataV::Bool(b) => (h, Ok(Value::Bool(b))),
        DataV::UInt(n) => (
            h,
            if n <= i64::MAX {
                Ok(Value::Int(n as i64))
            } else {
                Err("integer out of i64 range"@)
            },
        ),
        DataV::NInt(n) => (
            h,
            if n <= i64::MAX {
                Ok(Value::Int((-1 - n) as i64))
            } else {
                Err("integer out of i64 range"@)
            },
        ),
        DataV::Float(b) => (
            h,
            if is_nan(b) {
                Err("NaN is not a value"@)
            } else {
                Ok(Value::Float(b))
            },
        ),
        DataV::Text(s) => (h.push(CellV::Str(s)), Ok(Value::Str(h.len() as usize))),
        DataV::Bytes(b) => (h.push(CellV::Bytes(b)), Ok(Value::Bytes(h.len() as usize))),
        DataV::Array(xs) => {
            let (g, r) = loaded_items(h, xs, xs.len() as int);
            match r {
                Ok(vs) => (g.push(CellV::Array(vs)), Ok(Value::Array(g.len() as usize))),
                Err(m) => (g, Err(m)),
            }
        },
        DataV::Dict(ps) => {
            let (g, r) = loaded_pairs(h, ps, ps.len() as int);
            match r {
                Ok(es) => (g.push(CellV::Dict(es)), Ok(Value::Dict(g.len() as usize))),
                Err(m) => (g, Err(m)),
            }
        },
        DataV::Tag(n, inner) => if n == TAG_GENERIC {
            match *inner {
                DataV::Array(parts) => if parts.len() == 2 {
                    match parts[0] {
                        DataV::Text(tag) => {
                            let (g, r) = loaded(h, parts[1]);
                            match r {
                                Ok(p) => (
                                    g.push(CellV::Tagged(tag, p)),
                                    Ok(Value::Tagged(g.len() as usize)),
                                ),
                                Err(m) => (g, Err(m)),
                            }
                        },
                        _ => (h, Err("tag name must be text"@)),
                    }
                } else {
                    (h, Err("tag 27 payload must be [name, value]"@))
                },
                _ => (h, Err("tag 27 payload must be [name, value]"@)),
            }
        } else {
            (h, Err("unknown CBOR tag "@ + dec(n as nat)))
        },
    }
}

/// The values of the first `n` items.
pub open spec fn loaded_items(h: Seq<CellV>, xs: Seq<DataV>, n: int) -> (
    Seq<CellV>,
    Result<Seq<Value>, Seq<char>>,
)
    decreases xs, 1int, n,
{
    if n <= 0 || n > xs.len() {
        (h, Ok(Seq::empty()))
    } else {
        let (g, r) = loaded_items(h, xs, n - 1);
        match r {
            Err(m) => (g, Err(m)),
            Ok(vs) => {
                let (k, s) = loaded(g, xs[n - 1]);
                match s {
                    Err(m) => (k, Err(m)),
                    Ok(v) => (k, Ok(vs.push(v))),
                }
            },
        }
    }
}

/// The entries of the first `n` pairs: of two with one key the later stays.
pub open spec fn loaded_pairs(h: Seq<CellV>, ps: Seq<(DataV, DataV)>, n: int) -> (
    Seq<CellV>,
    Result<Seq<(Value, Value)>, Seq<char>>,
)
    decreases ps, 1int, n,
{
    if n <= 0 || n > ps.len() {
        (h, Ok(Seq::empty()))
    } else {
        let (g, r) = loaded_pairs(h, ps, n - 1);
        match r {
            Err(m) => (g, Err(m)),
            Ok(es) => {
                let (a, s) = loaded(g, ps[n - 1].0);
                match s {
                    Err(m) => (a, Err(m)),
                    Ok(k) => if !is_scalar(a, k) {
                        (a, Err("map key must be scalar, got "@ + kind_of(k)))
                    } else {
                        let (b, t) = loaded(a, ps[n - 1].1);
                        match t {
                            Err(m) => (b, Err(m)),
                            Ok(v) => (b, Ok(entry_put(b, es, k, v))),
                        }
                    },
                }
            },
        }
    }
}

/// The value loaded is the one that the model says.
pub open spec fn same_value(r: Result<Value, String>, s: Result<Value, Seq<char>>) -> bool {
    match (r, s) {
        (Ok(x), Ok(y)) => x == y,
        (Err(x), Err(y)) => x@ == y,
        _ => false,
    }
}

proof fn lemma_loaded_items_err(h: Seq<CellV>, xs: Seq<DataV>, i: int, n: int)
    requires
        0 <= i <= n <= xs.len(),
        loaded_items(h, xs, i).1 is Err,
    ensures
        loaded_items(h, xs, n) == loaded_items(h, xs, i),
    decreases n,
{
    if i < n {
        lemma_loaded_items_err(h, xs, i, n - 1);
    }
}

proof fn lemma_loaded_pairs_err(h: Seq<CellV>, ps: Seq<(DataV, DataV)>, i: int, n: int)
    requires
        0 <= i <= n <= ps.len(),
        loaded_pairs(h, ps, i).1 is Err,
    ensures
        loaded_pairs(h, ps, n) == loaded_pairs(h, ps, i),
    decreases n,
{
    if i < n {
        lemma_loaded_pairs_err(h, ps, i, n - 1);
    }
}

/// Loads the value of data.
pub fn from_cbor(heap: &mut Heap, d: &Data) -> (r: Result<Value, String>)
    ensures
        final(heap)@ == loaded(old(heap)@, d@).0,
        same_value(r, loaded(old(heap)@, d@).1),
    decreases d, 0int,
{
    match d {
        Data::Null => Ok(Value::Nil),
        Data::Bool(b) => Ok(Value::Bool(*b)),
        Data::UInt(n) => if *n <= i64::MAX as u64 {
            Ok(Value::Int(*n as i64))
        } else {
            Err("integer out of i64 range".to_owned())
        },
        Data::NInt(n) => if *n <= i64::MAX as u64 {
            Ok(Value::Int((-1 - *n as i128) as i64))
        } else {
            Err("integer out of i64 range".to_owned())
        },
        Data::Float(b) => Value::float(*b),
        Data::Text(s) => Ok(heap.str(s.as_str())),
        Data::Bytes(b) => {
            let i: usize = heap.put(Cell::Bytes(copy_bytes(b.as_slice())));
            Ok(Value::Bytes(i))
        },
        Data::Array(xs) => {
            proof {
                lemma_items(*xs);
            }
            let vs: Vec<Value> = load_items(heap, xs)?;
            Ok(heap.array(vs))
        },
        Data::Dict(ps) => {
            proof {
                lemma_pairs(*ps);
            }
            let es: Vec<(Value, Value)> = load_pairs(heap, ps)?;
            Ok(heap.map(es))
        },
        Data::Tag(n, inner) => {
            if *n != TAG_GENERIC {
                let mut m: String = "unknown CBOR tag ".to_owned();
                m.append(dec_u64(*n).as_str());
                return Err(m);
            }
            let ghost iv = (**inner)@;
            match &**inner {
                Data::Array(parts) => {
                    proof {
                        lemma_items(*parts);
                    }
                    if parts.len() != 2 {
                        return Err("tag 27 payload must be [name, value]".to_owned());
                    }
                    let ghost a = items_v(*parts)[0];
                    let ghost b = items_v(*parts)[1];
                    match &parts[0] {
                        Data::Text(tag) => {
                            let p: Value = from_cbor(heap, &parts[1])?;
                            Ok(heap.tagged(tag.as_str(), p))
                        },
                        _ => Err("tag name must be text".to_owned()),
                    }
                },
                _ => Err("tag 27 payload must be [name, value]".to_owned()),
            }
        },
    }
}

fn load_items(heap: &mut Heap, xs: &Vec<Data>) -> (r: Result<Vec<Value>, String>)
    ensures
        ({
            let (g, s) = loaded_items(old(heap)@, items_v(*xs), xs@.len() as int);
            final(heap)@ == g && match (r, s) {
                (Ok(x), Ok(y)) => x@ == y,
                (Err(x), Err(y)) => x@ == y,
                _ => false,
            }
        }),
    decreases xs, 1int,
{
    let ghost h0 = heap@;
    let ghost xv = items_v(*xs);
    let mut out: Vec<Value> = Vec::new();
    let mut i: usize = 0;
    proof {
        lemma_items(*xs);
    }
    while i < xs.len()
        invariant
            i <= xs@.len(),
            xv == items_v(*xs),
            xv.len() == xs@.len(),
            h0 == old(heap)@,
            forall|j: int| 0 <= j < xs@.len() ==> #[trigger] xv[j] == xs@[j]@,
            loaded_items(h0, xv, i as int) == (heap@, Ok::<Seq<Value>, Seq<char>>(out@)),
        decreases xs@.len() - i,
    {
        let ghost x = xv[i as int];
        match from_cbor(heap, &xs[i]) {
            Err(m) => {
                proof {
                    lemma_loaded_items_err(h0, xv, i + 1, xv.len() as int);
                }
                return Err(m);
            },
            Ok(v) => {
                out.push(v);
            },
        }
        i = i + 1;
    }
    Ok(out)
}

fn load_pairs(heap: &mut Heap, ps: &Vec<(Data, Data)>) -> (r: Result<Vec<(Value, Value)>, String>)
    ensures
        ({
            let (g, s) = loaded_pairs(old(heap)@, pairs_v(*ps), ps@.len() as int);
            final(heap)@ == g && match (r, s) {
                (Ok(x), Ok(y)) => x@ == y,
                (Err(x), Err(y)) => x@ == y,
                _ => false,
            }
        }),
    decreases ps, 1int,
{
    let ghost h0 = heap@;
    let ghost pv = pairs_v(*ps);
    let mut out: Vec<(Value, Value)> = Vec::new();
    let mut i: usize = 0;
    proof {
        lemma_pairs(*ps);
    }
    while i < ps.len()
        invariant
            i <= ps@.len(),
            pv == pairs_v(*ps),
            pv.len() == ps@.len(),
            h0 == old(heap)@,
            forall|j: int| 0 <= j < ps@.len() ==> #[trigger] pv[j] == (ps@[j].0@, ps@[j].1@),
            loaded_pairs(h0, pv, i as int) == (heap@, Ok::<Seq<(Value, Value)>, Seq<char>>(out@)),
        decreases ps@.len() - i,
    {
        let ghost x = pv[i as int];
        let k: Value = match from_cbor(heap, &ps[i].0) {
            Err(m) => {
                proof {
                    lemma_loaded_pairs_err(h0, pv, i + 1, pv.len() as int);
                }
                return Err(m);
            },
            Ok(k) => k,
        };
        if !heap.is_scalar(k) {
            let mut m: String = "map key must be scalar, got ".to_owned();
            m.append(k.kind());
            proof {
                lemma_loaded_pairs_err(h0, pv, i + 1, pv.len() as int);
            }
            return Err(m);
        }
        match from_cbor(heap, &ps[i].1) {
            Err(m) => {
                proof {
                    lemma_loaded_pairs_err(h0, pv, i + 1, pv.len() as int);
                }
                return Err(m);
            },
            Ok(v) => {
                heap.entry_put(&mut out, k, v);
            },
        }
        i = i + 1;
    }
    Ok(out)
}

/// The value of bytes, and the cells once it is loaded.
pub open spec fn decoded(h: Seq<CellV>, b: Seq<u8>) -> Loaded {
    match cbor_read(b) {
        Ok(d) => loaded(h, d),
        Err(m) => (h, Err(m)),
    }
}

/// Loads the value of bytes.
pub fn decode_value(heap: &mut Heap, bytes: &[u8]) -> (r: Result<Value, String>)
    ensures
        final(heap)@ == decoded(old(heap)@, bytes@).0,
        same_value(r, decoded(old(heap)@, bytes@).1),
{
    let d: Data = decode(bytes)?;
    from_cbor(heap, &d)
}

/// The text of a key in JSON.
pub open spec fn json_key(h: Seq<CellV>, k: Value) -> Option<Seq<char>> {
    match k {
        Value::Str(i) => Some(str_at(h, i)),
        Value::Int(i) => Some(dec_int(i as int)),
        _ => None,
    }
}

/// The JSON of `v`, nested no deeper than `d`.
pub open spec fn json_of(h: Seq<CellV>, d: nat, v: Value) -> Result<JsonV, Seq<char>>
    decreases d, 0int, 0int,
{
    match v {
        Value::Nil => Ok(JsonV::Null),
        Value::Bool(b) => Ok(JsonV::Bool(b)),
        Value::Int(i) => Ok(JsonV::Int(i)),
        Value::Float(b) => if finite(b) {
            Ok(JsonV::Float(b))
        } else {
            Err("non-finite float in JSON boundary"@)
        },
        Value::Str(i) => Ok(JsonV::Str(str_at(h, i))),
        Value::Array(i) => if d == 0 {
            Err(too_deep())
        } else {
            let xs = array_at(h, i);
            match json_of_list(h, (d - 1) as nat, xs, xs.len() as int) {
                Ok(ds) => Ok(JsonV::Array(ds)),
                Err(m) => Err(m),
            }
        },
        Value::Dict(i) => if d == 0 {
            Err(too_deep())
        } else {
            let m = map_at(h, i);
            match json_of_entries(h, (d - 1) as nat, m, m.len() as int) {
                Ok(ps) => Ok(JsonV::Object(ps)),
                Err(m) => Err(m),
            }
        },
        _ => Err(kind_of(v) + " cannot cross the JSON boundary"@),
    }
}

/// The JSON of the first `n` items.
pub open spec fn json_of_list(h: Seq<CellV>, d: nat, xs: Seq<Value>, n: int) -> Result<
    Seq<JsonV>,
    Seq<char>,
>
    decreases d, 1int, n,
{
    if n <= 0 || n > xs.len() {
        Ok(Seq::empty())
    } else {
        match json_of_list(h, d, xs, n - 1) {
            Err(m) => Err(m),
            Ok(ds) => match json_of(h, d, xs[n - 1]) {
                Err(m) => Err(m),
                Ok(x) => Ok(ds.push(x)),
            },
        }
    }
}

/// The JSON of the first `n` entries.
pub open spec fn json_of_entries(h: Seq<CellV>, d: nat, m: Seq<(Value, Value)>, n: int) -> Result<
    Seq<(Seq<char>, JsonV)>,
    Seq<char>,
>
    decreases d, 1int, n,
{
    if n <= 0 || n > m.len() {
        Ok(Seq::empty())
    } else {
        match json_of_entries(h, d, m, n - 1) {
            Err(e) => Err(e),
            Ok(ps) => match json_key(h, m[n - 1].0) {
                None => Err(
                    "JSON map key must be string/int, got "@ + kind_of(m[n - 1].0),
                ),
                Some(k) => match json_of(h, d, m[n - 1].1) {
                    Err(e) => Err(e),
                    Ok(x) => Ok(with_member(ps, k, x)),
                },
            },
        }
    }
}

proof fn lemma_json_list_err(h: Seq<CellV>, d: nat, xs: Seq<Value>, i: int, n: int)
    requires
        0 <= i <= n <= xs.len(),
        json_of_list(h, d, xs, i) is Err,
    ensures
        json_of_list(h, d, xs, n) == json_of_list(h, d, xs, i),
    decreases n,
{
    if i < n {
        lemma_json_list_err(h, d, xs, i, n - 1);
    }
}

proof fn lemma_json_entries_err(h: Seq<CellV>, d: nat, m: Seq<(Value, Value)>, i: int, n: int)
    requires
        0 <= i <= n <= m.len(),
        json_of_entries(h, d, m, i) is Err,
    ensures
        json_of_entries(h, d, m, n) == json_of_entries(h, d, m, i),
    decreases n,
{
    if i < n {
        lemma_json_entries_err(h, d, m, i, n - 1);
    }
}

impl Heap {
    fn json_within(&self, d: usize, v: Value) -> (r: Result<Json, String>)
        ensures
            match (r, json_of(self@, d as nat, v)) {
                (Ok(x), Ok(y)) => x@ == y,
                (Err(x), Err(y)) => x@ == y,
                _ => false,
            },
        decreases d, 0int,
    {
        match v {
            Value::Nil => Ok(Json::Null),
            Value::Bool(b) => Ok(Json::Bool(b)),
            Value::Int(i) => Ok(Json::Int(i)),
            Value::Float(b) => if is_finite(b) {
                Ok(Json::Float(b))
            } else {
                Err("non-finite float in JSON boundary".to_owned())
            },
            Value::Str(i) => Ok(Json::Str(self.str_at(i).to_owned())),
            Value::Array(i) => {
                if d == 0 {
                    return Err(deep());
                }
                let xs: Vec<Value> = self.items(i);
                let ds: Vec<Json> = self.items_json(d - 1, &xs)?;
                proof {
                    lemma_values(ds);
                }
                Ok(Json::Array(ds))
            },
            Value::Dict(i) => {
                if d == 0 {
                    return Err(deep());
                }
                let m: Vec<(Value, Value)> = self.entries(i);
                let ps: Vec<(String, Json)> = self.entries_json(d - 1, &m)?;
                proof {
                    lemma_members(ps);
                }
                Ok(Json::Object(ps))
            },
            _ => {
                let mut m: String = v.kind().to_owned();
                m.append(" cannot cross the JSON boundary");
                Err(m)
            },
        }
    }

    fn items_json(&self, d: usize, xs: &Vec<Value>) -> (r: Result<Vec<Json>, String>)
        ensures
            match (r, json_of_list(self@, d as nat, xs@, xs@.len() as int)) {
                (Ok(x), Ok(y)) => values_v(x) == y,
                (Err(x), Err(y)) => x@ == y,
                _ => false,
            },
        decreases d, 1int,
    {
        let mut out: Vec<Json> = Vec::new();
        let mut i: usize = 0;
        proof {
            lemma_values(out);
            assert(values_v(out) =~= Seq::<JsonV>::empty());
        }
        while i < xs.len()
            invariant
                i <= xs@.len(),
                json_of_list(self@, d as nat, xs@, i as int) == Ok::<Seq<JsonV>, Seq<char>>(
                    values_v(out),
                ),
            decreases xs@.len() - i,
        {
            match self.json_within(d, xs[i]) {
                Err(m) => {
                    proof {
                        lemma_json_list_err(self@, d as nat, xs@, i + 1, xs@.len() as int);
                    }
                    return Err(m);
                },
                Ok(x) => {
                    let ghost before = out;
                    out.push(x);
                    proof {
                        lemma_values_push(before, out, x);
                    }
                },
            }
            i = i + 1;
        }
        Ok(out)
    }

    fn key_text(&self, k: Value) -> (r: Option<String>)
        ensures
            match (r, json_key(self@, k)) {
                (Some(x), Some(y)) => x@ == y,
                (None, None) => true,
                _ => false,
            },
    {
        match k {
            Value::Str(i) => Some(self.str_at(i).to_owned()),
            Value::Int(i) => Some(dec_i64(i)),
            _ => None,
        }
    }

    fn entries_json(&self, d: usize, m: &Vec<(Value, Value)>) -> (r: Result<
        Vec<(String, Json)>,
        String,
    >)
        ensures
            match (r, json_of_entries(self@, d as nat, m@, m@.len() as int)) {
                (Ok(x), Ok(y)) => members_v(x) == y,
                (Err(x), Err(y)) => x@ == y,
                _ => false,
            },
        decreases d, 1int,
    {
        let mut out: Vec<(String, Json)> = Vec::new();
        let mut i: usize = 0;
        proof {
            lemma_members(out);
            assert(members_v(out) =~= Seq::<(Seq<char>, JsonV)>::empty());
        }
        while i < m.len()
            invariant
                i <= m@.len(),
                json_of_entries(self@, d as nat, m@, i as int) == Ok::<
                    Seq<(Seq<char>, JsonV)>,
                    Seq<char>,
                >(members_v(out)),
            decreases m@.len() - i,
        {
            match self.key_text(m[i].0) {
                None => {
                    let mut e: String = "JSON map key must be string/int, got ".to_owned();
                    e.append(m[i].0.kind());
                    proof {
                        lemma_json_entries_err(self@, d as nat, m@, i + 1, m@.len() as int);
                    }
                    return Err(e);
                },
                Some(k) => match self.json_within(d, m[i].1) {
                    Err(e) => {
                        proof {
                            lemma_json_entries_err(self@, d as nat, m@, i + 1, m@.len() as int);
                        }
                        return Err(e);
                    },
                    Ok(x) => {
                        set_member(&mut out, k.as_str(), x);
                    },
                },
            }
            i = i + 1;
        }
        Ok(out)
    }

    /// The JSON of `v`.
    pub fn to_json(&self, v: Value) -> (r: Result<Json, String>)
        ensures
            match (r, json_of(self@, self@.len(), v)) {
                (Ok(x), Ok(y)) => x@ == y,
                (Err(x), Err(y)) => x@ == y,
                _ => false,
            },
    {
        self.json_within(self.cells.len(), v)
    }
}

/// The value of JSON, and the cells once it is loaded. An integer beyond 64
/// bits with a sign becomes the float nearest to it, which is a fact to be
/// known.
pub open spec fn loaded_json(h: Seq<CellV>, f: Seq<FactV>, j: JsonV) -> (Seq<CellV>, TryV<Value>)
    decreases j, 0int, 0int,
{
    match j {
        JsonV::Null => (h, TryV::Done(Value::Nil)),
        JsonV::Bool(b) => (h, TryV::Done(Value::Bool(b))),
        JsonV::Int(n) => (h, TryV::Done(Value::Int(n))),
        JsonV::UInt(n) => (
            h,
            match of_int(f, n as i128) {
                Some(b) => TryV::Done(Value::Float(b)),
                None => TryV::Need(AskV::OfInt(n as i128)),
            },
        ),
        JsonV::Float(b) => (h, TryV::Done(Value::Float(b))),
        JsonV::Str(s) => (h.push(CellV::Str(s)), TryV::Done(Value::Str(h.len() as usize))),
        JsonV::Array(xs) => {
            let (g, r) = loaded_list(h, f, xs, xs.len() as int);
            match r {
                TryV::Done(vs) => (
                    g.push(CellV::Array(vs)),
                    TryV::Done(Value::Array(g.len() as usize)),
                ),
                TryV::Fail(m) => (g, TryV::Fail(m)),
                TryV::Need(q) => (g, TryV::Need(q)),
            }
        },
        JsonV::Object(ms) => {
            let (g, r) = loaded_object(h, f, ms, ms.len() as int);
            match r {
                TryV::Done(es) => (
                    g.push(CellV::Dict(es)),
                    TryV::Done(Value::Dict(g.len() as usize)),
                ),
                TryV::Fail(m) => (g, TryV::Fail(m)),
                TryV::Need(q) => (g, TryV::Need(q)),
            }
        },
    }
}

/// The values of the first `n` elements.
pub open spec fn loaded_list(h: Seq<CellV>, f: Seq<FactV>, xs: Seq<JsonV>, n: int) -> (
    Seq<CellV>,
    TryV<Seq<Value>>,
)
    decreases xs, 1int, n,
{
    if n <= 0 || n > xs.len() {
        (h, TryV::Done(Seq::empty()))
    } else {
        let (g, r) = loaded_list(h, f, xs, n - 1);
        match r {
            TryV::Done(vs) => {
                let (k, s) = loaded_json(g, f, xs[n - 1]);
                match s {
                    TryV::Done(v) => (k, TryV::Done(vs.push(v))),
                    TryV::Fail(m) => (k, TryV::Fail(m)),
                    TryV::Need(q) => (k, TryV::Need(q)),
                }
            },
            other => (g, other),
        }
    }
}

/// The entries of the first `n` members.
pub open spec fn loaded_object(
    h: Seq<CellV>,
    f: Seq<FactV>,
    ms: Seq<(Seq<char>, JsonV)>,
    n: int,
) -> (Seq<CellV>, TryV<Seq<(Value, Value)>>)
    decreases ms, 1int, n,
{
    if n <= 0 || n > ms.len() {
        (h, TryV::Done(Seq::empty()))
    } else {
        let (g, r) = loaded_object(h, f, ms, n - 1);
        match r {
            TryV::Done(es) => {
                let k = Value::Str(g.len() as usize);
                let (b, s) = loaded_json(g.push(CellV::Str(ms[n - 1].0)), f, ms[n - 1].1);
                match s {
                    TryV::Done(v) => (b, TryV::Done(entry_put(b, es, k, v))),
                    TryV::Fail(m) => (b, TryV::Fail(m)),
                    TryV::Need(q) => (b, TryV::Need(q)),
                }
            },
            other => (g, other),
        }
    }
}

/// The outcome is the one that the model says.
pub open spec fn same_try(r: Try<Value>, s: TryV<Value>) -> bool {
    match (r, s) {
        (Try::Done(x), TryV::Done(y)) => x == y,
        (Try::Fail(x), TryV::Fail(y)) => x@ == y,
        (Try::Need(x), TryV::Need(y)) => x@ == y,
        _ => false,
    }
}

proof fn lemma_loaded_list_stop(h: Seq<CellV>, f: Seq<FactV>, xs: Seq<JsonV>, i: int, n: int)
    requires
        0 <= i <= n <= xs.len(),
        !(loaded_list(h, f, xs, i).1 is Done),
    ensures
        loaded_list(h, f, xs, n) == loaded_list(h, f, xs, i),
    decreases n,
{
    if i < n {
        lemma_loaded_list_stop(h, f, xs, i, n - 1);
    }
}

proof fn lemma_loaded_object_stop(
    h: Seq<CellV>,
    f: Seq<FactV>,
    ms: Seq<(Seq<char>, JsonV)>,
    i: int,
    n: int,
)
    requires
        0 <= i <= n <= ms.len(),
        !(loaded_object(h, f, ms, i).1 is Done),
    ensures
        loaded_object(h, f, ms, n) == loaded_object(h, f, ms, i),
    decreases n,
{
    if i < n {
        lemma_loaded_object_stop(h, f, ms, i, n - 1);
    }
}

/// Loads the value of JSON.
pub fn from_json(heap: &mut Heap, floats: &FloatTable, j: &Json) -> (r: Try<Value>)
    ensures
        final(heap)@ == loaded_json(old(heap)@, floats@, j@).0,
        same_try(r, loaded_json(old(heap)@, floats@, j@).1),
    decreases j, 0int,
{
    match j {
        Json::Null => Try::Done(Value::Nil),
        Json::Bool(b) => Try::Done(Value::Bool(*b)),
        Json::Int(n) => Try::Done(Value::Int(*n)),
        Json::UInt(n) => match floats.of_int(*n as i128) {
            Some(b) => Try::Done(Value::Float(b)),
            None => Try::Need(Ask::OfInt(*n as i128)),
        },
        Json::Float(b) => Try::Done(Value::Float(*b)),
        Json::Str(s) => Try::Done(heap.str(s.as_str())),
        Json::Array(xs) => {
            proof {
                lemma_values(*xs);
            }
            match load_list(heap, floats, xs) {
                Try::Done(vs) => Try::Done(heap.array(vs)),
                Try::Fail(m) => Try::Fail(m),
                Try::Need(q) => Try::Need(q),
            }
        },
        Json::Object(ms) => {
            proof {
                lemma_members(*ms);
            }
            match load_object(heap, floats, ms) {
                Try::Done(es) => Try::Done(heap.map(es)),
                Try::Fail(m) => Try::Fail(m),
                Try::Need(q) => Try::Need(q),
            }
        },
    }
}

fn load_list(heap: &mut Heap, floats: &FloatTable, xs: &Vec<Json>) -> (r: Try<Vec<Value>>)
    ensures
        ({
            let (g, s) = loaded_list(old(heap)@, floats@, values_v(*xs), xs@.len() as int);
            final(heap)@ == g && match (r, s) {
                (Try::Done(x), TryV::Done(y)) => x@ == y,
                (Try::Fail(x), TryV::Fail(y)) => x@ == y,
                (Try::Need(x), TryV::Need(y)) => x@ == y,
                _ => false,
            }
        }),
    decreases xs, 1int,
{
    let ghost h0 = heap@;
    let ghost xv = values_v(*xs);
    let mut out: Vec<Value> = Vec::new();
    let mut i: usize = 0;
    proof {
        lemma_values(*xs);
    }
    while i < xs.len()
        invariant
            i <= xs@.len(),
            xv == values_v(*xs),
            xv.len() == xs@.len(),
            h0 == old(heap)@,
            forall|j: int| 0 <= j < xs@.len() ==> #[trigger] xv[j] == xs@[j]@,
            loaded_list(h0, floats@, xv, i as int) == (heap@, TryV::Done(out@)),
        decreases xs@.len() - i,
    {
        let ghost x = xv[i as int];
        match from_json(heap, floats, &xs[i]) {
            Try::Done(v) => {
                out.push(v);
            },
            Try::Fail(m) => {
                proof {
                    lemma_loaded_list_stop(h0, floats@, xv, i + 1, xv.len() as int);
                }
                return Try::Fail(m);
            },
            Try::Need(q) => {
                proof {
                    lemma_loaded_list_stop(h0, floats@, xv, i + 1, xv.len() as int);
                }
                return Try::Need(q);
            },
        }
        i = i + 1;
    }
    Try::Done(out)
}

fn load_object(heap: &mut Heap, floats: &FloatTable, ms: &Vec<(String, Json)>) -> (r: Try<
    Vec<(Value, Value)>,
>)
    ensures
        ({
            let (g, s) = loaded_object(old(heap)@, floats@, members_v(*ms), ms@.len() as int);
            final(heap)@ == g && match (r, s) {
                (Try::Done(x), TryV::Done(y)) => x@ == y,
                (Try::Fail(x), TryV::Fail(y)) => x@ == y,
                (Try::Need(x), TryV::Need(y)) => x@ == y,
                _ => false,
            }
        }),
    decreases ms, 1int,
{
    let ghost h0 = heap@;
    let ghost mv = members_v(*ms);
    let mut out: Vec<(Value, Value)> = Vec::new();
    let mut i: usize = 0;
    proof {
        lemma_members(*ms);
    }
    while i < ms.len()
        invariant
            i <= ms@.len(),
            mv == members_v(*ms),
            mv.len() == ms@.len(),
            h0 == old(heap)@,
            forall|j: int| 0 <= j < ms@.len() ==> #[trigger] mv[j] == (ms@[j].0@, ms@[j].1@),
            loaded_object(h0, floats@, mv, i as int) == (heap@, TryV::Done(out@)),
        decreases ms@.len() - i,
    {
        let ghost x = mv[i as int];
        let k: Value = heap.str(ms[i].0.as_str());
        match from_json(heap, floats, &ms[i].1) {
            Try::Done(v) => {
                heap.entry_put(&mut out, k, v);
            },
            Try::Fail(m) => {
                proof {
                    lemma_loaded_object_stop(h0, floats@, mv, i + 1, mv.len() as int);
                }
                return Try::Fail(m);
            },
            Try::Need(q) => {
                proof {
                    lemma_loaded_object_stop(h0, floats@, mv, i + 1, mv.len() as int);
                }
                return Try::Need(q);
            },
        }
        i = i + 1;
    }
    Try::Done(out)
}

} // verus!
