//! The store of a program: its schema, its reducer, and what the natives of
//! the store do.
//!
//! A program declares `schema` and `fn reduce(event)`. A path that only
//! navigates is a query; one that ends in a terminal navigator is a write, and
//! only the reducer may make it. The reducer sees the globals as they were when
//! the store was bound: it is replayed, so it must not read what changes.

use crate::data::{
    array2, copy_data, is_text, items_v, lemma_items, lemma_items_push, lemma_pairs, pairs_v, Data,
    DataV,
};
use crate::db::{Db, RowV};
use crate::dynpath::{
    add_of, delete_of, navs_for, navs_spelled, peek, peeked, push_of, put_of, same_writes,
};
use crate::error::{message_of, Error, ErrorV};
use crate::float::{scored, FactV, FloatTable};
use crate::interp::{
    call, fn_frame, get_global, host_blamed, replied, Frame, HostCall, Machine, Outcome, STEP_LIMIT,
};
use crate::ir::{Program, ProgramV};
use crate::json::{json_text, write_json, Json, JsonV};
use crate::learning::law_reducers_are_steady;
use crate::machine::{global, steps, steps_left, HostCallV, OutcomeV, StateV};
use crate::modules::{call_lib, call_scored, lib_out, lib_scored, LibOut, LibOutV};
use crate::names::NameMap;
use crate::nav::{navs_v, query_collects, Nav, NavV, Query, QueryV};
use crate::op::{writes_v, OpV, Write};
use crate::query::{array_of, same_data};
use crate::ranking::{ordered_scores, score_lists};
use crate::rt::Vm;
use crate::runtime::{single, Meta, Record, Reducer, Runtime, Tx};
use crate::shape::{fields_v, lemma_fields, Shape, ShapeV};
use crate::terminal::{entries, entries_of, one, one_of, select, selected};
use crate::text::{debug_of_text, debug_text, dec, dec_u64, text_eq};
use crate::value::{
    array_at, copy_entries, copy_values, entry_put, field_of, lib_name, lib_str, map_at,
    native_name, native_str, text_of, too_deep, Ask, AskV, Cell, CellV, Heap, LibId, NativeId, Try,
    TryV, Value,
};
use crate::wire::{data_of, data_of_items, from_cbor, from_json, json_of, loaded, loaded_json};
use vstd::prelude::*;
use vstd::string::*;

verus! {

/// The shape that a value describes, nested no deeper than `d`.
pub open spec fn shape_of_value(h: Seq<CellV>, d: nat, v: Value) -> Result<ShapeV, Seq<char>>
    decreases d, 0int, 0int,
{
    match text_of(h, field_of(h, v, "k"@)) {
        None => Err("schema must be a store.* constructor value"@),
        Some(k) => if k == "leaf"@ {
            Ok(ShapeV::Leaf)
        } else if k == "sum"@ {
            Ok(ShapeV::Sum)
        } else if d == 0 {
            Err(too_deep())
        } else if k == "map"@ {
            match shape_of_value(h, (d - 1) as nat, field_of(h, v, "of"@)) {
                Err(m) => Err(m),
                Ok(of) => Ok(ShapeV::Dict { of: Box::new(of) }),
            }
        } else if k == "list"@ {
            match shape_of_value(h, (d - 1) as nat, field_of(h, v, "of"@)) {
                Err(m) => Err(m),
                Ok(of) => Ok(ShapeV::List { of: Box::new(of) }),
            }
        } else if k == "deque"@ {
            match shape_of_value(h, (d - 1) as nat, field_of(h, v, "of"@)) {
                Err(m) => Err(m),
                Ok(of) => Ok(ShapeV::Deque { of: Box::new(of) }),
            }
        } else if k == "record"@ {
            match field_of(h, v, "fields"@) {
                Value::Array(i) => {
                    let xs = array_at(h, i);
                    match shape_fields(h, (d - 1) as nat, xs, xs.len() as int) {
                        Err(m) => Err(m),
                        Ok(fields) => Ok(ShapeV::Record { fields }),
                    }
                },
                _ => Err("record fields must be an array of [name, shape]"@),
            }
        } else {
            Err("unknown shape tag "@ + debug_of_text(k))
        },
    }
}

/// The value at place `i`; nil where there is none.
pub open spec fn item_or_nil(xs: Seq<Value>, i: int) -> Value {
    if 0 <= i < xs.len() {
        xs[i]
    } else {
        Value::Nil
    }
}

/// The first `n` fields of a record.
pub open spec fn shape_fields(h: Seq<CellV>, d: nat, xs: Seq<Value>, n: int) -> Result<
    Seq<(Seq<char>, ShapeV)>,
    Seq<char>,
>
    decreases d, 1int, n,
{
    if n <= 0 || n > xs.len() {
        Ok(Seq::empty())
    } else {
        match shape_fields(h, d, xs, n - 1) {
            Err(m) => Err(m),
            Ok(fs) => match xs[n - 1] {
                Value::Array(i) => {
                    let pair = array_at(h, i);
                    match text_of(h, item_or_nil(pair, 0)) {
                        None => Err("record field name must be a string"@),
                        Some(name) => match shape_of_value(h, d, item_or_nil(pair, 1)) {
                            Err(m) => Err(m),
                            Ok(s) => Ok(fs.push((name, s))),
                        },
                    }
                },
                _ => Err("record field must be [name, shape]"@),
            },
        }
    }
}

/// The shape read is the one that the model says.
pub open spec fn same_schema(r: Result<Shape, String>, s: Result<ShapeV, Seq<char>>) -> bool {
    match (r, s) {
        (Ok(x), Ok(y)) => x@ == y,
        (Err(x), Err(y)) => x@ == y,
        _ => false,
    }
}

proof fn lemma_shape_fields_err(h: Seq<CellV>, d: nat, xs: Seq<Value>, i: int, n: int)
    requires
        0 <= i <= n <= xs.len(),
        shape_fields(h, d, xs, i) is Err,
    ensures
        shape_fields(h, d, xs, n) == shape_fields(h, d, xs, i),
    decreases n,
{
    if i < n {
        lemma_shape_fields_err(h, d, xs, i, n - 1);
    }
}

fn nth(xs: &Vec<Value>, i: usize) -> (r: Value)
    ensures
        r == item_or_nil(xs@, i as int),
{
    if i < xs.len() {
        xs[i]
    } else {
        Value::Nil
    }
}

fn field_shape(heap: &Heap, d: usize, v: Value) -> (r: Result<(String, Shape), String>)
    ensures
        match (r, v) {
            (Ok((n, s)), Value::Array(i)) => {
                let pair = array_at(heap@, i);
                text_of(heap@, item_or_nil(pair, 0)) == Some(n@) && shape_of_value(
                    heap@,
                    d as nat,
                    item_or_nil(pair, 1),
                ) == Ok::<ShapeV, Seq<char>>(s@)
            },
            (Err(m), Value::Array(i)) => {
                let pair = array_at(heap@, i);
                match text_of(heap@, item_or_nil(pair, 0)) {
                    None => m@ == "record field name must be a string"@,
                    Some(_) => shape_of_value(heap@, d as nat, item_or_nil(pair, 1)) == Err::<
                        ShapeV,
                        Seq<char>,
                    >(m@),
                }
            },
            (Err(m), _) => m@ == "record field must be [name, shape]"@,
            _ => false,
        },
    decreases d, 1int,
{
    match v {
        Value::Array(i) => {
            let pair: Vec<Value> = heap.items(i);
            match heap.as_str(nth(&pair, 0)) {
                None => Err("record field name must be a string".to_owned()),
                Some(name) => {
                    let s: Shape = value_shape_within(heap, d, nth(&pair, 1))?;
                    Ok((name.to_owned(), s))
                },
            }
        },
        _ => Err("record field must be [name, shape]".to_owned()),
    }
}

fn record_shape(heap: &Heap, d: usize, xs: &Vec<Value>) -> (r: Result<
    Vec<(String, Shape)>,
    String,
>)
    ensures
        match (r, shape_fields(heap@, d as nat, xs@, xs@.len() as int)) {
            (Ok(x), Ok(y)) => fields_v(x) == y,
            (Err(x), Err(y)) => x@ == y,
            _ => false,
        },
    decreases d, 2int,
{
    let mut out: Vec<(String, Shape)> = Vec::new();
    let mut i: usize = 0;
    proof {
        lemma_fields(out);
        assert(fields_v(out) =~= Seq::<(Seq<char>, ShapeV)>::empty());
    }
    while i < xs.len()
        invariant
            i <= xs@.len(),
            shape_fields(heap@, d as nat, xs@, i as int) == Ok::<
                Seq<(Seq<char>, ShapeV)>,
                Seq<char>,
            >(fields_v(out)),
        decreases xs@.len() - i,
    {
        match field_shape(heap, d, xs[i]) {
            Err(m) => {
                proof {
                    lemma_shape_fields_err(heap@, d as nat, xs@, i + 1, xs@.len() as int);
                }
                return Err(m);
            },
            Ok(f) => {
                let ghost before = out;
                let ghost fv = (f.0@, f.1@);
                out.push(f);
                proof {
                    lemma_fields(before);
                    lemma_fields(out);
                    assert forall|j: int| 0 <= j < out@.len() implies fields_v(out)[j] == fields_v(
                        before,
                    ).push(fv)[j] by {
                        assert(fields_v(out)[j] == (out@[j].0@, out@[j].1@));
                        if j < before@.len() {
                            assert(fields_v(before)[j] == (before@[j].0@, before@[j].1@));
                        }
                    }
                    assert(fields_v(out) =~= fields_v(before).push(fv));
                }
            },
        }
        i = i + 1;
    }
    Ok(out)
}

fn value_shape_within(heap: &Heap, d: usize, v: Value) -> (r: Result<Shape, String>)
    ensures
        same_schema(r, shape_of_value(heap@, d as nat, v)),
    decreases d, 0int,
{
    let k: &str = match heap.as_str(heap.get_field(v, "k")) {
        None => {
            return Err("schema must be a store.* constructor value".to_owned());
        },
        Some(k) => k,
    };
    if text_eq(k, "leaf") {
        return Ok(Shape::Leaf);
    }
    if text_eq(k, "sum") {
        return Ok(Shape::Sum);
    }
    if d == 0 {
        return Err("value is nested too deeply".to_owned());
    }
    if text_eq(k, "map") {
        let of: Shape = value_shape_within(heap, d - 1, heap.get_field(v, "of"))?;
        Ok(Shape::map(of))
    } else if text_eq(k, "list") {
        let of: Shape = value_shape_within(heap, d - 1, heap.get_field(v, "of"))?;
        Ok(Shape::list(of))
    } else if text_eq(k, "deque") {
        let of: Shape = value_shape_within(heap, d - 1, heap.get_field(v, "of"))?;
        Ok(Shape::deque(of))
    } else if text_eq(k, "record") {
        match heap.get_field(v, "fields") {
            Value::Array(i) => {
                let xs: Vec<Value> = heap.items(i);
                let fields: Vec<(String, Shape)> = record_shape(heap, d - 1, &xs)?;
                Ok(Shape::record(fields))
            },
            _ => Err("record fields must be an array of [name, shape]".to_owned()),
        }
    } else {
        let mut m: String = "unknown shape tag ".to_owned();
        m.append(debug_text(k).as_str());
        Err(m)
    }
}

/// The shape that a value describes.
pub fn value_shape(heap: &Heap, v: Value) -> (r: Result<Shape, String>)
    ensures
        same_schema(r, shape_of_value(heap@, heap@.len(), v)),
{
    value_shape_within(heap, heap.cells.len(), v)
}

/// The steps of the path that is the first argument: those of an array, or one.
pub open spec fn steps_of(h: Seq<CellV>, args: Seq<Value>) -> Result<Seq<DataV>, Seq<char>> {
    if args.len() == 0 {
        Err("expected a path"@)
    } else {
        match args[0] {
            Value::Array(i) => {
                let xs = array_at(h, i);
                data_of_items(h, h.len(), xs, xs.len() as int)
            },
            v => match data_of(h, h.len(), v) {
                Ok(d) => Ok(seq![d]),
                Err(m) => Err(m),
            },
        }
    }
}

/// The steps of a path.
pub fn path_steps(heap: &Heap, args: &Vec<Value>) -> (r: Result<Vec<Data>, String>)
    ensures
        match (r, steps_of(heap@, args@)) {
            (Ok(x), Ok(y)) => items_v(x) == y,
            (Err(x), Err(y)) => x@ == y,
            _ => false,
        },
{
    if args.len() == 0 {
        return Err("expected a path".to_owned());
    }
    match args[0] {
        Value::Array(i) => {
            let xs: Vec<Value> = heap.items(i);
            heap.items_data(heap.cells.len(), &xs)
        },
        v => {
            let d: Data = heap.to_cbor(v)?;
            let mut out: Vec<Data> = Vec::new();
            let ghost none = out;
            out.push(d);
            proof {
                lemma_items(none);
                lemma_items_push(none, out, d);
                assert(items_v(out) =~= seq![d@]);
            }
            Ok(out)
        },
    }
}

/// The terminal navigator that a step is: tag 27 on `["term", [op, value]]`.
pub open spec fn term_of(step: DataV) -> Option<(Seq<char>, DataV)> {
    match step {
        DataV::Tag(t, inner) => if t == 27 {
            match *inner {
                DataV::Array(parts) => if parts.len() == 2 && parts[0] == DataV::Text("term"@) {
                    match parts[1] {
                        DataV::Array(ps) => if ps.len() > 0 {
                            match ps[0] {
                                DataV::Text(op) => Some(
                                    (
                                        op,
                                        if ps.len() > 1 {
                                            ps[1]
                                        } else {
                                            DataV::Null
                                        },
                                    ),
                                ),
                                _ => None,
                            }
                        } else {
                            None
                        },
                        _ => None,
                    }
                } else {
                    None
                },
                _ => None,
            }
        } else {
            None
        },
        _ => None,
    }
}

fn read_term(step: &Data) -> (r: Option<(String, Data)>)
    ensures
        match (r, term_of(step@)) {
            (Some(x), Some(y)) => x.0@ == y.0 && x.1@ == y.1,
            (None, None) => true,
            _ => false,
        },
{
    match step {
        Data::Tag(t, inner) => {
            if *t != 27 {
                return None;
            }
            let ghost iv = (**inner)@;
            match &**inner {
                Data::Array(parts) => {
                    proof {
                        lemma_items(*parts);
                    }
                    if parts.len() != 2 {
                        return None;
                    }
                    let ghost a = items_v(*parts)[0];
                    let ghost b = items_v(*parts)[1];
                    if !is_text(&parts[0], "term") {
                        return None;
                    }
                    match &parts[1] {
                        Data::Array(ps) => {
                            proof {
                                lemma_items(*ps);
                            }
                            if ps.len() == 0 {
                                return None;
                            }
                            let ghost c = items_v(*ps)[0];
                            match &ps[0] {
                                Data::Text(op) => {
                                    if ps.len() > 1 {
                                        let ghost e = items_v(*ps)[1];
                                        Some((op.clone(), copy_data(&ps[1])))
                                    } else {
                                        Some((op.clone(), Data::Null))
                                    }
                                },
                                _ => None,
                            }
                        },
                        _ => None,
                    }
                },
                _ => None,
            }
        },
        _ => None,
    }
}

/// What a terminal navigator writes where `navs` leads.
pub open spec fn term_ops(schema: ShapeV, navs: Seq<NavV>, op: Seq<char>, v: DataV) -> Result<
    Seq<OpV>,
    ErrorV,
> {
    if op == "set"@ {
        put_of(schema, None, navs, v)
    } else if op == "add"@ {
        single(add_of(schema, None, navs, v))
    } else if op == "push"@ {
        single(push_of(schema, None, navs, v))
    } else if op == "del"@ {
        single(delete_of(schema, None, navs))
    } else {
        Err(ErrorV::Query("unknown terminal navigator "@ + debug_of_text(op)))
    }
}

fn one_write(w: Write) -> (r: Vec<Write>)
    ensures
        writes_v(r@) == seq![w@],
{
    let mut out: Vec<Write> = Vec::new();
    out.push(w);
    assert(writes_v(out@) =~= seq![w@]);
    out
}

fn term_writes(schema: &Shape, navs: &Vec<Nav>, op: &str, v: &Data) -> (r: Result<
    Vec<Write>,
    Error,
>)
    ensures
        same_writes(r, term_ops(schema@, navs_v(*navs), op@, v@)),
{
    if text_eq(op, "set") {
        crate::dynpath::put(schema, None, navs, v)
    } else if text_eq(op, "add") {
        let w: Write = crate::dynpath::add(schema, None, navs, v)?;
        Ok(one_write(w))
    } else if text_eq(op, "push") {
        let w: Write = crate::dynpath::push(schema, None, navs, v)?;
        Ok(one_write(w))
    } else if text_eq(op, "del") {
        let w: Write = crate::dynpath::delete(schema, None, navs)?;
        Ok(one_write(w))
    } else {
        let mut m: String = "unknown terminal navigator ".to_owned();
        m.append(debug_text(op).as_str());
        Err(Error::Query(m))
    }
}

/// What a path reads: the array of all items where it can lead to several
/// places, else the item, or null.
pub open spec fn path_read(f: Seq<FactV>, s: Seq<RowV>, schema: ShapeV, navs: Seq<NavV>) -> Result<
    DataV,
    ErrorV,
> {
    let q = QueryV { namespace: None, navs };
    if query_collects(q) {
        match selected(f, s, schema, q) {
            Err(e) => Err(e),
            Ok(vs) => Ok(DataV::Array(vs)),
        }
    } else {
        match one_of(f, s, schema, q) {
            Err(e) => Err(e),
            Ok(Some(v)) => Ok(v),
            Ok(None) => Ok(DataV::Null),
        }
    }
}

fn read_path(floats: &FloatTable, db: &Db, schema: &Shape, navs: Vec<Nav>) -> (r: Result<Data, Error>)
    ensures
        same_data(r, path_read(floats@, db@, schema@, navs_v(navs))),
{
    let q = Query { namespace: None, navs };
    assert(q@ == QueryV { namespace: None, navs: navs_v(navs) });
    if q.is_collecting() {
        let vs: Vec<Data> = select(floats, db, schema, &q)?;
        Ok(array_of(vs))
    } else {
        match one(floats, db, schema, &q)? {
            Some(v) => Ok(v),
            None => Ok(Data::Null),
        }
    }
}

/// What a path does: it reads an item, or it writes.
pub enum PathV {
    Read(DataV),
    Write(Seq<OpV>),
}

/// What the path with these steps does. A reducer reads single places only.
pub open spec fn path_done(
    f: Seq<FactV>,
    s: Seq<RowV>,
    schema: ShapeV,
    steps: Seq<DataV>,
    reducing: bool,
) -> Result<PathV, ErrorV> {
    if steps.len() > 0 && term_of(steps.last()) is Some {
        let (op, v) = term_of(steps.last())->Some_0;
        let front = steps.drop_last();
        match navs_spelled(schema, front, front.len() as int) {
            Err(e) => Err(e),
            Ok((navs, _)) => match term_ops(schema, navs, op, v) {
                Err(e) => Err(e),
                Ok(ops) => Ok(PathV::Write(ops)),
            },
        }
    } else {
        match navs_spelled(schema, steps, steps.len() as int) {
            Err(e) => Err(e),
            Ok((navs, _)) => match if reducing {
                peeked(f, s, schema, None, navs)
            } else {
                path_read(f, s, schema, navs)
            } {
                Err(e) => Err(e),
                Ok(d) => Ok(PathV::Read(d)),
            },
        }
    }
}

/// What a path does.
pub enum PathDone {
    Read(Data),
    Write(Vec<Write>),
}

fn do_path(
    floats: &FloatTable,
    db: &Db,
    schema: &Shape,
    steps: Vec<Data>,
    reducing: bool,
) -> (r: Result<PathDone, Error>)
    ensures
        match (r, path_done(floats@, db@, schema@, items_v(steps), reducing)) {
            (Ok(PathDone::Read(d)), Ok(PathV::Read(v))) => d@ == v,
            (Ok(PathDone::Write(w)), Ok(PathV::Write(v))) => writes_v(w@) == v,
            (Err(e), Err(w)) => e@ == w,
            _ => false,
        },
{
    let ghost sv = items_v(steps);
    proof {
        lemma_items(steps);
    }
    let mut steps: Vec<Data> = steps;
    let n: usize = steps.len();
    let term: Option<(String, Data)> = if n > 0 {
        assert(sv.last() == steps@[n - 1]@);
        read_term(&steps[n - 1])
    } else {
        None
    };
    match term {
        Some((op, v)) => {
            let _ = steps.pop();
            proof {
                lemma_items(steps);
                assert(items_v(steps) =~= sv.drop_last()) by {
                    assert forall|j: int| 0 <= j < steps@.len() implies items_v(steps)[j]
                        == sv.drop_last()[j] by {
                        assert(items_v(steps)[j] == steps@[j]@);
                    }
                }
            }
            let navs: Vec<Nav> = navs_for(schema, &steps)?;
            let ws: Vec<Write> = term_writes(schema, &navs, op.as_str(), &v)?;
            Ok(PathDone::Write(ws))
        },
        None => {
            let navs: Vec<Nav> = navs_for(schema, &steps)?;
            let d: Data = if reducing {
                peek(floats, db, schema, None, &navs)?
            } else {
                read_path(floats, db, schema, navs)?
            };
            Ok(PathDone::Read(d))
        },
    }
}

/// A failure of the host as the reducer's error.
pub open spec fn host_fail(p: ProgramV, m: StateV, msg: Seq<char>) -> ErrorV {
    ErrorV::Reducer(host_blamed(p, m, msg))
}

/// An error of the store as the reducer's; a fact that is wanted stays so.
pub open spec fn store_fail(p: ProgramV, m: StateV, e: ErrorV) -> ErrorV {
    match e {
        ErrorV::Need(q) => ErrorV::Need(q),
        _ => host_fail(p, m, message_of(e)),
    }
}

/// What a reducer asks of its host is done: the machine as it goes on, and the
/// operations so far.
pub open spec fn reduce_host(
    p: ProgramV,
    f: Seq<FactV>,
    s: Seq<RowV>,
    schema: ShapeV,
    m: StateV,
    ops: Seq<OpV>,
    c: HostCallV,
) -> Result<(StateV, Seq<OpV>), ErrorV> {
    match c {
        HostCallV::Print(_) => Ok((replied(m, Value::Nil), ops)),
        HostCallV::Cast { target, hop, vars } => Err(
            host_fail(p, m, "cast is not allowed in a reducer"@),
        ),
        HostCallV::Spawn { callee, args } => Err(
            host_fail(p, m, "spawn is not allowed in a reducer"@),
        ),
        HostCallV::Session => Err(host_fail(p, m, "session() is not allowed in a reducer"@)),
        HostCallV::User => Err(host_fail(p, m, "user() is not available here"@)),
        HostCallV::Native(id, args) => if id == NativeId::StoreCall {
            match steps_of(m.h, args) {
                Err(e) => Err(host_fail(p, m, e)),
                Ok(steps) => match path_done(f, s, schema, steps, true) {
                    Err(e) => Err(store_fail(p, m, e)),
                    Ok(PathV::Write(more)) => Ok((replied(m, Value::Nil), ops + more)),
                    Ok(PathV::Read(d)) => {
                        let (h, r) = loaded(m.h, d);
                        let m2 = StateV { h, ..m };
                        match r {
                            Ok(v) => Ok((replied(m2, v), ops)),
                            Err(e) => Err(host_fail(p, m2, e)),
                        }
                    },
                },
            }
        } else {
            Err(host_fail(p, m, native_name(id) + " is not available in a reducer"@))
        },
        HostCallV::Lib(id, args) => match lib_out(m.h, id, args) {
            LibOutV::Value(v) => Ok((replied(m, v), ops)),
            LibOutV::Fail(e) => Err(host_fail(p, m, e)),
            LibOutV::Data(d) => {
                let (h, r) = loaded(m.h, d);
                let m2 = StateV { h, ..m };
                match r {
                    Ok(v) => Ok((replied(m2, v), ops)),
                    Err(e) => Err(host_fail(p, m2, e)),
                }
            },
            LibOutV::Json(j) => {
                let (h, r) = loaded_json(m.h, f, j);
                let m2 = StateV { h, ..m };
                match r {
                    TryV::Done(v) => Ok((replied(m2, v), ops)),
                    TryV::Fail(e) => Err(host_fail(p, m2, e)),
                    TryV::Need(q) => Err(ErrorV::Need(q)),
                }
            },
            LibOutV::Scores { ids, votes } => match scored(f, ids, votes) {
                None => Err(ErrorV::Need(AskV::Scores(ids, votes))),
                Some(scores) => match lib_scored(m.h, id, args, scores) {
                    LibOutV::Data(d) => {
                        let (h, r) = loaded(m.h, d);
                        let m2 = StateV { h, ..m };
                        match r {
                            Ok(v) => Ok((replied(m2, v), ops)),
                            Err(e) => Err(host_fail(p, m2, e)),
                        }
                    },
                    _ => Err(host_fail(p, m, lib_name(id) + " is not available here"@)),
                },
            },
            _ => Err(host_fail(p, m, lib_name(id) + " is not available here"@)),
        },
    }
}

/// The operations of a reducer that runs on from `m` with `fuel` steps left.
pub open spec fn reduce_run(
    p: ProgramV,
    f: Seq<FactV>,
    s: Seq<RowV>,
    schema: ShapeV,
    m: StateV,
    ops: Seq<OpV>,
    fuel: nat,
) -> Result<Seq<OpV>, ErrorV>
    decreases fuel,
{
    let (m2, o) = steps(p, f, m, fuel);
    let left = steps_left(p, f, m, fuel);
    match o {
        OutcomeV::Done(_) => Ok(ops),
        OutcomeV::Error(e) => Err(ErrorV::Reducer(e)),
        OutcomeV::Suspend { target, hop, vars } => Err(
            ErrorV::Reducer("reducer cannot hop (at "@ + hop + ")"@),
        ),
        OutcomeV::Need(q) => Err(ErrorV::Need(q)),
        OutcomeV::Host(c) => match reduce_host(p, f, s, schema, m2, ops, c) {
            Err(e) => Err(e),
            Ok((m3, ops3)) => if left < fuel {
                reduce_run(p, f, s, schema, m3, ops3, left)
            } else {
                Ok(ops3)
            },
        },
    }
}

/// The event as the reducer sees it: its place on the tape is its field `seq`.
pub open spec fn event_value(h: Seq<CellV>, f: Seq<FactV>, seq: u64, event: JsonV) -> (
    Seq<CellV>,
    TryV<Value>,
) {
    let (g, r) = loaded_json(h, f, event);
    match r {
        TryV::Done(v) => match v {
            Value::Dict(i) => {
                let k = Value::Str(g.len() as usize);
                let g2 = g.push(CellV::Str("seq"@));
                let es = entry_put(g2, map_at(g2, i), k, Value::Int(seq as i64));
                (g2.push(CellV::Dict(es)), TryV::Done(Value::Dict(g2.len() as usize)))
            },
            _ => (g, TryV::Done(v)),
        },
        other => (g, other),
    }
}

/// The program's reducer, as it was when the store was bound.
pub struct HopReducer {
    pub prog: Program,
    pub fn_idx: usize,
    pub heap: Heap,
    pub globals: NameMap<Value>,
    pub schema: Shape,
}

/// The operations of the program's reducer for an event.
pub open spec fn hop_reduced(
    r: HopReducer,
    f: Seq<FactV>,
    s: Seq<RowV>,
    meta: Meta,
    event: JsonV,
) -> Result<Seq<OpV>, ErrorV> {
    let (h, ev) = event_value(r.heap@, f, meta.seq, event);
    match ev {
        TryV::Need(q) => Err(ErrorV::Need(q)),
        TryV::Fail(m) => Err(ErrorV::Reducer(m)),
        TryV::Done(v) => match fn_frame(r.prog@, r.fn_idx, seq![v]) {
            None => Err(ErrorV::Reducer("corrupt program"@)),
            Some(fr) => reduce_run(
                r.prog@,
                f,
                s,
                r.schema@,
                StateV { h, g: r.globals@, frames: seq![fr] },
                Seq::empty(),
                STEP_LIMIT as nat,
            ),
        },
    }
}

fn copy_cell(c: &Cell) -> (r: Cell)
    ensures
        r@ == c@,
{
    match c {
        Cell::Str(s) => Cell::Str(s.clone()),
        Cell::Bytes(b) => Cell::Bytes(crate::bytes::copy_bytes(b.as_slice())),
        Cell::Array(v) => Cell::Array(copy_values(v)),
        Cell::Dict(m) => Cell::Dict(copy_entries(m)),
        Cell::Tagged(t, v) => Cell::Tagged(t.clone(), *v),
        Cell::Closure(f, caps) => Cell::Closure(*f, copy_values(caps)),
    }
}

fn copy_heap(h: &Heap) -> (r: Heap)
    ensures
        r@ == h@,
{
    let mut cells: Vec<Cell> = Vec::new();
    let mut i: usize = 0;
    while i < h.cells.len()
        invariant
            i <= h.cells@.len(),
            cells@.len() == i,
            forall|j: int| 0 <= j < i ==> (#[trigger] cells@[j])@ == h.cells@[j]@,
        decreases h.cells@.len() - i,
    {
        cells.push(copy_cell(&h.cells[i]));
        i = i + 1;
    }
    let r = Heap { cells };
    assert(r@ =~= h@);
    r
}

fn copy_globals(g: &NameMap<Value>) -> (r: NameMap<Value>)
    requires
        g.wf(),
    ensures
        r@ == g@,
        r.wf(),
{
    let mut entries: Vec<(String, Value)> = Vec::new();
    let mut i: usize = 0;
    while i < g.entries.len()
        invariant
            i <= g.entries@.len(),
            entries@.len() == i,
            forall|j: int|
                0 <= j < i ==> (#[trigger] entries@[j]).0@ == g.entries@[j].0@ && entries@[j].1
                    == g.entries@[j].1,
        decreases g.entries@.len() - i,
    {
        entries.push((g.entries[i].0.clone(), g.entries[i].1));
        i = i + 1;
    }
    let r = NameMap { entries };
    proof {
        assert forall|a: int, b: int| 0 <= a < b < r.entries@.len() implies #[trigger] r.entries@[a].0@
            != #[trigger] r.entries@[b].0@ by {
            assert(g.entries@[a].0@ != g.entries@[b].0@);
        }
        lemma_same_entries(r, *g);
    }
    r
}

proof fn lemma_same_entries(a: NameMap<Value>, b: NameMap<Value>)
    requires
        b.wf(),
        a.wf(),
        a.entries@.len() == b.entries@.len(),
        forall|j: int|
            0 <= j < a.entries@.len() ==> (#[trigger] a.entries@[j]).0@ == b.entries@[j].0@
                && a.entries@[j].1 == b.entries@[j].1,
    ensures
        a@ == b@,
{
    assert forall|n: Seq<char>| a@.contains_key(n) <==> b@.contains_key(n) by {
        if a@.contains_key(n) {
            let i = choose|i: int| 0 <= i < a.entries@.len() && #[trigger] a.entries@[i].0@ == n;
            assert(b.entries@[i].0@ == n);
        }
        if b@.contains_key(n) {
            let i = choose|i: int| 0 <= i < b.entries@.len() && #[trigger] b.entries@[i].0@ == n;
            assert(a.entries@[i].0@ == n);
        }
    }
    assert forall|n: Seq<char>| a@.contains_key(n) implies a@[n] == b@[n] by {
        let i = choose|i: int| 0 <= i < a.entries@.len() && #[trigger] a.entries@[i].0@ == n;
        let k = choose|k: int| 0 <= k < b.entries@.len() && #[trigger] b.entries@[k].0@ == n;
        assert(b.entries@[i].0@ == n);
        if i < k {
            assert(b.entries@[i].0@ != b.entries@[k].0@);
        } else if k < i {
            assert(b.entries@[k].0@ != b.entries@[i].0@);
        }
    }
    assert(a@ =~= b@);
}

/// Runs a reducer on: the host's part of it.
struct ReduceRun<'a> {
    prog: &'a Program,
    schema: &'a Shape,
    db: &'a Db,
    machine: Machine,
    writes: Vec<Write>,
}

impl<'a> ReduceRun<'a> {
    spec fn ok(&self) -> bool {
        self.machine.wf() && self.prog.hops.wf() && self.prog.named.wf()
    }

    fn fail(&self, m: &str) -> (r: Error)
        ensures
            r@ == host_fail(self.prog@, self.machine@, m@),
    {
        Error::Reducer(self.machine.host_error(self.prog, m))
    }

    fn refuse(&self, id: LibId) -> (r: Result<(), Error>)
        ensures
            r matches Err(e) && e@ == host_fail(
                self.prog@,
                self.machine@,
                lib_name(id) + " is not available here"@,
            ),
    {
        let mut m: String = lib_str(id).to_owned();
        m.append(" is not available here");
        Err(self.fail(m.as_str()))
    }

    fn load_data(&mut self, d: &Data) -> (r: Result<(), Error>)
        requires
            old(self).ok(),
        ensures
            final(self).ok(),
            final(self).prog == old(self).prog,
            final(self).schema == old(self).schema,
            final(self).db == old(self).db,
            final(self).writes@ == old(self).writes@,
            ({
                let (h, s) = loaded(old(self).machine@.h, d@);
                let m2 = StateV { h, ..old(self).machine@ };
                match (r, s) {
                    (Ok(_), Ok(v)) => final(self).machine@ == replied(m2, v),
                    (Err(e), Err(m)) => e@ == host_fail(old(self).prog@, m2, m),
                    _ => false,
                }
            }),
    {
        match from_cbor(&mut self.machine.heap, d) {
            Ok(v) => {
                self.machine.reply(v);
                Ok(())
            },
            Err(m) => Err(self.fail(m.as_str())),
        }
    }

    fn host(&mut self, floats: &FloatTable, c: HostCall) -> (r: Result<(), Error>)
        requires
            old(self).ok(),
        ensures
            final(self).ok(),
            final(self).prog == old(self).prog,
            final(self).schema == old(self).schema,
            final(self).db == old(self).db,
            match (
                r,
                reduce_host(
                    old(self).prog@,
                    floats@,
                    old(self).db@,
                    old(self).schema@,
                    old(self).machine@,
                    writes_v(old(self).writes@),
                    c@,
                ),
            ) {
                (Ok(_), Ok((m, ops))) => final(self).machine@ == m && writes_v(
                    final(self).writes@,
                ) == ops,
                (Err(e), Err(w)) => e@ == w,
                _ => false,
            },
    {
        match c {
            HostCall::Print(_) => {
                self.machine.reply(Value::Nil);
                Ok(())
            },
            HostCall::Cast { .. } => Err(self.fail("cast is not allowed in a reducer")),
            HostCall::Spawn { .. } => Err(self.fail("spawn is not allowed in a reducer")),
            HostCall::Session => Err(self.fail("session() is not allowed in a reducer")),
            HostCall::User => Err(self.fail("user() is not available here")),
            HostCall::Native(id, args) => {
                match id {
                    NativeId::StoreCall => {},
                    _ => {
                        let mut m: String = native_str(id).to_owned();
                        m.append(" is not available in a reducer");
                        return Err(self.fail(m.as_str()));
                    },
                }
                let steps: Vec<Data> = match path_steps(&self.machine.heap, &args) {
                    Ok(v) => v,
                    Err(m) => {
                        return Err(self.fail(m.as_str()));
                    },
                };
                match do_path(floats, self.db, self.schema, steps, true) {
                    Err(e) => match e {
                        Error::Need(q) => Err(Error::Need(q)),
                        other => {
                            let m: String = other.message();
                            Err(self.fail(m.as_str()))
                        },
                    },
                    Ok(PathDone::Write(more)) => {
                        let ghost before = self.writes@;
                        let ghost mv = more@;
                        let mut more: Vec<Write> = more;
                        self.writes.append(&mut more);
                        assert(writes_v(self.writes@) =~= writes_v(before) + writes_v(mv));
                        self.machine.reply(Value::Nil);
                        Ok(())
                    },
                    Ok(PathDone::Read(d)) => self.load_data(&d),
                }
            },
            HostCall::Lib(id, args) => match call_lib(&self.machine.heap, id, &args) {
                LibOut::Value(v) => {
                    self.machine.reply(v);
                    Ok(())
                },
                LibOut::Fail(m) => Err(self.fail(m.as_str())),
                LibOut::Data(d) => self.load_data(&d),
                LibOut::Json(j) => match from_json(&mut self.machine.heap, floats, &j) {
                    Try::Done(v) => {
                        self.machine.reply(v);
                        Ok(())
                    },
                    Try::Fail(m) => Err(self.fail(m.as_str())),
                    Try::Need(q) => Err(Error::Need(q)),
                },
                LibOut::Scores { ids, votes } => match floats.scored(&ids, &votes) {
                    None => Err(Error::Need(Ask::Scores(ids, votes))),
                    Some(scores) => {
                        assert forall|k: int| 0 <= k < scores@.len() implies ordered_scores(
                            (#[trigger] scores@[k])@,
                        ) by {
                            assert(score_lists(scores@)[k] == scores@[k]@);
                        }
                        match call_scored(&self.machine.heap, id, &args, &scores) {
                            LibOut::Data(d) => self.load_data(&d),
                            _ => self.refuse(id),
                        }
                    },
                },
                _ => self.refuse(id),
            },
        }
    }

    fn run(&mut self, floats: &FloatTable) -> (r: Result<(), Error>)
        requires
            old(self).ok(),
        ensures
            match (
                r,
                reduce_run(
                    old(self).prog@,
                    floats@,
                    old(self).db@,
                    old(self).schema@,
                    old(self).machine@,
                    writes_v(old(self).writes@),
                    STEP_LIMIT as nat,
                ),
            ) {
                (Ok(_), Ok(ops)) => writes_v(final(self).writes@) == ops,
                (Err(e), Err(w)) => e@ == w,
                _ => false,
            },
    {
        let ghost want = reduce_run(
            self.prog@,
            floats@,
            self.db@,
            self.schema@,
            self.machine@,
            writes_v(self.writes@),
            STEP_LIMIT as nat,
        );
        let mut fuel: u64 = STEP_LIMIT;
        loop
            invariant
                self.ok(),
                self.prog == old(self).prog,
                self.schema == old(self).schema,
                self.db == old(self).db,
                want == reduce_run(
                    old(self).prog@,
                    floats@,
                    old(self).db@,
                    old(self).schema@,
                    old(self).machine@,
                    writes_v(old(self).writes@),
                    STEP_LIMIT as nat,
                ),
                want == reduce_run(
                    self.prog@,
                    floats@,
                    self.db@,
                    self.schema@,
                    self.machine@,
                    writes_v(self.writes@),
                    fuel as nat,
                ),
            decreases fuel,
        {
            let ghost m0 = self.machine@;
            let (o, left) = self.machine.run_for(self.prog, floats, fuel);
            match o {
                Outcome::Done(_) => {
                    return Ok(());
                },
                Outcome::Error(e) => {
                    return Err(Error::Reducer(e));
                },
                Outcome::Suspend { hop, .. } => {
                    let mut m: String = "reducer cannot hop (at ".to_owned();
                    m.append(hop.as_str());
                    m.append(")");
                    return Err(Error::Reducer(m));
                },
                Outcome::Need(q) => {
                    return Err(Error::Need(q));
                },
                Outcome::Host(c) => {
                    self.host(floats, c)?;
                    if left >= fuel {
                        return Ok(());
                    }
                    fuel = left;
                },
            }
        }
    }
}

fn event_to_value(heap: &mut Heap, floats: &FloatTable, seq: u64, event: &Json) -> (r: Try<Value>)
    ensures
        ({
            let (g, s) = event_value(old(heap)@, floats@, seq, event@);
            final(heap)@ == g && crate::wire::same_try(r, s)
        }),
{
    match from_json(heap, floats, event) {
        Try::Done(v) => match v {
            Value::Dict(i) => {
                let k: Value = heap.str("seq");
                let mut es: Vec<(Value, Value)> = heap.entries(i);
                heap.entry_put(&mut es, k, Value::Int(seq as i64));
                Try::Done(heap.map(es))
            },
            _ => Try::Done(v),
        },
        Try::Fail(m) => Try::Fail(m),
        Try::Need(q) => Try::Need(q),
    }
}

impl Reducer<Json> for HopReducer {
    open spec fn ready(&self) -> bool {
        self.globals.wf() && self.prog.hops.wf() && self.prog.named.wf()
    }

    open spec fn reduced(&self, f: Seq<FactV>, s: Seq<RowV>, meta: Meta, event: Json) -> Result<
        Seq<OpV>,
        ErrorV,
    > {
        hop_reduced(*self, f, s, meta, event@)
    }

    proof fn lemma_steady(
        &self,
        f: Seq<FactV>,
        g: Seq<FactV>,
        s: Seq<RowV>,
        meta: Meta,
        event: Json,
    ) {
        law_reducers_are_steady(*self, f, g, s, meta, event@);
    }

    fn reduce(&self, floats: &FloatTable, db: &Db, tx: &mut Tx, event: &Json) -> (r: Result<
        (),
        Error,
    >) {
        let mut heap: Heap = copy_heap(&self.heap);
        let v: Value = match event_to_value(&mut heap, floats, tx.meta.seq, event) {
            Try::Done(v) => v,
            Try::Fail(m) => {
                return Err(Error::Reducer(m));
            },
            Try::Need(q) => {
                return Err(Error::Need(q));
            },
        };
        let mut args: Vec<Value> = Vec::new();
        args.push(v);
        assert(args@ =~= seq![v]);
        let fr: Frame = match call(&self.prog, self.fn_idx, &args) {
            Some(fr) => fr,
            None => {
                return Err(Error::Reducer("corrupt program".to_owned()));
            },
        };
        let mut frames: Vec<Frame> = Vec::new();
        frames.push(fr);
        let machine = Machine { heap, globals: copy_globals(&self.globals), frames };
        assert(machine@.frames =~= seq![fr@]);
        let mut run = ReduceRun {
            prog: &self.prog,
            schema: &self.schema,
            db,
            machine,
            writes: Vec::new(),
        };
        assert(writes_v(run.writes@) =~= Seq::<OpV>::empty());
        run.run(floats)?;
        tx.extend(run.writes);
        Ok(())
    }
}

/// What binding a store to a program came to.
pub open spec fn bound(p: ProgramV, h: Seq<CellV>, g: Map<Seq<char>, Value>) -> Result<
    Option<(usize, ShapeV)>,
    Seq<char>,
> {
    let v = global(g, "schema"@);
    if v is Nil {
        Ok(None)
    } else {
        match shape_of_value(h, h.len(), v) {
            Err(m) => Err(m),
            Ok(s) => if p.named.contains_key("reduce"@) {
                Ok(Some((p.named["reduce"@], s)))
            } else {
                Err("schema is set but reduce is missing — define fn reduce(event)"@)
            },
        }
    }
}

/// The reducer of a program whose machine has run its initializers, where it
/// declares a schema. `prog` is the machine's program once more.
pub fn bind(prog: Program, vm: &Vm) -> (r: Result<Option<HopReducer>, String>)
    requires
        prog.hops.wf(),
        prog.named.wf(),
        vm.wf(),
    ensures
        match (r, bound(prog@, vm@.h, vm@.g)) {
            (Ok(None), Ok(None)) => true,
            (Ok(Some(b)), Ok(Some((i, s)))) => b.ready() && b.prog == prog && b.fn_idx == i
                && b.schema@ == s && b.heap@ == vm@.h && b.globals@ == vm@.g,
            (Err(x), Err(y)) => x@ == y,
            _ => false,
        },
{
    let v: Value = get_global(&vm.machine.globals, "schema");
    if let Value::Nil = v {
        return Ok(None);
    }
    let schema: Shape = value_shape(&vm.machine.heap, v)?;
    match prog.named.get("reduce") {
        None => Err(
            "schema is set but reduce is missing — define fn reduce(event)".to_owned(),
        ),
        Some(fn_idx) => Ok(
            Some(
                HopReducer {
                    prog,
                    fn_idx,
                    heap: copy_heap(&vm.machine.heap),
                    globals: copy_globals(&vm.machine.globals),
                    schema,
                },
            ),
        ),
    }
}

/// The store of a running program.
pub struct StoreBinding {
    pub rt: Runtime<Json, HopReducer>,
}

/// The outcome of a native is the one that the model says.
pub open spec fn same_item(r: Try<Data>, s: TryV<DataV>) -> bool {
    match (r, s) {
        (Try::Done(x), TryV::Done(y)) => x@ == y,
        (Try::Fail(x), TryV::Fail(y)) => x@ == y,
        (Try::Need(x), TryV::Need(y)) => x@ == y,
        _ => false,
    }
}

/// An error of the store as the outcome of a native.
pub open spec fn told<T>(e: ErrorV) -> TryV<T> {
    match e {
        ErrorV::Need(q) => TryV::Need(q),
        _ => TryV::Fail(message_of(e)),
    }
}

/// What `store(path)` reads outside a reducer.
pub open spec fn call_read(
    f: Seq<FactV>,
    s: Seq<RowV>,
    schema: ShapeV,
    h: Seq<CellV>,
    args: Seq<Value>,
) -> TryV<DataV> {
    match steps_of(h, args) {
        Err(m) => TryV::Fail(m),
        Ok(steps) => match path_done(f, s, schema, steps, false) {
            Err(e) => told(e),
            Ok(PathV::Read(d)) => TryV::Done(d),
            Ok(PathV::Write(_)) => TryV::Fail("store writes are for reducers only"@),
        },
    }
}

/// The pairs of the map that a path leads to.
pub open spec fn path_entries(
    f: Seq<FactV>,
    s: Seq<RowV>,
    schema: ShapeV,
    h: Seq<CellV>,
    args: Seq<Value>,
) -> TryV<Seq<(DataV, DataV)>> {
    match steps_of(h, args) {
        Err(m) => TryV::Fail(m),
        Ok(steps) => match navs_spelled(schema, steps, steps.len() as int) {
            Err(e) => told(e),
            Ok((navs, _)) => match entries_of(
                f,
                s,
                schema,
                QueryV { namespace: None, navs },
            ) {
                Err(e) => told(e),
                Ok(ps) => TryV::Done(ps),
            },
        },
    }
}

/// A pair as a record with its key merged in as `id`; what is no map stays.
pub open spec fn item_of(p: (DataV, DataV)) -> DataV {
    match p.1 {
        DataV::Dict(fs) => DataV::Dict(fs.push((DataV::Text("id"@), p.0))),
        v => v,
    }
}

/// What a native of the store reads.
pub open spec fn native_read(
    f: Seq<FactV>,
    s: Seq<RowV>,
    schema: ShapeV,
    h: Seq<CellV>,
    id: NativeId,
    args: Seq<Value>,
) -> TryV<DataV> {
    match id {
        NativeId::StoreCall => call_read(f, s, schema, h, args),
        NativeId::StoreOne => call_read(f, s, schema, h, args),
        NativeId::StoreEntries => match path_entries(f, s, schema, h, args) {
            TryV::Done(ps) => TryV::Done(
                DataV::Array(
                    ps.map_values(|p: (DataV, DataV)| DataV::Array(seq![p.0, p.1])),
                ),
            ),
            TryV::Fail(m) => TryV::Fail(m),
            TryV::Need(q) => TryV::Need(q),
        },
        NativeId::StoreItems => match path_entries(f, s, schema, h, args) {
            TryV::Done(ps) => TryV::Done(
                DataV::Array(ps.map_values(|p: (DataV, DataV)| item_of(p))),
            ),
            TryV::Fail(m) => TryV::Fail(m),
            TryV::Need(q) => TryV::Need(q),
        },
        _ => TryV::Fail(native_name(id) + " is not a store native"@),
    }
}

fn tell<T>(e: Error) -> (r: Try<T>)
    ensures
        match (r, told::<T>(e@)) {
            (Try::Fail(x), TryV::Fail(y)) => x@ == y,
            (Try::Need(x), TryV::Need(y)) => x@ == y,
            _ => false,
        },
{
    match e {
        Error::Need(q) => Try::Need(q),
        other => Try::Fail(other.message()),
    }
}

fn merge_id(p: &(Data, Data)) -> (r: Data)
    ensures
        r@ == item_of((p.0@, p.1@)),
{
    match &p.1 {
        Data::Dict(fs) => {
            let mut out: Vec<(Data, Data)> = crate::data::copy_pairs(fs);
            let ghost before = out;
            let k: Data = Data::Text("id".to_owned());
            let v: Data = copy_data(&p.0);
            out.push((k, v));
            proof {
                lemma_pairs(*fs);
                crate::data::lemma_pairs_push(before, out, k, v);
                lemma_pairs(out);
            }
            Data::Dict(out)
        },
        _ => copy_data(&p.1),
    }
}

impl StoreBinding {
    /// The store can be used.
    pub open spec fn wf(&self) -> bool {
        self.rt.wf()
    }

    fn read_entries(&self, floats: &FloatTable, heap: &Heap, args: &Vec<Value>) -> (r: Try<
        Vec<(Data, Data)>,
    >)
        ensures
            match (
                r,
                path_entries(floats@, self.rt.db@, self.rt.reducer.schema@, heap@, args@),
            ) {
                (Try::Done(x), TryV::Done(y)) => pairs_v(x) == y,
                (Try::Fail(x), TryV::Fail(y)) => x@ == y,
                (Try::Need(x), TryV::Need(y)) => x@ == y,
                _ => false,
            },
    {
        let steps: Vec<Data> = match path_steps(heap, args) {
            Ok(v) => v,
            Err(m) => {
                return Try::Fail(m);
            },
        };
        proof {
            lemma_items(steps);
        }
        let navs: Vec<Nav> = match navs_for(&self.rt.reducer.schema, &steps) {
            Ok(v) => v,
            Err(e) => {
                return tell(e);
            },
        };
        let q = Query { namespace: None, navs };
        match entries(floats, &self.rt.db, &self.rt.reducer.schema, &q) {
            Ok(ps) => Try::Done(ps),
            Err(e) => tell(e),
        }
    }

    fn read_call(&self, floats: &FloatTable, heap: &Heap, args: &Vec<Value>) -> (r: Try<Data>)
        ensures
            same_item(
                r,
                call_read(floats@, self.rt.db@, self.rt.reducer.schema@, heap@, args@),
            ),
    {
        let steps: Vec<Data> = match path_steps(heap, args) {
            Ok(v) => v,
            Err(m) => {
                return Try::Fail(m);
            },
        };
        match do_path(floats, &self.rt.db, &self.rt.reducer.schema, steps, false) {
            Err(e) => tell(e),
            Ok(PathDone::Read(d)) => Try::Done(d),
            Ok(PathDone::Write(_)) => Try::Fail("store writes are for reducers only".to_owned()),
        }
    }

    /// What a native of the store reads.
    pub fn read(&self, floats: &FloatTable, heap: &Heap, id: NativeId, args: &Vec<Value>) -> (r: Try<
        Data,
    >)
        ensures
            same_item(
                r,
                native_read(floats@, self.rt.db@, self.rt.reducer.schema@, heap@, id, args@),
            ),
    {
        match id {
            NativeId::StoreCall => self.read_call(floats, heap, args),
            NativeId::StoreOne => self.read_call(floats, heap, args),
            NativeId::StoreEntries => match self.read_entries(floats, heap, args) {
                Try::Done(ps) => {
                    let mut out: Vec<Data> = Vec::new();
                    let mut i: usize = 0;
                    while i < ps.len()
                        invariant
                            i <= ps@.len(),
                            out@.len() == i,
                            forall|j: int|
                                0 <= j < i ==> (#[trigger] out@[j])@ == DataV::Array(
                                    seq![ps@[j].0@, ps@[j].1@],
                                ),
                        decreases ps@.len() - i,
                    {
                        out.push(array2(copy_data(&ps[i].0), copy_data(&ps[i].1)));
                        i = i + 1;
                    }
                    proof {
                        lemma_items(out);
                        lemma_pairs(ps);
                        let want = pairs_v(ps).map_values(
                            |p: (DataV, DataV)| DataV::Array(seq![p.0, p.1]),
                        );
                        assert forall|j: int| 0 <= j < out@.len() implies items_v(out)[j]
                            == want[j] by {
                            assert(items_v(out)[j] == out@[j]@);
                            assert(pairs_v(ps)[j] == (ps@[j].0@, ps@[j].1@));
                        }
                        assert(items_v(out) =~= want);
                    }
                    Try::Done(Data::Array(out))
                },
                Try::Fail(m) => Try::Fail(m),
                Try::Need(q) => Try::Need(q),
            },
            NativeId::StoreItems => match self.read_entries(floats, heap, args) {
                Try::Done(ps) => {
                    let mut out: Vec<Data> = Vec::new();
                    let mut i: usize = 0;
                    while i < ps.len()
                        invariant
                            i <= ps@.len(),
                            out@.len() == i,
                            forall|j: int|
                                0 <= j < i ==> (#[trigger] out@[j])@ == item_of(
                                    (ps@[j].0@, ps@[j].1@),
                                ),
                        decreases ps@.len() - i,
                    {
                        out.push(merge_id(&ps[i]));
                        i = i + 1;
                    }
                    proof {
                        lemma_items(out);
                        lemma_pairs(ps);
                        let want = pairs_v(ps).map_values(|p: (DataV, DataV)| item_of(p));
                        assert forall|j: int| 0 <= j < out@.len() implies items_v(out)[j]
                            == want[j] by {
                            assert(items_v(out)[j] == out@[j]@);
                            assert(pairs_v(ps)[j] == (ps@[j].0@, ps@[j].1@));
                        }
                        assert(items_v(out) =~= want);
                    }
                    Try::Done(Data::Array(out))
                },
                Try::Fail(m) => Try::Fail(m),
                Try::Need(q) => Try::Need(q),
            },
            _ => {
                let mut m: String = native_str(id).to_owned();
                m.append(" is not a store native");
                Try::Fail(m)
            },
        }
    }

    /// Appends the event that is the first argument, and gives its place on the
    /// tape.
    pub fn append(&mut self, floats: &FloatTable, heap: &Heap, args: &Vec<Value>, now: u64) -> (r:
        Try<Data>)
        requires
            old(self).wf(),
            old(self).rt.log@.len() < u64::MAX,
        ensures
            final(self).wf(),
            crate::runtime::same_setup(final(self).rt, old(self).rt),
            if args@.len() == 0 {
                *final(self) == *old(self) && (r matches Try::Fail(m) && m@
                    == "store.append(event)"@)
            } else {
                match json_of(heap@, heap@.len(), args@[0]) {
                    Err(w) => *final(self) == *old(self) && (r matches Try::Fail(m) && m@ == w),
                    Ok(j) => exists|event: Json, res: Result<Meta, Error>|
                        event@ == j && #[trigger] crate::runtime::appended(
                            old(self).rt,
                            final(self).rt,
                            floats@,
                            event,
                            now,
                            res,
                        ) && match res {
                            Ok(m) => same_item(
                                r,
                                TryV::Done(crate::data::data_of_int(m.seq as i64 as int)),
                            ),
                            Err(e) => same_item(r, told(e@)),
                        },
                }
            },
    {
        if args.len() == 0 {
            return Try::Fail("store.append(event)".to_owned());
        }
        let event: Json = match heap.to_json(args[0]) {
            Ok(j) => j,
            Err(m) => {
                return Try::Fail(m);
            },
        };
        let res: Result<Meta, Error> = self.rt.append(floats, event, now);
        assert(crate::runtime::appended(old(self).rt, self.rt, floats@, event, now, res));
        match res {
            Ok(m) => Try::Done(crate::data::int_data(m.seq as i64)),
            Err(e) => tell(e),
        }
    }

    /// The store is what a replay of the tape gives.
    pub fn verify(&self, floats: &FloatTable) -> (r: Result<(), Error>)
        requires
            self.wf(),
        ensures
            ({
                let run = crate::runtime::replayed(
                    self.rt.reducer,
                    floats@,
                    self.rt.log@,
                );
                match r {
                    Ok(_) => run.err is None && self.rt.db@ == run.rows,
                    Err(e) => match run.err {
                        Some(w) => e@ == w,
                        None => self.rt.db@ != run.rows && e@ == ErrorV::Query(
                            crate::runtime::verify_message(self.rt.db@.len(), run.rows.len()),
                        ),
                    },
                }
            }),
    {
        self.rt.verify(floats)
    }
}

/// The line of the tape that a record is written as; the event stands in a field
/// of its own.
pub open spec fn line_of(rec: Record<Json>) -> Seq<char> {
    "{\"seq\":"@ + dec(rec.seq as nat) + ",\"ts_ms\":"@ + dec(rec.ts_ms as nat) + ",\"event\":"@
        + json_text(rec.event@) + "}"@
}

/// The line of the tape for a record.
pub fn record_line(rec: &Record<Json>) -> (r: String)
    ensures
        r@ == line_of(*rec),
{
    let mut s: String = "{\"seq\":".to_owned();
    s.append(dec_u64(rec.seq).as_str());
    s.append(",\"ts_ms\":");
    s.append(dec_u64(rec.ts_ms).as_str());
    s.append(",\"event\":");
    s.append(write_json(&rec.event).as_str());
    s.append("}");
    s
}

/// What a native of the store is called where there is none.
pub open spec fn store_name(id: NativeId) -> Seq<char> {
    match id {
        NativeId::StoreCall => "StoreCall"@,
        NativeId::StoreOne => "StoreOne"@,
        NativeId::StoreEntries => "StoreEntries"@,
        NativeId::StoreAppend => "StoreAppend"@,
        NativeId::StoreItems => "StoreItems"@,
        NativeId::StoreVerify => "StoreVerify"@,
        _ => crate::value::native_name(id),
    }
}

/// What a flow is told that calls the store where there is none.
pub fn unavailable(id: NativeId) -> (r: String)
    ensures
        r@ == store_name(id) + " is not available on this side"@,
{
    let mut m: String = match id {
        NativeId::StoreCall => "StoreCall".to_owned(),
        NativeId::StoreOne => "StoreOne".to_owned(),
        NativeId::StoreEntries => "StoreEntries".to_owned(),
        NativeId::StoreAppend => "StoreAppend".to_owned(),
        NativeId::StoreItems => "StoreItems".to_owned(),
        NativeId::StoreVerify => "StoreVerify".to_owned(),
        _ => native_str(id).to_owned(),
    };
    m.append(" is not available on this side");
    m
}

} // verus!
