//! Queries against the rows of a store.

use crate::bytes::{
    bytes_eq, copy_range, from_be, lemma_from_be_bound, lemma_pow256_8, read_be, starts_with,
};
use crate::codec::{child_key, child_scan_prefix, order_i64, order_u64, read_segment, segment};
use crate::data::{
    array2, copy_data, decode, encode, int_data, int_of, items_v, lemma_items, lemma_items_push,
    lemma_pairs, lemma_pairs_push, pairs_v, Data, DataV,
};
use crate::db::{rows_v, Db, RowV};
use crate::error::{corruption, Error, ErrorV};
use crate::float::{of_int, FactV, FloatTable};
use crate::nav::{
    lemma_navs, lemma_preds, navs_v, preds_v, Expr, Nav, NavV, Predicate, PredicateV, Relation,
};
use crate::op::{deque_head, deque_tail, head_key, len_key, list_len, tail_key};
use crate::path::{child_rows, lemma_scan_starts, map_keys, read_leaf};
use crate::reading::{
    child_key_of, deque_values, direct_children, float_rel, holds_leaves, item_at, item_children,
    item_get, keyed_values, leaf_children, leaf_or_null, list_values, map_pairs, materialized,
    pair_place, record_pairs, related, seconds, slice_from, slice_to, sum_item, value_all,
    value_any, value_expr, value_filter, value_pred, value_spread, value_step, value_steps,
    values_rel, values_same, ChildKey,
};
use crate::schema::{bits_i64, read_sum};
use crate::shape::{field_segment, fields_v, lemma_fields, Shape, ShapeV};
use crate::text::text_eq;
use crate::value::{rel_int, rel_of_floats, rel_of_text, Ask, Rel, Value};
use vstd::prelude::*;
use vstd::string::*;

verus! {

/// The item read is the one that the model says.
pub open spec fn same_data(r: Result<Data, Error>, s: Result<DataV, ErrorV>) -> bool {
    match (r, s) {
        (Ok(d), Ok(v)) => d@ == v,
        (Err(e), Err(w)) => e@ == w,
        _ => false,
    }
}

/// The items read are those that the model says.
pub open spec fn same_list(r: Result<Vec<Data>, Error>, s: Result<Seq<DataV>, ErrorV>) -> bool {
    match (r, s) {
        (Ok(d), Ok(v)) => items_v(d) == v,
        (Err(e), Err(w)) => e@ == w,
        _ => false,
    }
}

/// The pairs read are those that the model says.
pub open spec fn same_pairs(
    r: Result<Vec<(Data, Data)>, Error>,
    s: Result<Seq<(DataV, DataV)>, ErrorV>,
) -> bool {
    match (r, s) {
        (Ok(d), Ok(v)) => pairs_v(d) == v,
        (Err(e), Err(w)) => e@ == w,
        _ => false,
    }
}

/// The truth value is the one that the model says.
pub open spec fn same_bool(r: Result<bool, Error>, s: Result<bool, ErrorV>) -> bool {
    match (r, s) {
        (Ok(x), Ok(y)) => x == y,
        (Err(e), Err(w)) => e@ == w,
        _ => false,
    }
}

/// The item at a leaf; null where there is none.
pub(crate) fn read_leaf_or_null(db: &Db, prefix: &[u8]) -> (r: Result<Data, Error>)
    ensures
        same_data(r, leaf_or_null(db@, prefix@)),
{
    match read_leaf(db, prefix) {
        Ok(Some(d)) => Ok(d),
        Ok(None) => Ok(Data::Null),
        Err(e) => Err(e),
    }
}

/// The accumulator at `prefix` as an item.
fn read_sum_item(db: &Db, prefix: &[u8]) -> (r: Result<Data, Error>)
    ensures
        same_data(r, sum_item(db@, prefix@)),
{
    match db.get(prefix) {
        None => Ok(Data::UInt(0)),
        Some(b) => match read_sum(b.as_slice()) {
            None => corruption("malformed Sum accumulator"),
            Some(t) => {
                if t.tag == 1 {
                    Ok(int_data(bits_i64(t.bits)))
                } else if t.tag == 2 {
                    Ok(Data::UInt(t.bits))
                } else if t.tag == 0 {
                    Ok(Data::Float(t.bits))
                } else {
                    corruption("malformed Sum accumulator")
                }
            },
        },
    }
}

/// The list index in a segment.
pub fn decode_order_u64(seg: &[u8]) -> (r: Option<u64>)
    ensures
        r == (if seg@.len() == 8 {
            Some(from_be(seg@) as u64)
        } else {
            None
        }),
{
    if seg.len() == 8 {
        proof {
            lemma_from_be_bound(seg@);
            lemma_pow256_8();
        }
        Some(read_be(seg))
    } else {
        None
    }
}

/// The deque index in a segment.
pub fn decode_order_i64(seg: &[u8]) -> (r: Option<i64>)
    ensures
        r == (if seg@.len() == 8 {
            Some((from_be(seg@) - 0x8000_0000_0000_0000) as i64)
        } else {
            None
        }),
{
    if seg.len() == 8 {
        proof {
            lemma_from_be_bound(seg@);
            lemma_pow256_8();
        }
        Some((read_be(seg) as i128 - 0x8000_0000_0000_0000) as i64)
    } else {
        None
    }
}

fn child_key_item(kind: ChildKey, seg: &[u8], n: usize) -> (r: Result<Data, Error>)
    ensures
        same_data(r, child_key_of(kind, seg@, n as nat)),
{
    match kind {
        ChildKey::Dict => match decode(seg) {
            Ok(d) => Ok(d),
            Err(m) => Err(Error::Deserialize(m)),
        },
        ChildKey::List => match decode_order_u64(seg) {
            Some(i) => Ok(Data::UInt(i)),
            None => corruption("malformed list index"),
        },
        ChildKey::Deque => match decode_order_i64(seg) {
            Some(_) => Ok(Data::UInt(n as u64)),
            None => corruption("malformed deque index"),
        },
    }
}

proof fn lemma_direct_err(rows: Seq<RowV>, skip: int, kind: ChildKey, i: int, n: int)
    requires
        0 <= i <= n <= rows.len(),
        direct_children(rows, skip, kind, i) is Err,
    ensures
        direct_children(rows, skip, kind, n) == direct_children(rows, skip, kind, i),
    decreases n,
{
    if i < n {
        lemma_direct_err(rows, skip, kind, i, n - 1);
    }
}

/// The leaf children of the collection at `prefix`, in one scan.
pub(crate) fn scan_direct_children(db: &Db, prefix: &[u8], kind: ChildKey) -> (r: Result<
    Vec<(Data, Data)>,
    Error,
>)
    ensures
        same_pairs(r, leaf_children(db@, prefix@, kind)),
{
    let scan: Vec<u8> = child_scan_prefix(prefix);
    let rows: Vec<(Vec<u8>, Vec<u8>)> = db.scan(scan.as_slice());
    let ghost rv = rows_v(rows@);
    let ghost skip = scan@.len() as int;
    proof {
        lemma_scan_starts(db@, scan@, db@.len() as int);
    }
    let mut out: Vec<(Data, Data)> = Vec::new();
    let mut i: usize = 0;
    proof {
        lemma_pairs(out);
        assert(pairs_v(out) =~= Seq::<(DataV, DataV)>::empty());
    }
    while i < rows.len()
        invariant
            i <= rows@.len(),
            rv == rows_v(rows@),
            rv == child_rows(db@, prefix@),
            skip == scan@.len(),
            skip == prefix@.len() + 1,
            forall|j: int| 0 <= j < rv.len() ==> starts_with((#[trigger] rv[j]).0, scan@),
            direct_children(rv, skip, kind, i as int) == Ok::<Seq<(DataV, DataV)>, ErrorV>(
                pairs_v(out),
            ),
        decreases rows@.len() - i,
    {
        assert(rv[i as int] == (rows@[i as int].0@, rows@[i as int].1@));
        let key = rows[i].0.as_slice();
        let rest: Vec<u8> = copy_range(key, scan.len(), key.len());
        assert(rest@ =~= key@.skip(skip));
        match read_segment(rest.as_slice()) {
            None => {
                proof {
                    lemma_direct_err(rv, skip, kind, i + 1, rv.len() as int);
                }
                return corruption("malformed collection key");
            },
            Some((seg, used)) => {
                if used == rest.len() {
                    proof {
                        lemma_pairs(out);
                    }
                    match child_key_item(kind, seg, out.len()) {
                        Err(e) => {
                            proof {
                                lemma_direct_err(rv, skip, kind, i + 1, rv.len() as int);
                            }
                            return Err(e);
                        },
                        Ok(k) => match decode(rows[i].1.as_slice()) {
                            Err(m) => {
                                proof {
                                    lemma_direct_err(rv, skip, kind, i + 1, rv.len() as int);
                                }
                                return Err(Error::Deserialize(m));
                            },
                            Ok(v) => {
                                let ghost before = out;
                                out.push((k, v));
                                proof {
                                    lemma_pairs_push(before, out, k, v);
                                }
                            },
                        },
                    }
                }
            },
        }
        i = i + 1;
    }
    Ok(out)
}

/// The items of `pairs`.
fn take_seconds(pairs: Vec<(Data, Data)>) -> (r: Vec<Data>)
    ensures
        items_v(r) == seconds(pairs_v(pairs)),
{
    let mut out: Vec<Data> = Vec::new();
    let mut i: usize = 0;
    proof {
        lemma_pairs(pairs);
    }
    while i < pairs.len()
        invariant
            i <= pairs@.len(),
            pairs_v(pairs).len() == pairs@.len(),
            forall|j: int|
                0 <= j < pairs@.len() ==> #[trigger] pairs_v(pairs)[j] == (pairs@[j].0@, pairs@[j].1@),
            out@.len() == i,
            forall|j: int| 0 <= j < i ==> (#[trigger] out@[j])@ == pairs@[j].1@,
        decreases pairs@.len() - i,
    {
        out.push(copy_data(&pairs[i].1));
        i = i + 1;
    }
    proof {
        lemma_items(out);
        assert forall|j: int| 0 <= j < out@.len() implies items_v(out)[j] == seconds(
            pairs_v(pairs),
        )[j] by {
            assert(items_v(out)[j] == out@[j]@);
            assert(pairs_v(pairs)[j] == (pairs@[j].0@, pairs@[j].1@));
        }
        assert(items_v(out) =~= seconds(pairs_v(pairs)));
    }
    out
}

proof fn lemma_keyed_err(s: Seq<RowV>, prefix: Seq<u8>, of: ShapeV, ks: Seq<DataV>, i: int, n: int)
    requires
        0 <= i <= n <= ks.len(),
        keyed_values(s, prefix, of, ks, i) is Err,
    ensures
        keyed_values(s, prefix, of, ks, n) == keyed_values(s, prefix, of, ks, i),
    decreases n,
{
    if i < n {
        lemma_keyed_err(s, prefix, of, ks, i, n - 1);
    }
}

proof fn lemma_listed_err(s: Seq<RowV>, prefix: Seq<u8>, of: ShapeV, i: int, n: int)
    requires
        0 <= i <= n,
        list_values(s, prefix, of, i) is Err,
    ensures
        list_values(s, prefix, of, n) == list_values(s, prefix, of, i),
    decreases n,
{
    if i < n {
        lemma_listed_err(s, prefix, of, i, n - 1);
    }
}

proof fn lemma_queued_err(s: Seq<RowV>, prefix: Seq<u8>, of: ShapeV, h: int, i: int, n: int)
    requires
        0 <= i <= n,
        deque_values(s, prefix, of, h, i) is Err,
    ensures
        deque_values(s, prefix, of, h, n) == deque_values(s, prefix, of, h, i),
    decreases n,
{
    if i < n {
        lemma_queued_err(s, prefix, of, h, i, n - 1);
    }
}

proof fn lemma_record_err(
    s: Seq<RowV>,
    prefix: Seq<u8>,
    fields: Seq<(Seq<char>, ShapeV)>,
    i: int,
    n: int,
)
    requires
        0 <= i <= n <= fields.len(),
        record_pairs(s, prefix, fields, i) is Err,
    ensures
        record_pairs(s, prefix, fields, n) == record_pairs(s, prefix, fields, i),
    decreases n,
{
    if i < n {
        lemma_record_err(s, prefix, fields, i, n - 1);
    }
}

/// The pairs of the map at `prefix`, whose values are of shape `of`.
pub(crate) fn map_entries(db: &Db, prefix: &[u8], of: &Shape) -> (r: Result<Vec<(Data, Data)>, Error>)
    ensures
        same_pairs(r, map_pairs(db@, prefix@, of@)),
    decreases of, 2int,
{
    if let Shape::Leaf = of {
        return scan_direct_children(db, prefix, ChildKey::Dict);
    }
    let keys: Vec<Data> = map_keys(db, prefix)?;
    keyed_entries(db, prefix, of, &keys)
}

fn keyed_entries(db: &Db, prefix: &[u8], of: &Shape, keys: &Vec<Data>) -> (r: Result<
    Vec<(Data, Data)>,
    Error,
>)
    ensures
        same_pairs(
            r,
            keyed_values(db@, prefix@, of@, items_v(*keys), items_v(*keys).len() as int),
        ),
    decreases of, 1int,
{
    let ghost kv = items_v(*keys);
    let mut out: Vec<(Data, Data)> = Vec::new();
    let mut i: usize = 0;
    proof {
        lemma_items(*keys);
        lemma_pairs(out);
        assert(pairs_v(out) =~= Seq::<(DataV, DataV)>::empty());
    }
    while i < keys.len()
        invariant
            i <= keys@.len(),
            kv == items_v(*keys),
            kv.len() == keys@.len(),
            forall|j: int| 0 <= j < keys@.len() ==> #[trigger] kv[j] == keys@[j]@,
            keyed_values(db@, prefix@, of@, kv, i as int) == Ok::<Seq<(DataV, DataV)>, ErrorV>(
                pairs_v(out),
            ),
        decreases keys@.len() - i,
    {
        let ghost k = kv[i as int];
        let seg: Vec<u8> = encode(&keys[i]);
        let child: Vec<u8> = child_key(prefix, seg.as_slice());
        match materialize(db, child.as_slice(), of) {
            Err(e) => {
                proof {
                    lemma_keyed_err(db@, prefix@, of@, kv, i + 1, kv.len() as int);
                }
                return Err(e);
            },
            Ok(v) => {
                let ghost before = out;
                let key: Data = copy_data(&keys[i]);
                out.push((key, v));
                proof {
                    lemma_pairs_push(before, out, key, v);
                }
            },
        }
        i = i + 1;
    }
    Ok(out)
}

fn list_entries(db: &Db, prefix: &[u8], of: &Shape, n: u64) -> (r: Result<Vec<Data>, Error>)
    ensures
        same_list(r, list_values(db@, prefix@, of@, n as int)),
    decreases of, 1int,
{
    let mut out: Vec<Data> = Vec::new();
    let mut i: u64 = 0;
    proof {
        lemma_items(out);
        assert(items_v(out) =~= Seq::<DataV>::empty());
    }
    while i < n
        invariant
            i <= n,
            list_values(db@, prefix@, of@, i as int) == Ok::<Seq<DataV>, ErrorV>(items_v(out)),
        decreases n - i,
    {
        let ix = order_u64(i);
        let child: Vec<u8> = child_key(prefix, &ix);
        match materialize(db, child.as_slice(), of) {
            Err(e) => {
                proof {
                    lemma_listed_err(db@, prefix@, of@, i + 1, n as int);
                }
                return Err(e);
            },
            Ok(v) => {
                let ghost before = out;
                out.push(v);
                proof {
                    lemma_items_push(before, out, v);
                }
            },
        }
        i = i + 1;
    }
    Ok(out)
}

fn deque_entries(db: &Db, prefix: &[u8], of: &Shape, head: i64, tail: i64) -> (r: Result<
    Vec<Data>,
    Error,
>)
    ensures
        same_list(r, deque_values(db@, prefix@, of@, head as int, tail - head)),
    decreases of, 1int,
{
    let mut out: Vec<Data> = Vec::new();
    proof {
        lemma_items(out);
        assert(items_v(out) =~= Seq::<DataV>::empty());
    }
    if head >= tail {
        return Ok(out);
    }
    let mut i: i64 = head;
    while i < tail
        invariant
            head <= i <= tail,
            deque_values(db@, prefix@, of@, head as int, i - head) == Ok::<Seq<DataV>, ErrorV>(
                items_v(out),
            ),
        decreases tail - i,
    {
        let ix = order_i64(i);
        let child: Vec<u8> = child_key(prefix, &ix);
        match materialize(db, child.as_slice(), of) {
            Err(e) => {
                proof {
                    lemma_queued_err(db@, prefix@, of@, head as int, i + 1 - head, tail - head);
                }
                return Err(e);
            },
            Ok(v) => {
                let ghost before = out;
                out.push(v);
                proof {
                    lemma_items_push(before, out, v);
                }
            },
        }
        i = i + 1;
    }
    Ok(out)
}

fn record_entries(db: &Db, prefix: &[u8], fields: &Vec<(String, Shape)>) -> (r: Result<
    Vec<(Data, Data)>,
    Error,
>)
    ensures
        same_pairs(
            r,
            record_pairs(db@, prefix@, fields_v(*fields), fields_v(*fields).len() as int),
        ),
    decreases fields, 1int,
{
    let ghost fv = fields_v(*fields);
    let mut out: Vec<(Data, Data)> = Vec::new();
    let mut i: usize = 0;
    proof {
        lemma_fields(*fields);
        lemma_pairs(out);
        assert(pairs_v(out) =~= Seq::<(DataV, DataV)>::empty());
    }
    while i < fields.len()
        invariant
            i <= fields@.len(),
            fv == fields_v(*fields),
            fv.len() == fields@.len(),
            forall|j: int|
                0 <= j < fields@.len() ==> #[trigger] fv[j] == (fields@[j].0@, fields@[j].1@),
            record_pairs(db@, prefix@, fv, i as int) == Ok::<Seq<(DataV, DataV)>, ErrorV>(
                pairs_v(out),
            ),
        decreases fields@.len() - i,
    {
        let ghost f = fv[i as int];
        let seg: Vec<u8> = field_segment(i as u32);
        let child: Vec<u8> = child_key(prefix, seg.as_slice());
        match materialize(db, child.as_slice(), &fields[i].1) {
            Err(e) => {
                proof {
                    lemma_record_err(db@, prefix@, fv, i + 1, fv.len() as int);
                }
                return Err(e);
            },
            Ok(v) => {
                let ghost before = out;
                let key: Data = Data::Text(fields[i].0.clone());
                out.push((key, v));
                proof {
                    lemma_pairs_push(before, out, key, v);
                }
            },
        }
        i = i + 1;
    }
    Ok(out)
}

pub(crate) fn list_length(db: &Db, prefix: &[u8]) -> (r: Result<u64, Error>)
    ensures
        match (r, list_len(db@, prefix@)) {
            (Ok(x), Ok(y)) => x == y,
            (Err(e), Err(w)) => e@ == w,
            _ => false,
        },
{
    let k: Vec<u8> = len_key(prefix);
    match db.read_u64(k.as_slice())? {
        Some(n) => Ok(n),
        None => Ok(0),
    }
}

pub(crate) fn deque_first(db: &Db, prefix: &[u8]) -> (r: Result<i64, Error>)
    ensures
        match (r, deque_head(db@, prefix@)) {
            (Ok(x), Ok(y)) => x == y,
            (Err(e), Err(w)) => e@ == w,
            _ => false,
        },
{
    let k: Vec<u8> = head_key(prefix);
    match db.read_i64(k.as_slice())? {
        Some(n) => Ok(n),
        None => Ok(0),
    }
}

pub(crate) fn deque_end(db: &Db, prefix: &[u8]) -> (r: Result<i64, Error>)
    ensures
        match (r, deque_tail(db@, prefix@)) {
            (Ok(x), Ok(y)) => x == y,
            (Err(e), Err(w)) => e@ == w,
            _ => false,
        },
{
    let k: Vec<u8> = tail_key(prefix);
    match db.read_i64(k.as_slice())? {
        Some(n) => Ok(n),
        None => Ok(0),
    }
}

pub(crate) fn array_of(v: Vec<Data>) -> (r: Data)
    ensures
        r@ == DataV::Array(items_v(v)),
{
    proof {
        lemma_items(v);
    }
    Data::Array(v)
}

pub(crate) fn dict_of(v: Vec<(Data, Data)>) -> (r: Data)
    ensures
        r@ == DataV::Dict(pairs_v(v)),
{
    proof {
        lemma_pairs(v);
    }
    Data::Dict(v)
}

/// The nested item at `prefix`.
pub fn materialize(db: &Db, prefix: &[u8], shape: &Shape) -> (r: Result<Data, Error>)
    ensures
        same_data(r, materialized(db@, prefix@, shape@)),
    decreases shape, 0int,
{
    match shape {
        Shape::Leaf => read_leaf_or_null(db, prefix),
        Shape::Sum => read_sum_item(db, prefix),
        Shape::Dict { of } => {
            let ps: Vec<(Data, Data)> = map_entries(db, prefix, of)?;
            Ok(dict_of(ps))
        },
        Shape::List { of } => {
            if is_leaf(of) {
                let ps: Vec<(Data, Data)> = scan_direct_children(db, prefix, ChildKey::List)?;
                return Ok(array_of(take_seconds(ps)));
            }
            let n: u64 = list_length(db, prefix)?;
            let xs: Vec<Data> = list_entries(db, prefix, of, n)?;
            Ok(array_of(xs))
        },
        Shape::Deque { of } => {
            if is_leaf(of) {
                let ps: Vec<(Data, Data)> = scan_direct_children(db, prefix, ChildKey::Deque)?;
                return Ok(array_of(take_seconds(ps)));
            }
            let head: i64 = deque_first(db, prefix)?;
            let tail: i64 = deque_end(db, prefix)?;
            let xs: Vec<Data> = deque_entries(db, prefix, of, head, tail)?;
            Ok(array_of(xs))
        },
        Shape::Record { fields } => {
            proof {
                lemma_fields(*fields);
            }
            let ps: Vec<(Data, Data)> = record_entries(db, prefix, fields)?;
            Ok(dict_of(ps))
        },
    }
}

pub(crate) fn is_leaf(shape: &Shape) -> (r: bool)
    ensures
        r == (shape@ is Leaf),
{
    match shape {
        Shape::Leaf => true,
        _ => false,
    }
}

/// The collection holds leaves.
pub fn is_leaf_collection(shape: &Shape) -> (r: bool)
    ensures
        r == holds_leaves(shape@),
{
    match shape {
        Shape::Dict { of } => is_leaf(of),
        Shape::List { of } => is_leaf(of),
        Shape::Deque { of } => is_leaf(of),
        _ => false,
    }
}

/// The children of an item.
pub(crate) fn value_children(v: &Data) -> (r: Vec<(Data, Data)>)
    ensures
        pairs_v(r) == item_children(v@),
{
    match v {
        Data::Array(xs) => {
            proof {
                lemma_items(*xs);
            }
            let mut out: Vec<(Data, Data)> = Vec::new();
            let mut i: usize = 0;
            while i < xs.len()
                invariant
                    i <= xs@.len(),
                    out@.len() == i,
                    forall|j: int|
                        0 <= j < i ==> (#[trigger] out@[j]).0@ == DataV::UInt(j as u64)
                            && out@[j].1@ == xs@[j]@,
                decreases xs@.len() - i,
            {
                out.push((Data::UInt(i as u64), copy_data(&xs[i])));
                i = i + 1;
            }
            proof {
                lemma_pairs(out);
                assert forall|j: int| 0 <= j < out@.len() implies pairs_v(out)[j] == item_children(
                    v@,
                )[j] by {
                    assert(pairs_v(out)[j] == (out@[j].0@, out@[j].1@));
                    assert(items_v(*xs)[j] == xs@[j]@);
                }
                assert(pairs_v(out) =~= item_children(v@));
            }
            out
        },
        Data::Dict(m) => {
            proof {
                lemma_pairs(*m);
            }
            crate::data::copy_pairs(m)
        },
        _ => {
            let out: Vec<(Data, Data)> = Vec::new();
            proof {
                lemma_pairs(out);
                assert(pairs_v(out) =~= item_children(v@));
            }
            out
        },
    }
}

fn same_arrays(a: &Vec<Data>, b: &Vec<Data>) -> (r: bool)
    ensures
        r == values_same(DataV::Array(items_v(*a)), DataV::Array(items_v(*b))),
    decreases a, 1int,
{
    let ghost av = items_v(*a);
    let ghost bv = items_v(*b);
    proof {
        lemma_items(*a);
        lemma_items(*b);
    }
    if a.len() != b.len() {
        return false;
    }
    let mut i: usize = 0;
    while i < a.len()
        invariant
            i <= a@.len(),
            a@.len() == b@.len(),
            av == items_v(*a),
            bv == items_v(*b),
            av.len() == a@.len(),
            bv.len() == b@.len(),
            forall|j: int| 0 <= j < a@.len() ==> #[trigger] av[j] == a@[j]@,
            forall|j: int| 0 <= j < b@.len() ==> #[trigger] bv[j] == b@[j]@,
            forall|j: int| 0 <= j < i ==> values_same(#[trigger] av[j], bv[j]),
        decreases a@.len() - i,
    {
        let ghost x = av[i as int];
        let ghost y = bv[i as int];
        if !values_eq(&a[i], &b[i]) {
            assert(!values_same(av[i as int], bv[i as int]));
            return false;
        }
        i = i + 1;
    }
    true
}

/// The two items are the same.
pub fn values_eq(a: &Data, b: &Data) -> (r: bool)
    ensures
        r == values_same(a@, b@),
    decreases a, 0int,
{
    match (a, b) {
        (Data::UInt(x), Data::UInt(y)) => *x == *y,
        (Data::NInt(x), Data::NInt(y)) => *x == *y,
        (Data::Float(x), Data::Float(y)) => {
            if Value::float(*x).is_err() || Value::float(*y).is_err() {
                return false;
            }
            match rel_of_floats(*x, *y) {
                Rel::Equal => true,
                _ => false,
            }
        },
        (Data::Text(x), Data::Text(y)) => text_eq(x.as_str(), y.as_str()),
        (Data::Bool(x), Data::Bool(y)) => *x == *y,
        (Data::Null, Data::Null) => true,
        (Data::Bytes(x), Data::Bytes(y)) => bytes_eq(x.as_slice(), y.as_slice()),
        (Data::Array(x), Data::Array(y)) => {
            proof {
                lemma_items(*x);
                lemma_items(*y);
            }
            same_arrays(x, y)
        },
        _ => false,
    }
}

fn float_relation(x: u64, y: u64) -> (r: Option<Rel>)
    ensures
        r == float_rel(x, y),
{
    if Value::float(x).is_err() || Value::float(y).is_err() {
        None
    } else {
        Some(rel_of_floats(x, y))
    }
}

/// The integer that an item is.
fn item_int(d: &Data) -> (r: Option<i128>)
    ensures
        match (r, int_of(d@)) {
            (Some(x), Some(y)) => x == y,
            (None, None) => true,
            _ => false,
        },
{
    match d {
        Data::UInt(n) => Some(*n as i128),
        Data::NInt(n) => Some(-1 - *n as i128),
        _ => None,
    }
}

fn int_relation(x: i128, y: i128) -> (r: Rel)
    ensures
        r == rel_int(x as int, y as int),
{
    if x < y {
        Rel::Less
    } else if x == y {
        Rel::Equal
    } else {
        Rel::Greater
    }
}

/// How two items stand to each other.
fn relate(floats: &FloatTable, a: &Data, b: &Data) -> (r: Result<Option<Rel>, Error>)
    ensures
        match (r, values_rel(floats@, a@, b@)) {
            (Ok(x), Ok(y)) => x == y,
            (Err(e), Err(w)) => e@ == w,
            _ => false,
        },
{
    match (item_int(a), item_int(b)) {
        (Some(x), Some(y)) => Ok(Some(int_relation(x, y))),
        (Some(x), None) => match b {
            Data::Float(y) => match floats.of_int(x) {
                None => Err(Error::Need(Ask::OfInt(x))),
                Some(z) => Ok(float_relation(z, *y)),
            },
            _ => Ok(None),
        },
        (None, Some(y)) => match a {
            Data::Float(x) => match floats.of_int(y) {
                None => Err(Error::Need(Ask::OfInt(y))),
                Some(z) => Ok(float_relation(*x, z)),
            },
            _ => Ok(None),
        },
        (None, None) => match (a, b) {
            (Data::Float(x), Data::Float(y)) => Ok(float_relation(*x, *y)),
            (Data::Text(x), Data::Text(y)) => Ok(Some(rel_of_text(x.as_str(), y.as_str()))),
            (Data::Bool(x), Data::Bool(y)) => {
                let p: i128 = if *x { 1 } else { 0 };
                let q: i128 = if *y { 1 } else { 0 };
                Ok(Some(int_relation(p, q)))
            },
            _ => Ok(None),
        },
    }
}

pub(crate) fn test_relation(floats: &FloatTable, r: Relation, a: &Data, b: &Data) -> (t: Result<bool, Error>)
    ensures
        same_bool(t, related(floats@, r, a@, b@)),
{
    match r {
        Relation::Eq => Ok(values_eq(a, b)),
        Relation::Ne => Ok(!values_eq(a, b)),
        _ => match relate(floats, a, b)? {
            None => Ok(false),
            Some(x) => Ok(
                match r {
                    Relation::Lt => x == Rel::Less,
                    Relation::Le => x != Rel::Greater,
                    Relation::Gt => x == Rel::Greater,
                    _ => x != Rel::Less,
                },
            ),
        },
    }
}

fn find_pair(m: &Vec<(Data, Data)>, k: &Data) -> (i: usize)
    ensures
        i == pair_place(pairs_v(*m), k@, 0),
        i <= m@.len(),
{
    let ghost mv = pairs_v(*m);
    proof {
        lemma_pairs(*m);
    }
    let mut i: usize = 0;
    while i < m.len()
        invariant
            i <= m@.len(),
            mv == pairs_v(*m),
            mv.len() == m@.len(),
            forall|j: int| 0 <= j < m@.len() ==> #[trigger] mv[j] == (m@[j].0@, m@[j].1@),
            pair_place(mv, k@, 0) == pair_place(mv, k@, i as int),
        decreases m@.len() - i,
    {
        let ghost p = mv[i as int];
        if values_eq(&m[i].0, k) {
            return i;
        }
        i = i + 1;
    }
    i
}

/// What the map `v` has for `k`.
pub fn map_get(v: &Data, k: &Data) -> (r: Data)
    ensures
        r@ == item_get(v@, k@),
{
    match v {
        Data::Dict(m) => {
            proof {
                lemma_pairs(*m);
            }
            let i: usize = find_pair(m, k);
            if i < m.len() {
                assert(pairs_v(*m)[i as int] == (m@[i as int].0@, m@[i as int].1@));
                copy_data(&m[i].1)
            } else {
                Data::Null
            }
        },
        _ => Data::Null,
    }
}

pub(crate) fn field_get(v: &Data, name: &str) -> (r: Data)
    ensures
        r@ == item_get(v@, DataV::Text(name@)),
{
    map_get(v, &Data::Text(name.to_owned()))
}

/// What the array `v` has at `i`.
fn array_get(v: &Data, i: u64) -> (r: Data)
    ensures
        r@ == item_at(v@, i),
{
    match v {
        Data::Array(xs) => {
            proof {
                lemma_items(*xs);
            }
            if i < xs.len() as u64 {
                assert(items_v(*xs)[i as int] == xs@[i as int]@);
                copy_data(&xs[i as usize])
            } else {
                Data::Null
            }
        },
        _ => Data::Null,
    }
}

pub(crate) fn slice_bounds(start: &Option<u64>, end: &Option<u64>, n: usize) -> (r: (usize, usize))
    ensures
        r.0 == slice_from(*start, n as int),
        r.1 == slice_to(*start, *end, n as int),
        r.0 <= r.1 <= n,
{
    let from: usize = match start {
        Some(x) => if *x <= n as u64 {
            *x as usize
        } else {
            n
        },
        None => 0,
    };
    let to: usize = match end {
        Some(x) => if *x <= n as u64 {
            *x as usize
        } else {
            n
        },
        None => n,
    };
    if to <= from {
        (from, from)
    } else {
        (from, to)
    }
}

fn one_item(d: Data) -> (r: Vec<Data>)
    ensures
        items_v(r) == seq![d@],
{
    let mut v: Vec<Data> = Vec::new();
    let ghost v0 = v;
    v.push(d);
    proof {
        lemma_items(v0);
        lemma_items_push(v0, v, d);
        assert(items_v(v) =~= seq![d@]);
    }
    v
}

fn no_items() -> (r: Vec<Data>)
    ensures
        items_v(r) == Seq::<DataV>::empty(),
{
    let v: Vec<Data> = Vec::new();
    proof {
        lemma_items(v);
        assert(items_v(v) =~= Seq::<DataV>::empty());
    }
    v
}

/// The items of `v` from `from` up to `to`.
fn item_range(v: &Vec<Data>, from: usize, to: usize) -> (r: Vec<Data>)
    requires
        from <= to <= v@.len(),
    ensures
        items_v(r) == items_v(*v).subrange(from as int, to as int),
{
    let mut out: Vec<Data> = Vec::new();
    let mut i: usize = from;
    while i < to
        invariant
            from <= i <= to <= v@.len(),
            out@.len() == i - from,
            forall|j: int| 0 <= j < i - from ==> (#[trigger] out@[j])@ == v@[from + j]@,
        decreases to - i,
    {
        out.push(copy_data(&v[i]));
        i = i + 1;
    }
    proof {
        lemma_items(out);
        lemma_items(*v);
        assert forall|j: int| 0 <= j < out@.len() implies items_v(out)[j] == items_v(*v).subrange(
            from as int,
            to as int,
        )[j] by {
            assert(items_v(out)[j] == out@[j]@);
            assert(items_v(*v)[from + j] == v@[from + j]@);
        }
        assert(items_v(out) =~= items_v(*v).subrange(from as int, to as int));
    }
    out
}

fn take_firsts(pairs: &Vec<(Data, Data)>) -> (r: Vec<Data>)
    ensures
        items_v(r) == pairs_v(*pairs).map_values(|p: (DataV, DataV)| p.0),
{
    let mut out: Vec<Data> = Vec::new();
    let mut i: usize = 0;
    while i < pairs.len()
        invariant
            i <= pairs@.len(),
            out@.len() == i,
            forall|j: int| 0 <= j < i ==> (#[trigger] out@[j])@ == pairs@[j].0@,
        decreases pairs@.len() - i,
    {
        out.push(copy_data(&pairs[i].0));
        i = i + 1;
    }
    proof {
        lemma_items(out);
        lemma_pairs(*pairs);
        let want = pairs_v(*pairs).map_values(|p: (DataV, DataV)| p.0);
        assert forall|j: int| 0 <= j < out@.len() implies items_v(out)[j] == want[j] by {
            assert(items_v(out)[j] == out@[j]@);
            assert(pairs_v(*pairs)[j] == (pairs@[j].0@, pairs@[j].1@));
        }
        assert(items_v(out) =~= want);
    }
    out
}

fn take_entries(pairs: &Vec<(Data, Data)>) -> (r: Vec<Data>)
    ensures
        items_v(r) == pairs_v(*pairs).map_values(
            |p: (DataV, DataV)| DataV::Array(seq![p.0, p.1]),
        ),
{
    let mut out: Vec<Data> = Vec::new();
    let mut i: usize = 0;
    while i < pairs.len()
        invariant
            i <= pairs@.len(),
            out@.len() == i,
            forall|j: int|
                0 <= j < i ==> (#[trigger] out@[j])@ == DataV::Array(
                    seq![pairs@[j].0@, pairs@[j].1@],
                ),
        decreases pairs@.len() - i,
    {
        out.push(array2(copy_data(&pairs[i].0), copy_data(&pairs[i].1)));
        i = i + 1;
    }
    proof {
        lemma_items(out);
        lemma_pairs(*pairs);
        let want = pairs_v(*pairs).map_values(|p: (DataV, DataV)| DataV::Array(seq![p.0, p.1]));
        assert forall|j: int| 0 <= j < out@.len() implies items_v(out)[j] == want[j] by {
            assert(items_v(out)[j] == out@[j]@);
            assert(pairs_v(*pairs)[j] == (pairs@[j].0@, pairs@[j].1@));
        }
        assert(items_v(out) =~= want);
    }
    out
}

/// The items that a step leads to from the item `v`.
pub fn step_value(floats: &FloatTable, v: &Data, nav: &Nav) -> (r: Result<Vec<Data>, Error>)
    ensures
        same_list(r, value_step(floats@, v@, nav@)),
    decreases nav, 0int,
{
    match nav {
        Nav::Field(name) => Ok(one_item(field_get(v, name.as_str()))),
        Nav::Key(k) => Ok(one_item(map_get(v, k))),
        Nav::Index(i) => Ok(one_item(array_get(v, *i))),
        Nav::All | Nav::Values => Ok(take_seconds(value_children(v))),
        Nav::Keys => Ok(take_firsts(&value_children(v))),
        Nav::Entries => Ok(take_entries(&value_children(v))),
        Nav::Where(p) => {
            let kids: Vec<Data> = take_seconds(value_children(v));
            filter_values(floats, &kids, p)
        },
        Nav::First => {
            let kids: Vec<(Data, Data)> = value_children(v);
            proof {
                lemma_pairs(kids);
            }
            if kids.len() > 0 {
                assert(pairs_v(kids)[0] == (kids@[0].0@, kids@[0].1@));
                Ok(one_item(copy_data(&kids[0].1)))
            } else {
                Ok(no_items())
            }
        },
        Nav::Last => {
            let kids: Vec<(Data, Data)> = value_children(v);
            let n: usize = kids.len();
            proof {
                lemma_pairs(kids);
            }
            if n > 0 {
                assert(pairs_v(kids)[n - 1] == (kids@[n - 1].0@, kids@[n - 1].1@));
                Ok(one_item(copy_data(&kids[n - 1].1)))
            } else {
                Ok(no_items())
            }
        },
        Nav::Slice { start, end } => {
            let kids: Vec<Data> = take_seconds(value_children(v));
            proof {
                lemma_items(kids);
            }
            let (from, to) = slice_bounds(start, end, kids.len());
            Ok(item_range(&kids, from, to))
        },
    }
}

proof fn lemma_filter_err(f: Seq<FactV>, vs: Seq<DataV>, p: PredicateV, i: int, n: int)
    requires
        0 <= i <= n <= vs.len(),
        value_filter(f, vs, p, i) is Err,
    ensures
        value_filter(f, vs, p, n) == value_filter(f, vs, p, i),
    decreases n,
{
    if i < n {
        lemma_filter_err(f, vs, p, i, n - 1);
    }
}

fn filter_values(floats: &FloatTable, vs: &Vec<Data>, p: &Predicate) -> (r: Result<
    Vec<Data>,
    Error,
>)
    ensures
        same_list(r, value_filter(floats@, items_v(*vs), p@, items_v(*vs).len() as int)),
    decreases p, 2int,
{
    let ghost vv = items_v(*vs);
    let mut out: Vec<Data> = no_items();
    let mut i: usize = 0;
    proof {
        lemma_items(*vs);
    }
    while i < vs.len()
        invariant
            i <= vs@.len(),
            vv == items_v(*vs),
            vv.len() == vs@.len(),
            forall|j: int| 0 <= j < vs@.len() ==> #[trigger] vv[j] == vs@[j]@,
            value_filter(floats@, vv, p@, i as int) == Ok::<Seq<DataV>, ErrorV>(items_v(out)),
        decreases vs@.len() - i,
    {
        let ghost x = vv[i as int];
        match eval_pred_value(floats, &vs[i], p) {
            Err(e) => {
                proof {
                    lemma_filter_err(floats@, vv, p@, i + 1, vv.len() as int);
                }
                return Err(e);
            },
            Ok(b) => {
                if b {
                    let ghost before = out;
                    let d: Data = copy_data(&vs[i]);
                    out.push(d);
                    proof {
                        lemma_items_push(before, out, d);
                    }
                }
            },
        }
        i = i + 1;
    }
    Ok(out)
}

/// The predicate holds of the item.
pub fn eval_pred_value(floats: &FloatTable, v: &Data, p: &Predicate) -> (r: Result<bool, Error>)
    ensures
        same_bool(r, value_pred(floats@, v@, p@)),
    decreases p, 0int,
{
    match p {
        Predicate::Compare(r, a, b) => {
            let x: Data = eval_expr_val(floats, v, a)?;
            let y: Data = eval_expr_val(floats, v, b)?;
            test_relation(floats, *r, &x, &y)
        },
        Predicate::And(ps) => {
            proof {
                lemma_preds(*ps);
            }
            all_values(floats, v, ps)
        },
        Predicate::Or(ps) => {
            proof {
                lemma_preds(*ps);
            }
            any_values(floats, v, ps)
        },
        Predicate::Not(q) => {
            let b: bool = eval_pred_value(floats, v, q)?;
            Ok(!b)
        },
        Predicate::Exists(ns) => {
            proof {
                lemma_navs(*ns);
            }
            let vs: Vec<Data> = walk_values(floats, v, ns)?;
            let ghost vv = items_v(vs);
            proof {
                lemma_items(vs);
            }
            let mut i: usize = 0;
            while i < vs.len()
                invariant
                    i <= vs@.len(),
                    vv == items_v(vs),
                    vv.len() == vs@.len(),
                    forall|j: int| 0 <= j < vs@.len() ==> #[trigger] vv[j] == vs@[j]@,
                    forall|j: int| 0 <= j < i ==> (#[trigger] vv[j]) is Null,
                    value_pred(floats@, v@, p@) == Ok::<bool, ErrorV>(
                        exists|i: int| 0 <= i < vv.len() && !((#[trigger] vv[i]) is Null),
                    ),
                decreases vs@.len() - i,
            {
                let ghost x = vv[i as int];
                match &vs[i] {
                    Data::Null => {},
                    _ => {
                        assert(!(vv[i as int] is Null));
                        return Ok(true);
                    },
                }
                i = i + 1;
            }
            Ok(false)
        },
    }
}

fn all_values(floats: &FloatTable, v: &Data, ps: &Vec<Predicate>) -> (r: Result<bool, Error>)
    ensures
        same_bool(r, value_all(floats@, v@, preds_v(*ps), 0)),
    decreases ps, 1int,
{
    let ghost pv = preds_v(*ps);
    proof {
        lemma_preds(*ps);
    }
    let mut i: usize = 0;
    while i < ps.len()
        invariant
            i <= ps@.len(),
            pv == preds_v(*ps),
            pv.len() == ps@.len(),
            forall|j: int| 0 <= j < ps@.len() ==> #[trigger] pv[j] == ps@[j]@,
            value_all(floats@, v@, pv, 0) == value_all(floats@, v@, pv, i as int),
        decreases ps@.len() - i,
    {
        let ghost x = pv[i as int];
        let b: bool = eval_pred_value(floats, v, &ps[i])?;
        if !b {
            return Ok(false);
        }
        i = i + 1;
    }
    Ok(true)
}

fn any_values(floats: &FloatTable, v: &Data, ps: &Vec<Predicate>) -> (r: Result<bool, Error>)
    ensures
        same_bool(r, value_any(floats@, v@, preds_v(*ps), 0)),
    decreases ps, 1int,
{
    let ghost pv = preds_v(*ps);
    proof {
        lemma_preds(*ps);
    }
    let mut i: usize = 0;
    while i < ps.len()
        invariant
            i <= ps@.len(),
            pv == preds_v(*ps),
            pv.len() == ps@.len(),
            forall|j: int| 0 <= j < ps@.len() ==> #[trigger] pv[j] == ps@[j]@,
            value_any(floats@, v@, pv, 0) == value_any(floats@, v@, pv, i as int),
        decreases ps@.len() - i,
    {
        let ghost x = pv[i as int];
        let b: bool = eval_pred_value(floats, v, &ps[i])?;
        if b {
            return Ok(true);
        }
        i = i + 1;
    }
    Ok(false)
}

/// The expression's value for the item.
pub fn eval_expr_val(floats: &FloatTable, v: &Data, e: &Expr) -> (r: Result<Data, Error>)
    ensures
        same_data(r, value_expr(floats@, v@, e@)),
    decreases e, 0int,
{
    match e {
        Expr::Lit(d) => Ok(copy_data(d)),
        Expr::Field(name) => Ok(field_get(v, name.as_str())),
        Expr::Path(ns) => {
            proof {
                lemma_navs(*ns);
            }
            let vs: Vec<Data> = walk_values(floats, v, ns)?;
            proof {
                lemma_items(vs);
            }
            if vs.len() > 0 {
                assert(items_v(vs)[0] == vs@[0]@);
                Ok(copy_data(&vs[0]))
            } else {
                Ok(Data::Null)
            }
        },
    }
}

proof fn lemma_steps_err(f: Seq<FactV>, vs: Seq<DataV>, ns: Seq<NavV>, i: int, n: int)
    requires
        0 <= i <= n <= ns.len(),
        value_steps(f, vs, ns, i) is Err,
    ensures
        value_steps(f, vs, ns, n) == value_steps(f, vs, ns, i),
    decreases n,
{
    if i < n {
        lemma_steps_err(f, vs, ns, i, n - 1);
    }
}

proof fn lemma_spread_err(f: Seq<FactV>, vs: Seq<DataV>, nav: NavV, i: int, n: int)
    requires
        0 <= i <= n <= vs.len(),
        value_spread(f, vs, nav, i) is Err,
    ensures
        value_spread(f, vs, nav, n) == value_spread(f, vs, nav, i),
    decreases n,
{
    if i < n {
        lemma_spread_err(f, vs, nav, i, n - 1);
    }
}

/// The items that the steps lead to from `v`.
fn walk_values(floats: &FloatTable, v: &Data, ns: &Vec<Nav>) -> (r: Result<Vec<Data>, Error>)
    ensures
        same_list(r, value_steps(floats@, seq![v@], navs_v(*ns), navs_v(*ns).len() as int)),
    decreases ns, 2int,
{
    let ghost nv = navs_v(*ns);
    proof {
        lemma_navs(*ns);
    }
    let mut cur: Vec<Data> = one_item(copy_data(v));
    let mut i: usize = 0;
    while i < ns.len()
        invariant
            i <= ns@.len(),
            nv == navs_v(*ns),
            nv.len() == ns@.len(),
            forall|j: int| 0 <= j < ns@.len() ==> #[trigger] nv[j] == ns@[j]@,
            value_steps(floats@, seq![v@], nv, i as int) == Ok::<Seq<DataV>, ErrorV>(items_v(cur)),
        decreases ns@.len() - i,
    {
        let ghost x = nv[i as int];
        match spread_values(floats, &cur, &ns[i]) {
            Err(e) => {
                proof {
                    lemma_steps_err(floats@, seq![v@], nv, i + 1, nv.len() as int);
                }
                return Err(e);
            },
            Ok(next) => {
                cur = next;
            },
        }
        i = i + 1;
    }
    Ok(cur)
}

/// The items that one step leads to from each of `vs`.
fn spread_values(floats: &FloatTable, vs: &Vec<Data>, nav: &Nav) -> (r: Result<Vec<Data>, Error>)
    ensures
        same_list(r, value_spread(floats@, items_v(*vs), nav@, items_v(*vs).len() as int)),
    decreases nav, 1int,
{
    let ghost vv = items_v(*vs);
    proof {
        lemma_items(*vs);
    }
    let mut out: Vec<Data> = no_items();
    let mut i: usize = 0;
    while i < vs.len()
        invariant
            i <= vs@.len(),
            vv == items_v(*vs),
            vv.len() == vs@.len(),
            forall|j: int| 0 <= j < vs@.len() ==> #[trigger] vv[j] == vs@[j]@,
            value_spread(floats@, vv, nav@, i as int) == Ok::<Seq<DataV>, ErrorV>(items_v(out)),
        decreases vs@.len() - i,
    {
        let ghost x = vv[i as int];
        match step_value(floats, &vs[i], nav) {
            Err(e) => {
                proof {
                    lemma_spread_err(floats@, vv, nav@, i + 1, vv.len() as int);
                }
                return Err(e);
            },
            Ok(mut more) => {
                let ghost before = out;
                let ghost mv = more;
                out.append(&mut more);
                proof {
                    lemma_items_append(before, mv, out);
                }
            },
        }
        i = i + 1;
    }
    Ok(out)
}

proof fn lemma_items_append(a: Vec<Data>, b: Vec<Data>, c: Vec<Data>)
    requires
        c@ == a@ + b@,
    ensures
        items_v(c) == items_v(a) + items_v(b),
{
    lemma_items(a);
    lemma_items(b);
    lemma_items(c);
    assert forall|j: int| 0 <= j < c@.len() implies items_v(c)[j] == (items_v(a) + items_v(b))[j] by {
        assert(items_v(c)[j] == c@[j]@);
        if j < a@.len() {
            assert(items_v(a)[j] == a@[j]@);
        } else {
            assert(items_v(b)[j - a@.len()] == b@[j - a@.len()]@);
        }
    }
    assert(items_v(c) =~= items_v(a) + items_v(b));
}

} // verus!
