//! The places that a query leads to, and what is read there.

use crate::bytes::copy_bytes;
use crate::codec::{child_key, order_i64, order_u64, put_segment};
use crate::data::{
    array2, copy_data, encode, items_v, lemma_items, lemma_items_push, lemma_pairs, pairs_v, Data,
    DataV,
};
use crate::db::{Db, RowV};
use crate::error::{query_error, Error, ErrorV};
use crate::float::{FactV, FloatTable};
use crate::nav::{
    lemma_navs, lemma_preds, navs_v, preds_v, Expr, Nav, NavV, Predicate, PredicateV, Query,
};
use crate::path::{deque_key, list_key, map_keys};
use crate::query::{
    array_of, deque_end, deque_first, field_get, is_leaf_collection, list_length, materialize,
    read_leaf_or_null, same_bool, same_data, same_list, scan_direct_children, slice_bounds,
    step_value, test_relation, value_children,
};
use crate::reading::{
    all_focused, as_foci, child_entries, child_keys, children_of, collected, db_all, db_any,
    db_expr, db_filter, db_pred, db_step, entry_key, field_item, field_key, focus_spread,
    focus_step, focus_steps, focused, found, index_from, index_step, key_of, leaf_step,
    pair_children, places, present, root_of, ChildKey, ChildV, FocusV,
};
use crate::schema::{bits_i64, i64_bits};
use crate::shape::{field_segment, fields_v, lemma_fields, Shape, ShapeV};
use crate::text::debug_text;
use vstd::prelude::*;
use vstd::string::*;

verus! {

/// A place in focus: a location of the store, or an item.
pub enum Focus<'a> {
    Db { prefix: Vec<u8>, shape: &'a Shape },
    Val(Data),
}

impl<'a> View for Focus<'a> {
    type V = FocusV;

    open spec fn view(&self) -> FocusV {
        match self {
            Focus::Db { prefix, shape } => FocusV::Db { prefix: prefix@, shape: shape@ },
            Focus::Val(d) => FocusV::Val(d@),
        }
    }
}

/// The places of a list.
pub open spec fn foci_v(s: Seq<Focus<'_>>) -> Seq<FocusV> {
    Seq::new(s.len(), |i: int| s[i]@)
}

/// A child: its key, if it has one, and the place.
pub type Child<'a> = (Option<Data>, Focus<'a>);

/// The child of a list.
pub open spec fn child_v(c: Child<'_>) -> ChildV {
    (
        match c.0 {
            Some(k) => Some(k@),
            None => None,
        },
        c.1@,
    )
}

/// The children of a list.
pub open spec fn children_v(s: Seq<Child<'_>>) -> Seq<ChildV> {
    Seq::new(s.len(), |i: int| child_v(s[i]))
}

/// The places found are those that the model says.
pub open spec fn same_foci(r: Result<Vec<Focus<'_>>, Error>, s: Result<Seq<FocusV>, ErrorV>) -> bool {
    match (r, s) {
        (Ok(d), Ok(v)) => foci_v(d@) == v,
        (Err(e), Err(w)) => e@ == w,
        _ => false,
    }
}

/// The children found are those that the model says.
pub open spec fn same_children(
    r: Result<Vec<Child<'_>>, Error>,
    s: Result<Seq<ChildV>, ErrorV>,
) -> bool {
    match (r, s) {
        (Ok(d), Ok(v)) => children_v(d@) == v,
        (Err(e), Err(w)) => e@ == w,
        _ => false,
    }
}

fn one_focus<'a>(f: Focus<'a>) -> (r: Vec<Focus<'a>>)
    ensures
        foci_v(r@) == seq![f@],
{
    let mut v: Vec<Focus<'a>> = Vec::new();
    v.push(f);
    assert(foci_v(v@) =~= seq![f@]);
    v
}

fn copy_focus<'a>(f: &Focus<'a>) -> (r: Focus<'a>)
    ensures
        r@ == f@,
{
    match f {
        Focus::Db { prefix, shape } => Focus::Db {
            prefix: copy_bytes(prefix.as_slice()),
            shape: *shape,
        },
        Focus::Val(d) => Focus::Val(copy_data(d)),
    }
}

fn item_foci<'a>(items: &Vec<Data>) -> (r: Vec<Focus<'a>>)
    ensures
        foci_v(r@) == as_foci(items_v(*items)),
{
    proof {
        lemma_items(*items);
    }
    let mut out: Vec<Focus<'a>> = Vec::new();
    let mut i: usize = 0;
    while i < items.len()
        invariant
            i <= items@.len(),
            out@.len() == i,
            forall|j: int| 0 <= j < i ==> (#[trigger] out@[j])@ == FocusV::Val(items@[j]@),
        decreases items@.len() - i,
    {
        out.push(Focus::Val(copy_data(&items[i])));
        i = i + 1;
    }
    proof {
        assert forall|j: int| 0 <= j < out@.len() implies foci_v(out@)[j] == as_foci(
            items_v(*items),
        )[j] by {
            assert(items_v(*items)[j] == items@[j]@);
            assert(out@[j]@ == FocusV::Val(items@[j]@));
        }
        assert(foci_v(out@) =~= as_foci(items_v(*items)));
    }
    out
}

/// The nested item at a place.
pub fn materialize_focus(db: &Db, focus: &Focus<'_>) -> (r: Result<Data, Error>)
    ensures
        same_data(r, focused(db@, focus@)),
{
    match focus {
        Focus::Val(d) => Ok(copy_data(d)),
        Focus::Db { prefix, shape } => materialize(db, prefix.as_slice(), *shape),
    }
}

fn paired_children<'a>(pairs: &Vec<(Data, Data)>) -> (r: Vec<Child<'a>>)
    ensures
        children_v(r@) == pair_children(pairs_v(*pairs)),
{
    proof {
        lemma_pairs(*pairs);
    }
    let mut out: Vec<Child<'a>> = Vec::new();
    let mut i: usize = 0;
    while i < pairs.len()
        invariant
            i <= pairs@.len(),
            out@.len() == i,
            forall|j: int|
                0 <= j < i ==> child_v(#[trigger] out@[j]) == (
                    Some(pairs@[j].0@),
                    FocusV::Val(pairs@[j].1@),
                ),
        decreases pairs@.len() - i,
    {
        out.push((Some(copy_data(&pairs[i].0)), Focus::Val(copy_data(&pairs[i].1))));
        i = i + 1;
    }
    proof {
        let want = pair_children(pairs_v(*pairs));
        assert forall|j: int| 0 <= j < out@.len() implies children_v(out@)[j] == want[j] by {
            assert(pairs_v(*pairs)[j] == (pairs@[j].0@, pairs@[j].1@));
            assert(child_v(out@[j]) == (Some(pairs@[j].0@), FocusV::Val(pairs@[j].1@)));
        }
        assert(children_v(out@) =~= want);
    }
    out
}

fn dict_children<'a>(prefix: &[u8], of: &'a Shape, keys: &Vec<Data>) -> (r: Vec<Child<'a>>)
    ensures
        children_v(r@) == items_v(*keys).map_values(
            |k: DataV| (Some(k), FocusV::Db { prefix: entry_key(prefix@, k), shape: of@ }),
        ),
{
    proof {
        lemma_items(*keys);
    }
    let mut out: Vec<Child<'a>> = Vec::new();
    let mut i: usize = 0;
    while i < keys.len()
        invariant
            i <= keys@.len(),
            out@.len() == i,
            forall|j: int|
                0 <= j < i ==> child_v(#[trigger] out@[j]) == (
                    Some(keys@[j]@),
                    FocusV::Db { prefix: entry_key(prefix@, keys@[j]@), shape: of@ },
                ),
        decreases keys@.len() - i,
    {
        let seg: Vec<u8> = encode(&keys[i]);
        let place: Focus<'a> = Focus::Db { prefix: child_key(prefix, seg.as_slice()), shape: of };
        out.push((Some(copy_data(&keys[i])), place));
        i = i + 1;
    }
    proof {
        let want = items_v(*keys).map_values(
            |k: DataV| (Some(k), FocusV::Db { prefix: entry_key(prefix@, k), shape: of@ }),
        );
        assert forall|j: int| 0 <= j < out@.len() implies children_v(out@)[j] == want[j] by {
            assert(items_v(*keys)[j] == keys@[j]@);
            assert(child_v(out@[j]) == (
                Some(keys@[j]@),
                FocusV::Db { prefix: entry_key(prefix@, keys@[j]@), shape: of@ },
            ));
        }
        assert(children_v(out@) =~= want);
    }
    out
}

fn list_children<'a>(prefix: &[u8], of: &'a Shape, n: u64) -> (r: Vec<Child<'a>>)
    ensures
        children_v(r@) == Seq::new(
            n as nat,
            |i: int|
                (
                    Some(DataV::UInt(i as u64)),
                    FocusV::Db { prefix: list_key(prefix@, i), shape: of@ },
                ),
        ),
{
    let mut out: Vec<Child<'a>> = Vec::new();
    let mut i: u64 = 0;
    while i < n
        invariant
            i <= n,
            out@.len() == i,
            forall|j: int|
                0 <= j < i ==> child_v(#[trigger] out@[j]) == (
                    Some(DataV::UInt(j as u64)),
                    FocusV::Db { prefix: list_key(prefix@, j), shape: of@ },
                ),
        decreases n - i,
    {
        let ix = order_u64(i);
        let place: Focus<'a> = Focus::Db { prefix: child_key(prefix, &ix), shape: of };
        out.push((Some(Data::UInt(i)), place));
        i = i + 1;
    }
    proof {
        let want = Seq::new(
            n as nat,
            |i: int|
                (
                    Some(DataV::UInt(i as u64)),
                    FocusV::Db { prefix: list_key(prefix@, i), shape: of@ },
                ),
        );
        assert forall|j: int| 0 <= j < out@.len() implies children_v(out@)[j] == want[j] by {
            assert(child_v(out@[j]) == (
                Some(DataV::UInt(j as u64)),
                FocusV::Db { prefix: list_key(prefix@, j), shape: of@ },
            ));
        }
        assert(children_v(out@) =~= want);
    }
    out
}

fn deque_children<'a>(prefix: &[u8], of: &'a Shape, head: i64, tail: i64) -> (r: Vec<Child<'a>>)
    ensures
        children_v(r@) == Seq::new(
            (if head < tail {
                tail - head
            } else {
                0
            }) as nat,
            |i: int|
                (
                    Some(DataV::UInt(i as u64)),
                    FocusV::Db { prefix: deque_key(prefix@, head + i), shape: of@ },
                ),
        ),
{
    let mut out: Vec<Child<'a>> = Vec::new();
    if head < tail {
        let mut i: i64 = head;
        let mut at: u64 = 0;
        while i < tail
            invariant
                head <= i <= tail,
                at == i - head,
                out@.len() == i - head,
                forall|j: int|
                    0 <= j < i - head ==> child_v(#[trigger] out@[j]) == (
                        Some(DataV::UInt(j as u64)),
                        FocusV::Db { prefix: deque_key(prefix@, head + j), shape: of@ },
                    ),
            decreases tail - i,
        {
            let ix = order_i64(i);
            let place: Focus<'a> = Focus::Db { prefix: child_key(prefix, &ix), shape: of };
            out.push((Some(Data::UInt(at)), place));
            i = i + 1;
            at = at + 1;
        }
    }
    proof {
        let want = Seq::new(
            (if head < tail {
                tail - head
            } else {
                0
            }) as nat,
            |i: int|
                (
                    Some(DataV::UInt(i as u64)),
                    FocusV::Db { prefix: deque_key(prefix@, head + i), shape: of@ },
                ),
        );
        assert forall|j: int| 0 <= j < out@.len() implies children_v(out@)[j] == want[j] by {
            assert(child_v(out@[j]) == (
                Some(DataV::UInt(j as u64)),
                FocusV::Db { prefix: deque_key(prefix@, head + j), shape: of@ },
            ));
        }
        assert(children_v(out@) =~= want);
    }
    out
}

fn record_children<'a>(prefix: &[u8], fields: &'a Vec<(String, Shape)>) -> (r: Vec<Child<'a>>)
    ensures
        children_v(r@) == Seq::new(
            fields_v(*fields).len(),
            |i: int|
                (
                    Some(DataV::Text(fields_v(*fields)[i].0)),
                    FocusV::Db { prefix: field_key(prefix@, i), shape: fields_v(*fields)[i].1 },
                ),
        ),
{
    proof {
        lemma_fields(*fields);
    }
    let mut out: Vec<Child<'a>> = Vec::new();
    let mut i: usize = 0;
    while i < fields.len()
        invariant
            i <= fields@.len(),
            out@.len() == i,
            forall|j: int|
                0 <= j < i ==> child_v(#[trigger] out@[j]) == (
                    Some(DataV::Text(fields@[j].0@)),
                    FocusV::Db { prefix: field_key(prefix@, j), shape: fields@[j].1@ },
                ),
        decreases fields@.len() - i,
    {
        let seg: Vec<u8> = field_segment(i as u32);
        let place: Focus<'a> = Focus::Db {
            prefix: child_key(prefix, seg.as_slice()),
            shape: &fields[i].1,
        };
        out.push((Some(Data::Text(fields[i].0.clone())), place));
        i = i + 1;
    }
    proof {
        let fv = fields_v(*fields);
        let want = Seq::new(
            fv.len(),
            |i: int|
                (
                    Some(DataV::Text(fv[i].0)),
                    FocusV::Db { prefix: field_key(prefix@, i), shape: fv[i].1 },
                ),
        );
        assert forall|j: int| 0 <= j < out@.len() implies children_v(out@)[j] == want[j] by {
            assert(fv[j] == (fields@[j].0@, fields@[j].1@));
            assert(child_v(out@[j]) == (
                Some(DataV::Text(fields@[j].0@)),
                FocusV::Db { prefix: field_key(prefix@, j), shape: fields@[j].1@ },
            ));
        }
        assert(children_v(out@) =~= want);
    }
    out
}

/// The children of the location at `prefix`.
pub fn children<'a>(db: &Db, prefix: &[u8], shape: &'a Shape) -> (r: Result<Vec<Child<'a>>, Error>)
    ensures
        same_children(r, children_of(db@, prefix@, shape@)),
{
    match shape {
        Shape::Dict { of } => {
            let keys: Vec<Data> = map_keys(db, prefix)?;
            Ok(dict_children(prefix, of, &keys))
        },
        Shape::List { of } => {
            let n: u64 = list_length(db, prefix)?;
            Ok(list_children(prefix, of, n))
        },
        Shape::Deque { of } => {
            let head: i64 = deque_first(db, prefix)?;
            let tail: i64 = deque_end(db, prefix)?;
            Ok(deque_children(prefix, of, head, tail))
        },
        Shape::Leaf => {
            let v: Data = read_leaf_or_null(db, prefix)?;
            Ok(paired_children(&value_children(&v)))
        },
        Shape::Record { fields } => {
            proof {
                lemma_fields(*fields);
            }
            Ok(record_children(prefix, fields))
        },
        Shape::Sum => {
            let mut out: Vec<Child<'a>> = Vec::new();
            out.push((None, Focus::Db { prefix: copy_bytes(prefix), shape }));
            assert(children_v(out@) =~= seq![
                (None::<DataV>, FocusV::Db { prefix: prefix@, shape: ShapeV::Sum }),
            ]);
            Ok(out)
        },
    }
}

/// The children of a collection. Those of a collection of leaves come out of
/// one scan, as items.
pub fn collection_foci<'a>(db: &Db, prefix: &[u8], shape: &'a Shape) -> (r: Result<
    Vec<Child<'a>>,
    Error,
>)
    ensures
        same_children(r, collected(db@, prefix@, shape@)),
{
    if is_leaf_collection(shape) {
        let kind: ChildKey = match shape {
            Shape::Dict { .. } => ChildKey::Dict,
            Shape::List { .. } => ChildKey::List,
            _ => ChildKey::Deque,
        };
        let pairs: Vec<(Data, Data)> = scan_direct_children(db, prefix, kind)?;
        Ok(paired_children(&pairs))
    } else {
        children(db, prefix, shape)
    }
}

/// The deque index `i` places behind `head`.
fn place_from(head: i64, i: u64) -> (r: i64)
    ensures
        r == index_from(head, i),
{
    bits_i64(i64_bits(head).wrapping_add(i))
}

/// The place of the element `i` of a list or deque.
fn step_index<'a>(db: &Db, prefix: &[u8], shape: &'a Shape, i: u64) -> (r: Result<
    Vec<Focus<'a>>,
    Error,
>)
    ensures
        same_foci(r, index_step(db@, prefix@, shape@, i)),
{
    match shape {
        Shape::List { of } => {
            let ix = order_u64(i);
            Ok(one_focus(Focus::Db { prefix: child_key(prefix, &ix), shape: of }))
        },
        Shape::Deque { of } => {
            let head: i64 = deque_first(db, prefix)?;
            let ix = order_i64(place_from(head, i));
            Ok(one_focus(Focus::Db { prefix: child_key(prefix, &ix), shape: of }))
        },
        _ => {
            let mut m: String = "Index on a ".to_owned();
            m.append(shape.kind_name());
            Err(Error::Query(m))
        },
    }
}

fn step_leaf<'a>(floats: &FloatTable, db: &Db, prefix: &[u8], nav: &Nav) -> (r: Result<
    Vec<Focus<'a>>,
    Error,
>)
    ensures
        same_foci(r, leaf_step(floats@, db@, prefix@, nav@)),
{
    let v: Data = read_leaf_or_null(db, prefix)?;
    let vs: Vec<Data> = step_value(floats, &v, nav)?;
    Ok(item_foci(&vs))
}

fn only_places<'a>(cs: Vec<Child<'a>>) -> (r: Vec<Focus<'a>>)
    ensures
        foci_v(r@) == places(children_v(cs@)),
{
    let mut out: Vec<Focus<'a>> = Vec::new();
    let mut i: usize = 0;
    while i < cs.len()
        invariant
            i <= cs@.len(),
            out@.len() == i,
            forall|j: int| 0 <= j < i ==> (#[trigger] out@[j])@ == cs@[j].1@,
        decreases cs@.len() - i,
    {
        out.push(copy_focus(&cs[i].1));
        i = i + 1;
    }
    assert(foci_v(out@) =~= places(children_v(cs@)));
    out
}

fn only_keys<'a>(cs: &Vec<Child<'a>>) -> (r: Vec<Focus<'a>>)
    ensures
        foci_v(r@) == child_keys(children_v(cs@), cs@.len() as int),
{
    let ghost cv = children_v(cs@);
    let mut out: Vec<Focus<'a>> = Vec::new();
    let mut i: usize = 0;
    assert(foci_v(out@) =~= Seq::<FocusV>::empty());
    while i < cs.len()
        invariant
            i <= cs@.len(),
            cv == children_v(cs@),
            foci_v(out@) == child_keys(cv, i as int),
        decreases cs@.len() - i,
    {
        assert(cv[i as int] == child_v(cs@[i as int]));
        if let Some(k) = &cs[i].0 {
            let ghost before = out@;
            let f: Focus<'a> = Focus::Val(copy_data(k));
            out.push(f);
            assert(foci_v(out@) =~= foci_v(before).push(f@));
        }
        i = i + 1;
    }
    out
}

proof fn lemma_entries_err(s: Seq<RowV>, cs: Seq<ChildV>, i: int, n: int)
    requires
        0 <= i <= n <= cs.len(),
        child_entries(s, cs, i) is Err,
    ensures
        child_entries(s, cs, n) == child_entries(s, cs, i),
    decreases n,
{
    if i < n {
        lemma_entries_err(s, cs, i, n - 1);
    }
}

fn key_or_null(k: &Option<Data>) -> (r: Data)
    ensures
        r@ == match k {
            Some(d) => d@,
            None => DataV::Null,
        },
{
    match k {
        Some(d) => copy_data(d),
        None => Data::Null,
    }
}

fn entry_foci<'a>(db: &Db, cs: &Vec<Child<'a>>) -> (r: Result<Vec<Focus<'a>>, Error>)
    ensures
        same_foci(r, child_entries(db@, children_v(cs@), cs@.len() as int)),
{
    let ghost cv = children_v(cs@);
    let mut out: Vec<Focus<'a>> = Vec::new();
    let mut i: usize = 0;
    assert(foci_v(out@) =~= Seq::<FocusV>::empty());
    while i < cs.len()
        invariant
            i <= cs@.len(),
            cv == children_v(cs@),
            child_entries(db@, cv, i as int) == Ok::<Seq<FocusV>, ErrorV>(foci_v(out@)),
        decreases cs@.len() - i,
    {
        assert(cv[i as int] == child_v(cs@[i as int]));
        match materialize_focus(db, &cs[i].1) {
            Err(e) => {
                proof {
                    lemma_entries_err(db@, cv, i + 1, cv.len() as int);
                }
                return Err(e);
            },
            Ok(v) => {
                let k: Data = key_or_null(&cs[i].0);
                let ghost before = out@;
                let f: Focus<'a> = Focus::Val(array2(k, v));
                out.push(f);
                proof {
                    assert(key_of(cv[i as int]) == k@);
                    assert(foci_v(out@) =~= foci_v(before).push(f@));
                }
            },
        }
        i = i + 1;
    }
    Ok(out)
}

fn place_range<'a>(v: &Vec<Focus<'a>>, from: usize, to: usize) -> (r: Vec<Focus<'a>>)
    requires
        from <= to <= v@.len(),
    ensures
        foci_v(r@) == foci_v(v@).subrange(from as int, to as int),
{
    let mut out: Vec<Focus<'a>> = Vec::new();
    let mut i: usize = from;
    while i < to
        invariant
            from <= i <= to <= v@.len(),
            out@.len() == i - from,
            forall|j: int| 0 <= j < i - from ==> (#[trigger] out@[j])@ == v@[from + j]@,
        decreases to - i,
    {
        out.push(copy_focus(&v[i]));
        i = i + 1;
    }
    assert(foci_v(out@) =~= foci_v(v@).subrange(from as int, to as int));
    out
}

/// The places that a step leads to from the location at `prefix`.
pub fn step_db<'a>(
    floats: &FloatTable,
    db: &Db,
    prefix: &[u8],
    shape: &'a Shape,
    nav: &Nav,
) -> (r: Result<Vec<Focus<'a>>, Error>)
    ensures
        same_foci(r, db_step(floats@, db@, prefix@, shape@, nav@)),
    decreases nav, 0int,
{
    match nav {
        Nav::Field(name) => match shape {
            Shape::Leaf => step_leaf(floats, db, prefix, nav),
            Shape::Record { .. } => {
                let (id, next) = shape.field(name.as_str())?;
                let seg: Vec<u8> = field_segment(id);
                Ok(
                    one_focus(
                        Focus::Db { prefix: child_key(prefix, seg.as_slice()), shape: next },
                    ),
                )
            },
            Shape::Dict { of } => {
                let seg: Vec<u8> = encode(&Data::Text(name.clone()));
                Ok(
                    one_focus(Focus::Db { prefix: child_key(prefix, seg.as_slice()), shape: of }),
                )
            },
            _ => {
                let mut m: String = "field ".to_owned();
                m.append(debug_text(name.as_str()).as_str());
                m.append(" on a ");
                m.append(shape.kind_name());
                Err(Error::Query(m))
            },
        },
        Nav::Key(k) => match shape {
            Shape::Leaf => step_leaf(floats, db, prefix, nav),
            Shape::Dict { of } => {
                let seg: Vec<u8> = encode(k);
                Ok(
                    one_focus(Focus::Db { prefix: child_key(prefix, seg.as_slice()), shape: of }),
                )
            },
            Shape::Record { .. } | Shape::Sum => {
                let mut m: String = "Key on a ".to_owned();
                m.append(shape.kind_name());
                Err(Error::Query(m))
            },
            _ => match k {
                Data::UInt(i) => step_index(db, prefix, shape, *i),
                _ => query_error("integer Key on List/Deque required; use Index"),
            },
        },
        Nav::Index(i) => match shape {
            Shape::Leaf => step_leaf(floats, db, prefix, nav),
            _ => step_index(db, prefix, shape, *i),
        },
        _ => {
            let cs: Vec<Child<'a>> = collection_foci(db, prefix, shape)?;
            let ghost cv = children_v(cs@);
            let n: usize = cs.len();
            match nav {
                Nav::Keys => Ok(only_keys(&cs)),
                Nav::Entries => entry_foci(db, &cs),
                Nav::Where(p) => {
                    let fs: Vec<Focus<'a>> = only_places(cs);
                    filter_foci(floats, db, &fs, p)
                },
                Nav::First => {
                    if n > 0 {
                        assert(cv[0] == child_v(cs@[0]));
                        Ok(one_focus(copy_focus(&cs[0].1)))
                    } else {
                        let out: Vec<Focus<'a>> = Vec::new();
                        assert(foci_v(out@) =~= Seq::<FocusV>::empty());
                        Ok(out)
                    }
                },
                Nav::Last => {
                    if n > 0 {
                        assert(cv[n - 1] == child_v(cs@[n - 1]));
                        Ok(one_focus(copy_focus(&cs[n - 1].1)))
                    } else {
                        let out: Vec<Focus<'a>> = Vec::new();
                        assert(foci_v(out@) =~= Seq::<FocusV>::empty());
                        Ok(out)
                    }
                },
                Nav::Slice { start, end } => {
                    let fs: Vec<Focus<'a>> = only_places(cs);
                    assert(fs@.len() == foci_v(fs@).len());
                    let (from, to) = slice_bounds(start, end, n);
                    Ok(place_range(&fs, from, to))
                },
                _ => Ok(only_places(cs)),
            }
        },
    }
}

proof fn lemma_db_filter_err(
    f: Seq<FactV>,
    s: Seq<RowV>,
    foci: Seq<FocusV>,
    p: PredicateV,
    i: int,
    n: int,
)
    requires
        0 <= i <= n <= foci.len(),
        db_filter(f, s, foci, p, i) is Err,
    ensures
        db_filter(f, s, foci, p, n) == db_filter(f, s, foci, p, i),
    decreases n,
{
    if i < n {
        lemma_db_filter_err(f, s, foci, p, i, n - 1);
    }
}

fn filter_foci<'a>(floats: &FloatTable, db: &Db, fs: &Vec<Focus<'a>>, p: &Predicate) -> (r: Result<
    Vec<Focus<'a>>,
    Error,
>)
    ensures
        same_foci(r, db_filter(floats@, db@, foci_v(fs@), p@, fs@.len() as int)),
    decreases p, 2int,
{
    let ghost fv = foci_v(fs@);
    let mut out: Vec<Focus<'a>> = Vec::new();
    let mut i: usize = 0;
    assert(foci_v(out@) =~= Seq::<FocusV>::empty());
    while i < fs.len()
        invariant
            i <= fs@.len(),
            fv == foci_v(fs@),
            db_filter(floats@, db@, fv, p@, i as int) == Ok::<Seq<FocusV>, ErrorV>(foci_v(out@)),
        decreases fs@.len() - i,
    {
        assert(fv[i as int] == fs@[i as int]@);
        match eval_pred(floats, db, &fs[i], p) {
            Err(e) => {
                proof {
                    lemma_db_filter_err(floats@, db@, fv, p@, i + 1, fv.len() as int);
                }
                return Err(e);
            },
            Ok(b) => {
                if b {
                    let ghost before = out@;
                    let f: Focus<'a> = copy_focus(&fs[i]);
                    out.push(f);
                    assert(foci_v(out@) =~= foci_v(before).push(f@));
                }
            },
        }
        i = i + 1;
    }
    Ok(out)
}

/// The places that a step leads to.
pub fn step<'a>(floats: &FloatTable, db: &Db, focus: &Focus<'a>, nav: &Nav) -> (r: Result<
    Vec<Focus<'a>>,
    Error,
>)
    ensures
        same_foci(r, focus_step(floats@, db@, focus@, nav@)),
    decreases nav, 1int,
{
    match focus {
        Focus::Val(v) => {
            let vs: Vec<Data> = step_value(floats, v, nav)?;
            Ok(item_foci(&vs))
        },
        Focus::Db { prefix, shape } => step_db(floats, db, prefix.as_slice(), *shape, nav),
    }
}

proof fn lemma_focus_spread_err(
    f: Seq<FactV>,
    s: Seq<RowV>,
    foci: Seq<FocusV>,
    nav: NavV,
    i: int,
    n: int,
)
    requires
        0 <= i <= n <= foci.len(),
        focus_spread(f, s, foci, nav, i) is Err,
    ensures
        focus_spread(f, s, foci, nav, n) == focus_spread(f, s, foci, nav, i),
    decreases n,
{
    if i < n {
        lemma_focus_spread_err(f, s, foci, nav, i, n - 1);
    }
}

proof fn lemma_focus_steps_err(
    f: Seq<FactV>,
    s: Seq<RowV>,
    foci: Seq<FocusV>,
    ns: Seq<NavV>,
    i: int,
    n: int,
)
    requires
        0 <= i <= n <= ns.len(),
        focus_steps(f, s, foci, ns, i) is Err,
    ensures
        focus_steps(f, s, foci, ns, n) == focus_steps(f, s, foci, ns, i),
    decreases n,
{
    if i < n {
        lemma_focus_steps_err(f, s, foci, ns, i, n - 1);
    }
}

fn spread_foci<'a>(floats: &FloatTable, db: &Db, fs: &Vec<Focus<'a>>, nav: &Nav) -> (r: Result<
    Vec<Focus<'a>>,
    Error,
>)
    ensures
        same_foci(r, focus_spread(floats@, db@, foci_v(fs@), nav@, fs@.len() as int)),
    decreases nav, 2int,
{
    let ghost fv = foci_v(fs@);
    let mut out: Vec<Focus<'a>> = Vec::new();
    let mut i: usize = 0;
    assert(foci_v(out@) =~= Seq::<FocusV>::empty());
    while i < fs.len()
        invariant
            i <= fs@.len(),
            fv == foci_v(fs@),
            focus_spread(floats@, db@, fv, nav@, i as int) == Ok::<Seq<FocusV>, ErrorV>(
                foci_v(out@),
            ),
        decreases fs@.len() - i,
    {
        assert(fv[i as int] == fs@[i as int]@);
        match step(floats, db, &fs[i], nav) {
            Err(e) => {
                proof {
                    lemma_focus_spread_err(floats@, db@, fv, nav@, i + 1, fv.len() as int);
                }
                return Err(e);
            },
            Ok(mut more) => {
                let ghost before = out@;
                let ghost mv = more@;
                out.append(&mut more);
                assert(foci_v(out@) =~= foci_v(before) + foci_v(mv));
            },
        }
        i = i + 1;
    }
    Ok(out)
}

/// The places that the steps lead to from `start`.
fn walk<'a>(floats: &FloatTable, db: &Db, start: Focus<'a>, ns: &Vec<Nav>) -> (r: Result<
    Vec<Focus<'a>>,
    Error,
>)
    ensures
        same_foci(
            r,
            focus_steps(floats@, db@, seq![start@], navs_v(*ns), navs_v(*ns).len() as int),
        ),
    decreases ns, 3int,
{
    let ghost nv = navs_v(*ns);
    let ghost sv = seq![start@];
    proof {
        lemma_navs(*ns);
    }
    let mut cur: Vec<Focus<'a>> = one_focus(start);
    let mut i: usize = 0;
    while i < ns.len()
        invariant
            i <= ns@.len(),
            nv == navs_v(*ns),
            sv == seq![start@],
            nv.len() == ns@.len(),
            forall|j: int| 0 <= j < ns@.len() ==> #[trigger] nv[j] == ns@[j]@,
            focus_steps(floats@, db@, sv, nv, i as int) == Ok::<Seq<FocusV>, ErrorV>(
                foci_v(cur@),
            ),
        decreases ns@.len() - i,
    {
        let ghost x = nv[i as int];
        match spread_foci(floats, db, &cur, &ns[i]) {
            Err(e) => {
                proof {
                    lemma_focus_steps_err(floats@, db@, sv, nv, i + 1, nv.len() as int);
                }
                return Err(e);
            },
            Ok(next) => {
                cur = next;
            },
        }
        i = i + 1;
    }
    Ok(cur)
}

fn any_present(db: &Db, fs: &Vec<Focus<'_>>) -> (r: bool)
    ensures
        r == exists|i: int| 0 <= i < fs@.len() && present(db@, #[trigger] foci_v(fs@)[i]),
{
    let ghost fv = foci_v(fs@);
    let mut i: usize = 0;
    while i < fs.len()
        invariant
            i <= fs@.len(),
            fv == foci_v(fs@),
            forall|j: int| 0 <= j < i ==> !present(db@, #[trigger] fv[j]),
        decreases fs@.len() - i,
    {
        assert(fv[i as int] == fs@[i as int]@);
        match materialize_focus(db, &fs[i]) {
            Err(_) => {},
            Ok(Data::Null) => {},
            Ok(_) => {
                assert(present(db@, fv[i as int]));
                return true;
            },
        }
        i = i + 1;
    }
    false
}

/// The predicate holds at the place.
pub fn eval_pred(floats: &FloatTable, db: &Db, focus: &Focus<'_>, p: &Predicate) -> (r: Result<
    bool,
    Error,
>)
    ensures
        same_bool(r, db_pred(floats@, db@, focus@, p@)),
    decreases p, 0int,
{
    match p {
        Predicate::Compare(r, a, b) => {
            let x: Data = eval_expr(floats, db, focus, a)?;
            let y: Data = eval_expr(floats, db, focus, b)?;
            test_relation(floats, *r, &x, &y)
        },
        Predicate::And(ps) => {
            proof {
                lemma_preds(*ps);
            }
            all_hold(floats, db, focus, ps)
        },
        Predicate::Or(ps) => {
            proof {
                lemma_preds(*ps);
            }
            any_holds(floats, db, focus, ps)
        },
        Predicate::Not(q) => {
            let b: bool = eval_pred(floats, db, focus, q)?;
            Ok(!b)
        },
        Predicate::Exists(ns) => {
            proof {
                lemma_navs(*ns);
            }
            let fs: Vec<Focus<'_>> = walk(floats, db, copy_focus(focus), ns)?;
            let b: bool = any_present(db, &fs);
            Ok(b)
        },
    }
}

fn all_hold(floats: &FloatTable, db: &Db, focus: &Focus<'_>, ps: &Vec<Predicate>) -> (r: Result<
    bool,
    Error,
>)
    ensures
        same_bool(r, db_all(floats@, db@, focus@, preds_v(*ps), 0)),
    decreases ps, 1int,
{
    let ghost pv = preds_v(*ps);
    proof {
        lemma_preds(*ps);
    }
    let mut i: usize = 0;
    while i < ps.len()
        invariant
            i <= ps@.len(),
            pv == preds_v(*ps),
            pv.len() == ps@.len(),
            forall|j: int| 0 <= j < ps@.len() ==> #[trigger] pv[j] == ps@[j]@,
            db_all(floats@, db@, focus@, pv, 0) == db_all(floats@, db@, focus@, pv, i as int),
        decreases ps@.len() - i,
    {
        let ghost x = pv[i as int];
        let b: bool = eval_pred(floats, db, focus, &ps[i])?;
        if !b {
            return Ok(false);
        }
        i = i + 1;
    }
    Ok(true)
}

fn any_holds(floats: &FloatTable, db: &Db, focus: &Focus<'_>, ps: &Vec<Predicate>) -> (r: Result<
    bool,
    Error,
>)
    ensures
        same_bool(r, db_any(floats@, db@, focus@, preds_v(*ps), 0)),
    decreases ps, 1int,
{
    let ghost pv = preds_v(*ps);
    proof {
        lemma_preds(*ps);
    }
    let mut i: usize = 0;
    while i < ps.len()
        invariant
            i <= ps@.len(),
            pv == preds_v(*ps),
            pv.len() == ps@.len(),
            forall|j: int| 0 <= j < ps@.len() ==> #[trigger] pv[j] == ps@[j]@,
            db_any(floats@, db@, focus@, pv, 0) == db_any(floats@, db@, focus@, pv, i as int),
        decreases ps@.len() - i,
    {
        let ghost x = pv[i as int];
        let b: bool = eval_pred(floats, db, focus, &ps[i])?;
        if b {
            return Ok(true);
        }
        i = i + 1;
    }
    Ok(false)
}

proof fn lemma_all_focused_err(s: Seq<RowV>, foci: Seq<FocusV>, i: int, n: int)
    requires
        0 <= i <= n <= foci.len(),
        all_focused(s, foci, i) is Err,
    ensures
        all_focused(s, foci, n) == all_focused(s, foci, i),
    decreases n,
{
    if i < n {
        lemma_all_focused_err(s, foci, i, n - 1);
    }
}

pub(crate) fn all_items(db: &Db, fs: &Vec<Focus<'_>>) -> (r: Result<Vec<Data>, Error>)
    ensures
        same_list(r, all_focused(db@, foci_v(fs@), fs@.len() as int)),
{
    let ghost fv = foci_v(fs@);
    let mut out: Vec<Data> = Vec::new();
    let mut i: usize = 0;
    proof {
        lemma_items(out);
        assert(items_v(out) =~= Seq::<DataV>::empty());
    }
    while i < fs.len()
        invariant
            i <= fs@.len(),
            fv == foci_v(fs@),
            all_focused(db@, fv, i as int) == Ok::<Seq<DataV>, ErrorV>(items_v(out)),
        decreases fs@.len() - i,
    {
        assert(fv[i as int] == fs@[i as int]@);
        match materialize_focus(db, &fs[i]) {
            Err(e) => {
                proof {
                    lemma_all_focused_err(db@, fv, i + 1, fv.len() as int);
                }
                return Err(e);
            },
            Ok(v) => {
                let ghost before = out;
                out.push(v);
                proof {
                    lemma_items_push(before, out, v);
                }
            },
        }
        i = i + 1;
    }
    Ok(out)
}

/// The field `name` of the place.
fn field_at(db: &Db, focus: &Focus<'_>, name: &str) -> (r: Result<Data, Error>)
    ensures
        same_data(r, field_item(db@, focus@, name@)),
{
    match focus {
        Focus::Val(v) => Ok(field_get(v, name)),
        Focus::Db { prefix, shape } => match *shape {
            Shape::Leaf => {
                let v: Data = read_leaf_or_null(db, prefix.as_slice())?;
                Ok(field_get(&v, name))
            },
            Shape::Record { .. } => {
                let (id, next) = shape.field(name)?;
                let seg: Vec<u8> = field_segment(id);
                materialize(db, child_key(prefix.as_slice(), seg.as_slice()).as_slice(), next)
            },
            Shape::Dict { of } => {
                let seg: Vec<u8> = encode(&Data::Text(name.to_owned()));
                materialize(db, child_key(prefix.as_slice(), seg.as_slice()).as_slice(), of)
            },
            _ => Ok(Data::Null),
        },
    }
}

/// The expression's value at the place.
pub fn eval_expr(floats: &FloatTable, db: &Db, focus: &Focus<'_>, e: &Expr) -> (r: Result<
    Data,
    Error,
>)
    ensures
        same_data(r, db_expr(floats@, db@, focus@, e@)),
    decreases e, 0int,
{
    match e {
        Expr::Lit(d) => Ok(copy_data(d)),
        Expr::Field(name) => field_at(db, focus, name.as_str()),
        Expr::Path(ns) => {
            proof {
                lemma_navs(*ns);
            }
            let fs: Vec<Focus<'_>> = walk(floats, db, copy_focus(focus), ns)?;
            if fs.len() == 0 {
                Ok(Data::Null)
            } else if fs.len() == 1 {
                assert(foci_v(fs@)[0] == fs@[0]@);
                materialize_focus(db, &fs[0])
            } else {
                let vs: Vec<Data> = all_items(db, &fs)?;
                Ok(array_of(vs))
            }
        },
    }
}

/// The place that a query starts at.
fn root_focus<'a>(schema: &'a Shape, query: &Query) -> (r: Focus<'a>)
    ensures
        r@ == root_of(schema@, query@),
{
    let mut prefix: Vec<u8> = Vec::new();
    if let Some(ns) = &query.namespace {
        put_segment(&mut prefix, ns.as_str().as_bytes());
    }
    assert(prefix@ =~= root_of(schema@, query@)->prefix);
    Focus::Db { prefix, shape: schema }
}

/// The places that a query leads to.
pub fn collect_foci<'a>(floats: &FloatTable, db: &Db, schema: &'a Shape, query: &Query) -> (r: Result<
    Vec<Focus<'a>>,
    Error,
>)
    ensures
        same_foci(r, found(floats@, db@, schema@, query@)),
{
    proof {
        lemma_navs(query.navs);
    }
    walk(floats, db, root_focus(schema, query), &query.navs)
}

} // verus!
