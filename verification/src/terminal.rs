//! How the places that a query leads to are collected.

use crate::data::{copy_pairs, lemma_pairs, lemma_pairs_push, pairs_v, Data, DataV};
use crate::db::{Db, RowV};
use crate::error::{query_error, Error, ErrorV};
use crate::float::{FactV, FloatTable};
use crate::focus::{all_items, collect_foci, foci_v, materialize_focus, Focus};
use crate::nav::{query_collects, Query, QueryV};
use crate::query::{array_of, dict_of, map_entries, same_data, same_list, same_pairs};
use crate::reading::{all_focused, focused, found, map_pairs, FocusV};
use crate::shape::{Shape, ShapeV};
use crate::text::{dec, dec_u64};
use vstd::prelude::*;
use vstd::string::*;

verus! {

/// How a query is collected: a path does not say it by itself.
#[derive(Clone, Copy, Debug, PartialEq, Eq, Structural)]
pub enum Terminal {
    One,
    Select,
    Subtree,
    Entries,
}

/// The item at the one place of a point query; none where it is null.
pub open spec fn one_of(f: Seq<FactV>, s: Seq<RowV>, schema: ShapeV, q: QueryV) -> Result<
    Option<DataV>,
    ErrorV,
> {
    if query_collects(q) {
        Err(
            ErrorV::Query("one() requires a point path; use select() for All/Where/Slice"@),
        )
    } else {
        match found(f, s, schema, q) {
            Err(e) => Err(e),
            Ok(fs) => if fs.len() == 0 {
                Ok(None)
            } else if fs.len() == 1 {
                match focused(s, fs[0]) {
                    Err(e) => Err(e),
                    Ok(v) => if v is Null {
                        Ok(None)
                    } else {
                        Ok(Some(v))
                    },
                }
            } else {
                Err(ErrorV::Query("one() matched "@ + dec(fs.len()) + " locations"@))
            },
        }
    }
}

/// The items at all places of a query.
pub open spec fn selected(f: Seq<FactV>, s: Seq<RowV>, schema: ShapeV, q: QueryV) -> Result<
    Seq<DataV>,
    ErrorV,
> {
    match found(f, s, schema, q) {
        Err(e) => Err(e),
        Ok(fs) => all_focused(s, fs, fs.len() as int),
    }
}

/// The nested item at the one place of a point query.
pub open spec fn subtree_of(f: Seq<FactV>, s: Seq<RowV>, schema: ShapeV, q: QueryV) -> Result<
    DataV,
    ErrorV,
> {
    if query_collects(q) {
        Err(
            ErrorV::Query("subtree() requires a point path; use select() for collections"@),
        )
    } else {
        match found(f, s, schema, q) {
            Err(e) => Err(e),
            Ok(fs) => if fs.len() == 0 {
                Ok(DataV::Null)
            } else if fs.len() == 1 {
                focused(s, fs[0])
            } else {
                Err(ErrorV::Query("subtree() matched "@ + dec(fs.len()) + " locations"@))
            },
        }
    }
}

/// The pairs of the map at the one place of a point query.
pub open spec fn entries_of(f: Seq<FactV>, s: Seq<RowV>, schema: ShapeV, q: QueryV) -> Result<
    Seq<(DataV, DataV)>,
    ErrorV,
> {
    if query_collects(q) {
        Err(ErrorV::Query("entries() requires a point path to a Map"@))
    } else {
        match found(f, s, schema, q) {
            Err(e) => Err(e),
            Ok(fs) => if fs.len() != 1 {
                Err(ErrorV::Query("entries() requires exactly one map"@))
            } else {
                match fs[0] {
                    FocusV::Db { prefix, shape } => match shape {
                        ShapeV::Dict { of } => map_pairs(s, prefix, *of),
                        _ => Err(ErrorV::Query("entries() requires a Map"@)),
                    },
                    FocusV::Val(v) => match v {
                        DataV::Dict(ps) => Ok(ps),
                        _ => Err(ErrorV::Query("entries() requires a Map"@)),
                    },
                }
            },
        }
    }
}

/// The item that a query stands for in a projection.
pub open spec fn projected_item(f: Seq<FactV>, s: Seq<RowV>, schema: ShapeV, q: QueryV) -> Result<
    DataV,
    ErrorV,
> {
    if query_collects(q) {
        match selected(f, s, schema, q) {
            Err(e) => Err(e),
            Ok(vs) => Ok(DataV::Array(vs)),
        }
    } else {
        subtree_of(f, s, schema, q)
    }
}

/// The first `n` named queries with what they read.
pub open spec fn projected(
    f: Seq<FactV>,
    s: Seq<RowV>,
    schema: ShapeV,
    qs: Seq<(Seq<char>, QueryV)>,
    n: int,
) -> Result<Seq<(DataV, DataV)>, ErrorV>
    decreases n,
{
    if n <= 0 || n > qs.len() {
        Ok(Seq::empty())
    } else {
        match projected(f, s, schema, qs, n - 1) {
            Err(e) => Err(e),
            Ok(ps) => match projected_item(f, s, schema, qs[n - 1].1) {
                Err(e) => Err(e),
                Ok(v) => Ok(ps.push((DataV::Text(qs[n - 1].0), v))),
            },
        }
    }
}

/// The named queries of a list.
pub open spec fn named_v(s: Seq<(String, Query)>) -> Seq<(Seq<char>, QueryV)> {
    Seq::new(s.len(), |i: int| (s[i].0@, s[i].1@))
}

fn matched_error(name: &str, n: usize) -> (r: Error)
    ensures
        r@ == ErrorV::Query(name@ + " matched "@ + dec(n as nat) + " locations"@),
{
    let mut m: String = name.to_owned();
    m.append(" matched ");
    m.append(dec_u64(n as u64).as_str());
    m.append(" locations");
    Error::Query(m)
}

/// The item at the one place that a point query leads to.
pub fn one(floats: &FloatTable, db: &Db, schema: &Shape, query: &Query) -> (r: Result<
    Option<Data>,
    Error,
>)
    ensures
        match (r, one_of(floats@, db@, schema@, query@)) {
            (Ok(None), Ok(None)) => true,
            (Ok(Some(d)), Ok(Some(v))) => d@ == v,
            (Err(e), Err(w)) => e@ == w,
            _ => false,
        },
{
    if query.is_collecting() {
        return query_error("one() requires a point path; use select() for All/Where/Slice");
    }
    let fs: Vec<Focus<'_>> = collect_foci(floats, db, schema, query)?;
    if fs.len() == 0 {
        Ok(None)
    } else if fs.len() == 1 {
        assert(foci_v(fs@)[0] == fs@[0]@);
        match materialize_focus(db, &fs[0])? {
            Data::Null => Ok(None),
            v => Ok(Some(v)),
        }
    } else {
        proof {
            reveal_strlit("one() matched ");
            reveal_strlit("one()");
            reveal_strlit(" matched ");
            assert("one() matched "@ =~= "one()"@ + " matched "@);
        }
        Err(matched_error("one()", fs.len()))
    }
}

/// The items at all places that a query leads to.
pub fn select(floats: &FloatTable, db: &Db, schema: &Shape, query: &Query) -> (r: Result<
    Vec<Data>,
    Error,
>)
    ensures
        same_list(r, selected(floats@, db@, schema@, query@)),
{
    let fs: Vec<Focus<'_>> = collect_foci(floats, db, schema, query)?;
    all_items(db, &fs)
}

/// The nested item at the one place that a point query leads to.
pub fn subtree(floats: &FloatTable, db: &Db, schema: &Shape, query: &Query) -> (r: Result<
    Data,
    Error,
>)
    ensures
        same_data(r, subtree_of(floats@, db@, schema@, query@)),
{
    if query.is_collecting() {
        return query_error("subtree() requires a point path; use select() for collections");
    }
    let fs: Vec<Focus<'_>> = collect_foci(floats, db, schema, query)?;
    if fs.len() == 0 {
        Ok(Data::Null)
    } else if fs.len() == 1 {
        assert(foci_v(fs@)[0] == fs@[0]@);
        materialize_focus(db, &fs[0])
    } else {
        proof {
            reveal_strlit("subtree() matched ");
            reveal_strlit("subtree()");
            reveal_strlit(" matched ");
            assert("subtree() matched "@ =~= "subtree()"@ + " matched "@);
        }
        Err(matched_error("subtree()", fs.len()))
    }
}

/// The pairs of the map at the one place that a point query leads to.
pub fn entries(floats: &FloatTable, db: &Db, schema: &Shape, query: &Query) -> (r: Result<
    Vec<(Data, Data)>,
    Error,
>)
    ensures
        same_pairs(r, entries_of(floats@, db@, schema@, query@)),
{
    if query.is_collecting() {
        return query_error("entries() requires a point path to a Map");
    }
    let fs: Vec<Focus<'_>> = collect_foci(floats, db, schema, query)?;
    if fs.len() != 1 {
        return query_error("entries() requires exactly one map");
    }
    assert(foci_v(fs@)[0] == fs@[0]@);
    match &fs[0] {
        Focus::Db { prefix, shape } => match *shape {
            Shape::Dict { of } => map_entries(db, prefix.as_slice(), of),
            _ => query_error("entries() requires a Map"),
        },
        Focus::Val(v) => match v {
            Data::Dict(ps) => {
                proof {
                    lemma_pairs(*ps);
                }
                Ok(copy_pairs(ps))
            },
            _ => query_error("entries() requires a Map"),
        },
    }
}

fn project_item(floats: &FloatTable, db: &Db, schema: &Shape, query: &Query) -> (r: Result<
    Data,
    Error,
>)
    ensures
        same_data(r, projected_item(floats@, db@, schema@, query@)),
{
    if query.is_collecting() {
        let vs: Vec<Data> = select(floats, db, schema, query)?;
        Ok(array_of(vs))
    } else {
        subtree(floats, db, schema, query)
    }
}

proof fn lemma_projected_err(
    f: Seq<FactV>,
    s: Seq<RowV>,
    schema: ShapeV,
    qs: Seq<(Seq<char>, QueryV)>,
    i: int,
    n: int,
)
    requires
        0 <= i <= n <= qs.len(),
        projected(f, s, schema, qs, i) is Err,
    ensures
        projected(f, s, schema, qs, n) == projected(f, s, schema, qs, i),
    decreases n,
{
    if i < n {
        lemma_projected_err(f, s, schema, qs, i, n - 1);
    }
}

/// Many named queries read at once, as one map from the names to what they
/// read.
pub fn project(floats: &FloatTable, db: &Db, schema: &Shape, spec: &Vec<(String, Query)>) -> (r:
    Result<Data, Error>)
    ensures
        match (r, projected(floats@, db@, schema@, named_v(spec@), spec@.len() as int)) {
            (Ok(d), Ok(ps)) => d@ == DataV::Dict(ps),
            (Err(e), Err(w)) => e@ == w,
            _ => false,
        },
{
    let ghost qs = named_v(spec@);
    let mut out: Vec<(Data, Data)> = Vec::new();
    let mut i: usize = 0;
    proof {
        lemma_pairs(out);
        assert(pairs_v(out) =~= Seq::<(DataV, DataV)>::empty());
    }
    while i < spec.len()
        invariant
            i <= spec@.len(),
            qs == named_v(spec@),
            projected(floats@, db@, schema@, qs, i as int) == Ok::<Seq<(DataV, DataV)>, ErrorV>(
                pairs_v(out),
            ),
        decreases spec@.len() - i,
    {
        assert(qs[i as int] == (spec@[i as int].0@, spec@[i as int].1@));
        match project_item(floats, db, schema, &spec[i].1) {
            Err(e) => {
                proof {
                    lemma_projected_err(floats@, db@, schema@, qs, i + 1, qs.len() as int);
                }
                return Err(e);
            },
            Ok(v) => {
                let ghost before = out;
                let k: Data = Data::Text(spec[i].0.clone());
                out.push((k, v));
                proof {
                    lemma_pairs_push(before, out, k, v);
                }
            },
        }
        i = i + 1;
    }
    Ok(dict_of(out))
}

} // verus!
