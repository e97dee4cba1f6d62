//! What queries read: the rows as nested data, and the places that navigation
//! steps lead to.

use crate::bytes::from_be;
use crate::codec::{child_of, segment, segment_at, uvarint};
use crate::data::{cbor_bytes, cbor_read, int_of, DataV};
use crate::db::{lookup, RowV};
use crate::error::ErrorV;
use crate::float::{of_int, FactV};
use crate::nav::{ExprV, NavV, PredicateV, QueryV, Relation};
use crate::op::{deque_head, deque_tail, list_len};
use crate::path::{child_rows, deque_key, keys_at, leaf_at, list_key};
use crate::schema::{signed, sum_of, twos};
use crate::shape::{field_in, kind_name_of, ShapeV};
use crate::text::debug_of_text;
use crate::value::{float_key, is_nan, rel_int, rel_text, AskV, Rel};
use vstd::prelude::*;
use vstd::utf8::encode_utf8;

verus! {

/// The item at the leaf `k`; null where there is none.
pub open spec fn leaf_or_null(s: Seq<RowV>, k: Seq<u8>) -> Result<DataV, ErrorV> {
    match leaf_at(s, k) {
        Ok(Some(d)) => Ok(d),
        Ok(None) => Ok(DataV::Null),
        Err(e) => Err(e),
    }
}

/// The accumulator at `k` as an item, whatever its kind.
pub open spec fn sum_item(s: Seq<RowV>, k: Seq<u8>) -> Result<DataV, ErrorV> {
    match lookup(s, k) {
        None => Ok(DataV::UInt(0)),
        Some(b) => match sum_of(b) {
            Some((tag, bits)) => if tag == 1 {
                Ok(crate::data::data_of_int(signed(bits) as int))
            } else if tag == 2 {
                Ok(DataV::UInt(bits))
            } else if tag == 0 {
                Ok(DataV::Float(bits))
            } else {
                Err(ErrorV::Corruption("malformed Sum accumulator"@))
            },
            None => Err(ErrorV::Corruption("malformed Sum accumulator"@)),
        },
    }
}

/// How the key of a child is read.
#[derive(Clone, Copy, Debug, PartialEq, Eq, Structural)]
pub enum ChildKey {
    Dict,
    List,
    Deque,
}

/// The key of the child in segment `seg`, of which `n` came before.
pub open spec fn child_key_of(kind: ChildKey, seg: Seq<u8>, n: nat) -> Result<DataV, ErrorV> {
    match kind {
        ChildKey::Dict => match cbor_read(seg) {
            Ok(d) => Ok(d),
            Err(m) => Err(ErrorV::Deserialize(m)),
        },
        ChildKey::List => if seg.len() == 8 {
            Ok(DataV::UInt(from_be(seg) as u64))
        } else {
            Err(ErrorV::Corruption("malformed list index"@))
        },
        ChildKey::Deque => if seg.len() == 8 {
            Ok(DataV::UInt(n as u64))
        } else {
            Err(ErrorV::Corruption("malformed deque index"@))
        },
    }
}

/// The leaf children among the first `n` rows: key and item. Rows that belong
/// to something deeper are passed over.
pub open spec fn direct_children(rows: Seq<RowV>, skip: int, kind: ChildKey, n: int) -> Result<
    Seq<(DataV, DataV)>,
    ErrorV,
>
    decreases n,
{
    if n <= 0 || n > rows.len() {
        Ok(Seq::empty())
    } else {
        match direct_children(rows, skip, kind, n - 1) {
            Err(e) => Err(e),
            Ok(cs) => {
                let rest = rows[n - 1].0.skip(skip);
                match segment_at(rest) {
                    None => Err(ErrorV::Corruption("malformed collection key"@)),
                    Some((seg, used)) => if used != rest.len() {
                        Ok(cs)
                    } else {
                        match child_key_of(kind, seg, cs.len()) {
                            Err(e) => Err(e),
                            Ok(k) => match cbor_read(rows[n - 1].1) {
                                Err(m) => Err(ErrorV::Deserialize(m)),
                                Ok(v) => Ok(cs.push((k, v))),
                            },
                        }
                    },
                }
            },
        }
    }
}

/// The leaf children of the collection at `prefix`.
pub open spec fn leaf_children(s: Seq<RowV>, prefix: Seq<u8>, kind: ChildKey) -> Result<
    Seq<(DataV, DataV)>,
    ErrorV,
> {
    let rows = child_rows(s, prefix);
    direct_children(rows, prefix.len() as int + 1, kind, rows.len() as int)
}

/// The collection holds leaves.
pub open spec fn holds_leaves(shape: ShapeV) -> bool {
    match shape {
        ShapeV::Dict { of } => *of is Leaf,
        ShapeV::List { of } => *of is Leaf,
        ShapeV::Deque { of } => *of is Leaf,
        _ => false,
    }
}

/// The key of record field `i`.
pub open spec fn field_key(prefix: Seq<u8>, i: int) -> Seq<u8> {
    child_of(prefix, uvarint(i as u32 as nat))
}

/// The key of the map entry `k`.
pub open spec fn entry_key(prefix: Seq<u8>, k: DataV) -> Seq<u8> {
    child_of(prefix, cbor_bytes(k))
}

/// The items of `pairs`.
pub open spec fn seconds(pairs: Seq<(DataV, DataV)>) -> Seq<DataV> {
    pairs.map_values(|p: (DataV, DataV)| p.1)
}

/// The nested item at `prefix`.
pub open spec fn materialized(s: Seq<RowV>, prefix: Seq<u8>, shape: ShapeV) -> Result<DataV, ErrorV>
    decreases shape, 0int, 0int,
{
    match shape {
        ShapeV::Leaf => leaf_or_null(s, prefix),
        ShapeV::Sum => sum_item(s, prefix),
        ShapeV::Dict { of } => match map_pairs(s, prefix, *of) {
            Ok(ps) => Ok(DataV::Dict(ps)),
            Err(e) => Err(e),
        },
        ShapeV::List { of } => if *of is Leaf {
            match leaf_children(s, prefix, ChildKey::List) {
                Ok(ps) => Ok(DataV::Array(seconds(ps))),
                Err(e) => Err(e),
            }
        } else {
            match list_len(s, prefix) {
                Err(e) => Err(e),
                Ok(n) => match list_values(s, prefix, *of, n as int) {
                    Ok(xs) => Ok(DataV::Array(xs)),
                    Err(e) => Err(e),
                },
            }
        },
        ShapeV::Deque { of } => if *of is Leaf {
            match leaf_children(s, prefix, ChildKey::Deque) {
                Ok(ps) => Ok(DataV::Array(seconds(ps))),
                Err(e) => Err(e),
            }
        } else {
            match deque_head(s, prefix) {
                Err(e) => Err(e),
                Ok(h) => match deque_tail(s, prefix) {
                    Err(e) => Err(e),
                    Ok(t) => match deque_values(s, prefix, *of, h as int, t - h) {
                        Ok(xs) => Ok(DataV::Array(xs)),
                        Err(e) => Err(e),
                    },
                },
            }
        },
        ShapeV::Record { fields } => match record_pairs(s, prefix, fields, fields.len() as int) {
            Ok(ps) => Ok(DataV::Dict(ps)),
            Err(e) => Err(e),
        },
    }
}

/// The pairs of the map at `prefix` whose values are of shape `of`.
pub open spec fn map_pairs(s: Seq<RowV>, prefix: Seq<u8>, of: ShapeV) -> Result<
    Seq<(DataV, DataV)>,
    ErrorV,
>
    decreases of, 2int, 0int,
{
    if of is Leaf {
        leaf_children(s, prefix, ChildKey::Dict)
    } else {
        match keys_at(s, prefix) {
            Err(e) => Err(e),
            Ok(ks) => keyed_values(s, prefix, of, ks, ks.len() as int),
        }
    }
}

/// The first `n` keys with their values.
pub open spec fn keyed_values(
    s: Seq<RowV>,
    prefix: Seq<u8>,
    of: ShapeV,
    ks: Seq<DataV>,
    n: int,
) -> Result<Seq<(DataV, DataV)>, ErrorV>
    decreases of, 1int, n,
{
    if n <= 0 || n > ks.len() {
        Ok(Seq::empty())
    } else {
        match keyed_values(s, prefix, of, ks, n - 1) {
            Err(e) => Err(e),
            Ok(ps) => match materialized(s, entry_key(prefix, ks[n - 1]), of) {
                Err(e) => Err(e),
                Ok(v) => Ok(ps.push((ks[n - 1], v))),
            },
        }
    }
}

/// The first `n` elements of the list at `prefix`.
pub open spec fn list_values(s: Seq<RowV>, prefix: Seq<u8>, of: ShapeV, n: int) -> Result<
    Seq<DataV>,
    ErrorV,
>
    decreases of, 1int, n,
{
    if n <= 0 {
        Ok(Seq::empty())
    } else {
        match list_values(s, prefix, of, n - 1) {
            Err(e) => Err(e),
            Ok(xs) => match materialized(s, list_key(prefix, n - 1), of) {
                Err(e) => Err(e),
                Ok(v) => Ok(xs.push(v)),
            },
        }
    }
}

/// The first `n` elements of the deque at `prefix` that begins at index `h`.
pub open spec fn deque_values(s: Seq<RowV>, prefix: Seq<u8>, of: ShapeV, h: int, n: int) -> Result<
    Seq<DataV>,
    ErrorV,
>
    decreases of, 1int, n,
{
    if n <= 0 {
        Ok(Seq::empty())
    } else {
        match deque_values(s, prefix, of, h, n - 1) {
            Err(e) => Err(e),
            Ok(xs) => match materialized(s, deque_key(prefix, h + n - 1), of) {
                Err(e) => Err(e),
                Ok(v) => Ok(xs.push(v)),
            },
        }
    }
}

/// The first `n` fields of the record at `prefix`.
pub open spec fn record_pairs(
    s: Seq<RowV>,
    prefix: Seq<u8>,
    fields: Seq<(Seq<char>, ShapeV)>,
    n: int,
) -> Result<Seq<(DataV, DataV)>, ErrorV>
    decreases fields, 1int, n,
{
    if n <= 0 || n > fields.len() {
        Ok(Seq::empty())
    } else {
        match record_pairs(s, prefix, fields, n - 1) {
            Err(e) => Err(e),
            Ok(ps) => match materialized(s, field_key(prefix, n - 1), fields[n - 1].1) {
                Err(e) => Err(e),
                Ok(v) => Ok(ps.push((DataV::Text(fields[n - 1].0), v))),
            },
        }
    }
}

/// A place in focus: a location of the store, or an item.
pub enum FocusV {
    Db { prefix: Seq<u8>, shape: ShapeV },
    Val(DataV),
}

/// The nested item at a place.
pub open spec fn focused(s: Seq<RowV>, f: FocusV) -> Result<DataV, ErrorV> {
    match f {
        FocusV::Val(v) => Ok(v),
        FocusV::Db { prefix, shape } => materialized(s, prefix, shape),
    }
}

/// The children of an item: elements by index, or entries by key.
pub open spec fn item_children(v: DataV) -> Seq<(DataV, DataV)> {
    match v {
        DataV::Array(xs) => Seq::new(xs.len(), |i: int| (DataV::UInt(i as u64), xs[i])),
        DataV::Dict(m) => m,
        _ => Seq::empty(),
    }
}

/// The two items are the same number or text or truth value or bytes, or arrays
/// of such. An integer and a float are never the same; maps are never the same.
pub open spec fn values_same(a: DataV, b: DataV) -> bool
    decreases a,
{
    match (a, b) {
        (DataV::UInt(_), _) => int_of(b) == int_of(a),
        (DataV::NInt(_), _) => int_of(b) == int_of(a),
        (DataV::Float(x), DataV::Float(y)) => !is_nan(x) && !is_nan(y) && float_key(x) == float_key(
            y,
        ),
        (DataV::Text(x), DataV::Text(y)) => x == y,
        (DataV::Bool(x), DataV::Bool(y)) => x == y,
        (DataV::Null, DataV::Null) => true,
        (DataV::Bytes(x), DataV::Bytes(y)) => x == y,
        (DataV::Array(x), DataV::Array(y)) => x.len() == y.len() && forall|i: int|
            0 <= i < x.len() ==> values_same(#[trigger] x[i], y[i]),
        _ => false,
    }
}

/// How two items stand to each other: numbers by size, texts and truth values
/// in their order; anything else not at all.
pub open spec fn values_rel(f: Seq<FactV>, a: DataV, b: DataV) -> Result<Option<Rel>, ErrorV> {
    match (int_of(a), int_of(b)) {
        (Some(x), Some(y)) => Ok(Some(rel_int(x, y))),
        (Some(x), None) => match b {
            DataV::Float(y) => match of_int(f, x as i128) {
                None => Err(ErrorV::Need(AskV::OfInt(x as i128))),
                Some(z) => Ok(float_rel(z, y)),
            },
            _ => Ok(None),
        },
        (None, Some(y)) => match a {
            DataV::Float(x) => match of_int(f, y as i128) {
                None => Err(ErrorV::Need(AskV::OfInt(y as i128))),
                Some(z) => Ok(float_rel(x, z)),
            },
            _ => Ok(None),
        },
        (None, None) => match (a, b) {
            (DataV::Float(x), DataV::Float(y)) => Ok(float_rel(x, y)),
            (DataV::Text(x), DataV::Text(y)) => Ok(Some(rel_text(x, y))),
            (DataV::Bool(x), DataV::Bool(y)) => Ok(
                Some(rel_int(if x { 1 } else { 0 }, if y { 1 } else { 0 })),
            ),
            _ => Ok(None),
        },
    }
}

/// How two floats stand to each other; a NaN not at all.
pub open spec fn float_rel(x: u64, y: u64) -> Option<Rel> {
    if is_nan(x) || is_nan(y) {
        None
    } else {
        Some(rel_int(float_key(x), float_key(y)))
    }
}

/// The relation holds between the two items.
pub open spec fn related(f: Seq<FactV>, r: Relation, a: DataV, b: DataV) -> Result<bool, ErrorV> {
    match r {
        Relation::Eq => Ok(values_same(a, b)),
        Relation::Ne => Ok(!values_same(a, b)),
        _ => match values_rel(f, a, b) {
            Err(e) => Err(e),
            Ok(None) => Ok(false),
            Ok(Some(x)) => Ok(
                match r {
                    Relation::Lt => x == Rel::Less,
                    Relation::Le => x != Rel::Greater,
                    Relation::Gt => x == Rel::Greater,
                    _ => x != Rel::Less,
                },
            ),
        },
    }
}

/// The place of the first entry from `i` on whose key is `k`.
pub open spec fn pair_place(m: Seq<(DataV, DataV)>, k: DataV, i: int) -> int
    decreases m.len() - i,
{
    if i < 0 || i >= m.len() || values_same(m[i].0, k) {
        i
    } else {
        pair_place(m, k, i + 1)
    }
}

/// What the map `v` has for `k`; null where it has nothing or is no map.
pub open spec fn item_get(v: DataV, k: DataV) -> DataV {
    match v {
        DataV::Dict(m) => {
            let i = pair_place(m, k, 0);
            if i < m.len() {
                m[i].1
            } else {
                DataV::Null
            }
        },
        _ => DataV::Null,
    }
}

/// What the array `v` has at `i`; null where it has nothing or is no array.
pub open spec fn item_at(v: DataV, i: u64) -> DataV {
    match v {
        DataV::Array(xs) => if i < xs.len() {
            xs[i as int]
        } else {
            DataV::Null
        },
        _ => DataV::Null,
    }
}

/// Where a slice of `len` things begins.
pub open spec fn slice_from(start: Option<u64>, len: int) -> int {
    let a = match start {
        Some(x) => x as int,
        None => 0,
    };
    if a <= len {
        a
    } else {
        len
    }
}

/// Where a slice of `len` things ends.
pub open spec fn slice_to(start: Option<u64>, end: Option<u64>, len: int) -> int {
    let from = slice_from(start, len);
    let b = match end {
        Some(x) => if x <= len {
            x as int
        } else {
            len
        },
        None => len,
    };
    if b <= from {
        from
    } else {
        b
    }
}

/// The items that a step leads to from the item `v`.
pub open spec fn value_step(f: Seq<FactV>, v: DataV, nav: NavV) -> Result<Seq<DataV>, ErrorV>
    decreases nav, 0int, 0int,
{
    let kids = item_children(v);
    match nav {
        NavV::Field(name) => Ok(seq![item_get(v, DataV::Text(name))]),
        NavV::Key(k) => Ok(seq![item_get(v, k)]),
        NavV::Index(i) => Ok(seq![item_at(v, i)]),
        NavV::All => Ok(seconds(kids)),
        NavV::Values => Ok(seconds(kids)),
        NavV::Keys => Ok(kids.map_values(|p: (DataV, DataV)| p.0)),
        NavV::Entries => Ok(
            kids.map_values(|p: (DataV, DataV)| DataV::Array(seq![p.0, p.1])),
        ),
        NavV::Where(p) => value_filter(f, seconds(kids), *p, kids.len() as int),
        NavV::First => Ok(
            if kids.len() > 0 {
                seq![kids[0].1]
            } else {
                Seq::empty()
            },
        ),
        NavV::Last => Ok(
            if kids.len() > 0 {
                seq![kids.last().1]
            } else {
                Seq::empty()
            },
        ),
        NavV::Slice { start, end } => {
            let n = kids.len() as int;
            Ok(seconds(kids).subrange(slice_from(start, n), slice_to(start, end, n)))
        },
    }
}

/// Those of the first `n` items for which the predicate holds.
pub open spec fn value_filter(f: Seq<FactV>, vs: Seq<DataV>, p: PredicateV, n: int) -> Result<
    Seq<DataV>,
    ErrorV,
>
    decreases p, 2int, n,
{
    if n <= 0 || n > vs.len() {
        Ok(Seq::empty())
    } else {
        match value_filter(f, vs, p, n - 1) {
            Err(e) => Err(e),
            Ok(out) => match value_pred(f, vs[n - 1], p) {
                Err(e) => Err(e),
                Ok(b) => Ok(
                    if b {
                        out.push(vs[n - 1])
                    } else {
                        out
                    },
                ),
            },
        }
    }
}

/// The predicate holds of the item.
pub open spec fn value_pred(f: Seq<FactV>, v: DataV, p: PredicateV) -> Result<bool, ErrorV>
    decreases p, 0int, 0int,
{
    match p {
        PredicateV::Compare(r, a, b) => match value_expr(f, v, a) {
            Err(e) => Err(e),
            Ok(x) => match value_expr(f, v, b) {
                Err(e) => Err(e),
                Ok(y) => related(f, r, x, y),
            },
        },
        PredicateV::And(ps) => value_all(f, v, ps, 0),
        PredicateV::Or(ps) => value_any(f, v, ps, 0),
        PredicateV::Not(q) => match value_pred(f, v, *q) {
            Err(e) => Err(e),
            Ok(b) => Ok(!b),
        },
        PredicateV::Exists(ns) => match value_steps(f, seq![v], ns, ns.len() as int) {
            Err(e) => Err(e),
            Ok(vs) => Ok(exists|i: int| 0 <= i < vs.len() && !((#[trigger] vs[i]) is Null)),
        },
    }
}

/// All predicates from `i` on hold, up to the first that does not.
pub open spec fn value_all(f: Seq<FactV>, v: DataV, ps: Seq<PredicateV>, i: int) -> Result<
    bool,
    ErrorV,
>
    decreases ps, 1int, ps.len() - i,
{
    if i < 0 || i >= ps.len() {
        Ok(true)
    } else {
        match value_pred(f, v, ps[i]) {
            Err(e) => Err(e),
            Ok(b) => if b {
                value_all(f, v, ps, i + 1)
            } else {
                Ok(false)
            },
        }
    }
}

/// Some predicate from `i` on holds, looked for up to the first that does.
pub open spec fn value_any(f: Seq<FactV>, v: DataV, ps: Seq<PredicateV>, i: int) -> Result<
    bool,
    ErrorV,
>
    decreases ps, 1int, ps.len() - i,
{
    if i < 0 || i >= ps.len() {
        Ok(false)
    } else {
        match value_pred(f, v, ps[i]) {
            Err(e) => Err(e),
            Ok(b) => if b {
                Ok(true)
            } else {
                value_any(f, v, ps, i + 1)
            },
        }
    }
}

/// The expression's value for the item; of a path, the first item it leads to.
pub open spec fn value_expr(f: Seq<FactV>, v: DataV, e: ExprV) -> Result<DataV, ErrorV>
    decreases e, 0int, 0int,
{
    match e {
        ExprV::Lit(d) => Ok(d),
        ExprV::Field(name) => Ok(item_get(v, DataV::Text(name))),
        ExprV::Path(ns) => match value_steps(f, seq![v], ns, ns.len() as int) {
            Err(e) => Err(e),
            Ok(vs) => Ok(
                if vs.len() > 0 {
                    vs[0]
                } else {
                    DataV::Null
                },
            ),
        },
    }
}

/// The items that the first `n` steps lead to.
pub open spec fn value_steps(f: Seq<FactV>, vs: Seq<DataV>, ns: Seq<NavV>, n: int) -> Result<
    Seq<DataV>,
    ErrorV,
>
    decreases ns, 2int, n,
{
    if n <= 0 || n > ns.len() {
        Ok(vs)
    } else {
        match value_steps(f, vs, ns, n - 1) {
            Err(e) => Err(e),
            Ok(ws) => value_spread(f, ws, ns[n - 1], ws.len() as int),
        }
    }
}

/// The items that one step leads to from the first `n` items.
pub open spec fn value_spread(f: Seq<FactV>, vs: Seq<DataV>, nav: NavV, n: int) -> Result<
    Seq<DataV>,
    ErrorV,
>
    decreases nav, 1int, n,
{
    if n <= 0 || n > vs.len() {
        Ok(Seq::empty())
    } else {
        match value_spread(f, vs, nav, n - 1) {
            Err(e) => Err(e),
            Ok(out) => match value_step(f, vs[n - 1], nav) {
                Err(e) => Err(e),
                Ok(more) => Ok(out + more),
            },
        }
    }
}

/// The places of `items`.
pub open spec fn as_foci(items: Seq<DataV>) -> Seq<FocusV> {
    items.map_values(|v: DataV| FocusV::Val(v))
}

/// A child of a place: its key, if it has one, and the place.
pub type ChildV = (Option<DataV>, FocusV);

/// The children of `pairs`.
pub open spec fn pair_children(pairs: Seq<(DataV, DataV)>) -> Seq<ChildV> {
    pairs.map_values(|p: (DataV, DataV)| (Some(p.0), FocusV::Val(p.1)))
}

/// The children of the location at `prefix`.
pub open spec fn children_of(s: Seq<RowV>, prefix: Seq<u8>, shape: ShapeV) -> Result<
    Seq<ChildV>,
    ErrorV,
> {
    match shape {
        ShapeV::Dict { of } => match keys_at(s, prefix) {
            Err(e) => Err(e),
            Ok(ks) => Ok(
                ks.map_values(
                    |k: DataV|
                        (
                            Some(k),
                            FocusV::Db { prefix: entry_key(prefix, k), shape: *of },
                        ),
                ),
            ),
        },
        ShapeV::List { of } => match list_len(s, prefix) {
            Err(e) => Err(e),
            Ok(n) => Ok(
                Seq::new(
                    n as nat,
                    |i: int|
                        (
                            Some(DataV::UInt(i as u64)),
                            FocusV::Db { prefix: list_key(prefix, i), shape: *of },
                        ),
                ),
            ),
        },
        ShapeV::Deque { of } => match deque_head(s, prefix) {
            Err(e) => Err(e),
            Ok(h) => match deque_tail(s, prefix) {
                Err(e) => Err(e),
                Ok(t) => Ok(
                    Seq::new(
                        (if h < t {
                            t - h
                        } else {
                            0
                        }) as nat,
                        |i: int|
                            (
                                Some(DataV::UInt(i as u64)),
                                FocusV::Db { prefix: deque_key(prefix, h + i), shape: *of },
                            ),
                    ),
                ),
            },
        },
        ShapeV::Leaf => match leaf_or_null(s, prefix) {
            Err(e) => Err(e),
            Ok(v) => Ok(pair_children(item_children(v))),
        },
        ShapeV::Record { fields } => Ok(
            Seq::new(
                fields.len(),
                |i: int|
                    (
                        Some(DataV::Text(fields[i].0)),
                        FocusV::Db { prefix: field_key(prefix, i), shape: fields[i].1 },
                    ),
            ),
        ),
        ShapeV::Sum => Ok(seq![(None, FocusV::Db { prefix, shape: ShapeV::Sum })]),
    }
}

/// The children of a collection, where those that are leaves come as items.
pub open spec fn collected(s: Seq<RowV>, prefix: Seq<u8>, shape: ShapeV) -> Result<
    Seq<ChildV>,
    ErrorV,
> {
    if holds_leaves(shape) {
        let kind = match shape {
            ShapeV::Dict { of } => ChildKey::Dict,
            ShapeV::List { of } => ChildKey::List,
            _ => ChildKey::Deque,
        };
        match leaf_children(s, prefix, kind) {
            Err(e) => Err(e),
            Ok(ps) => Ok(pair_children(ps)),
        }
    } else {
        children_of(s, prefix, shape)
    }
}

/// The places of children.
pub open spec fn places(cs: Seq<ChildV>) -> Seq<FocusV> {
    cs.map_values(|c: ChildV| c.1)
}

/// The keys of the first `n` children, of those that have one.
pub open spec fn child_keys(cs: Seq<ChildV>, n: int) -> Seq<FocusV>
    decreases n,
{
    if n <= 0 || n > cs.len() {
        Seq::empty()
    } else {
        match cs[n - 1].0 {
            Some(k) => child_keys(cs, n - 1).push(FocusV::Val(k)),
            None => child_keys(cs, n - 1),
        }
    }
}

/// The key of a child; null where it has none.
pub open spec fn key_of(c: ChildV) -> DataV {
    match c.0 {
        Some(k) => k,
        None => DataV::Null,
    }
}

/// The `[key, value]` pairs of the first `n` children.
pub open spec fn child_entries(s: Seq<RowV>, cs: Seq<ChildV>, n: int) -> Result<
    Seq<FocusV>,
    ErrorV,
>
    decreases n,
{
    if n <= 0 || n > cs.len() {
        Ok(Seq::empty())
    } else {
        match child_entries(s, cs, n - 1) {
            Err(e) => Err(e),
            Ok(out) => match focused(s, cs[n - 1].1) {
                Err(e) => Err(e),
                Ok(v) => Ok(
                    out.push(FocusV::Val(DataV::Array(seq![key_of(cs[n - 1]), v]))),
                ),
            },
        }
    }
}

/// The deque index `i` places behind `head`, which wraps around.
pub open spec fn index_from(head: i64, i: u64) -> i64 {
    signed(((twos(head as int) + i) % 0x1_0000_0000_0000_0000) as u64)
}

/// The element `i` of the list or deque at `prefix`.
pub open spec fn index_step(s: Seq<RowV>, prefix: Seq<u8>, shape: ShapeV, i: u64) -> Result<
    Seq<FocusV>,
    ErrorV,
> {
    match shape {
        ShapeV::List { of } => Ok(
            seq![FocusV::Db { prefix: list_key(prefix, i as int), shape: *of }],
        ),
        ShapeV::Deque { of } => match deque_head(s, prefix) {
            Err(e) => Err(e),
            Ok(h) => Ok(
                seq![
                    FocusV::Db {
                        prefix: deque_key(prefix, index_from(h, i) as int),
                        shape: *of,
                    },
                ],
            ),
        },
        _ => Err(ErrorV::Query("Index on a "@ + kind_name_of(shape))),
    }
}

/// The places that a step leads to from the item at the leaf `prefix`.
pub open spec fn leaf_step(f: Seq<FactV>, s: Seq<RowV>, prefix: Seq<u8>, nav: NavV) -> Result<
    Seq<FocusV>,
    ErrorV,
> {
    match leaf_or_null(s, prefix) {
        Err(e) => Err(e),
        Ok(v) => match value_step(f, v, nav) {
            Err(e) => Err(e),
            Ok(vs) => Ok(as_foci(vs)),
        },
    }
}

/// The places that a step leads to from the location at `prefix`.
pub open spec fn db_step(
    f: Seq<FactV>,
    s: Seq<RowV>,
    prefix: Seq<u8>,
    shape: ShapeV,
    nav: NavV,
) -> Result<Seq<FocusV>, ErrorV>
    decreases nav, 0int, 0int,
{
    match nav {
        NavV::Field(name) => match shape {
            ShapeV::Leaf => leaf_step(f, s, prefix, nav),
            ShapeV::Record { fields } => match field_in(shape, name) {
                Err(e) => Err(e),
                Ok((id, next)) => Ok(
                    seq![FocusV::Db { prefix: field_key(prefix, id as int), shape: next }],
                ),
            },
            ShapeV::Dict { of } => Ok(
                seq![
                    FocusV::Db {
                        prefix: entry_key(prefix, DataV::Text(name)),
                        shape: *of,
                    },
                ],
            ),
            _ => Err(
                ErrorV::Query(
                    "field "@ + debug_of_text(name) + " on a "@ + kind_name_of(shape),
                ),
            ),
        },
        NavV::Key(k) => match shape {
            ShapeV::Leaf => leaf_step(f, s, prefix, nav),
            ShapeV::Dict { of } => Ok(
                seq![FocusV::Db { prefix: entry_key(prefix, k), shape: *of }],
            ),
            ShapeV::Record { fields } => Err(ErrorV::Query("Key on a "@ + kind_name_of(shape))),
            ShapeV::Sum => Err(ErrorV::Query("Key on a "@ + kind_name_of(shape))),
            _ => match k {
                DataV::UInt(i) => index_step(s, prefix, shape, i),
                _ => Err(ErrorV::Query("integer Key on List/Deque required; use Index"@)),
            },
        },
        NavV::Index(i) => match shape {
            ShapeV::Leaf => leaf_step(f, s, prefix, nav),
            _ => index_step(s, prefix, shape, i),
        },
        _ => match collected(s, prefix, shape) {
            Err(e) => Err(e),
            Ok(cs) => {
                let n = cs.len() as int;
                match nav {
                    NavV::Keys => Ok(child_keys(cs, n)),
                    NavV::Entries => child_entries(s, cs, n),
                    NavV::Where(p) => db_filter(f, s, places(cs), *p, n),
                    NavV::First => Ok(
                        if n > 0 {
                            seq![cs[0].1]
                        } else {
                            Seq::empty()
                        },
                    ),
                    NavV::Last => Ok(
                        if n > 0 {
                            seq![cs.last().1]
                        } else {
                            Seq::empty()
                        },
                    ),
                    NavV::Slice { start, end } => Ok(
                        places(cs).subrange(slice_from(start, n), slice_to(start, end, n)),
                    ),
                    _ => Ok(places(cs)),
                }
            },
        },
    }
}

/// Those of the first `n` places for which the predicate holds.
pub open spec fn db_filter(
    f: Seq<FactV>,
    s: Seq<RowV>,
    foci: Seq<FocusV>,
    p: PredicateV,
    n: int,
) -> Result<Seq<FocusV>, ErrorV>
    decreases p, 3int, n,
{
    if n <= 0 || n > foci.len() {
        Ok(Seq::empty())
    } else {
        match db_filter(f, s, foci, p, n - 1) {
            Err(e) => Err(e),
            Ok(out) => match db_pred(f, s, foci[n - 1], p) {
                Err(e) => Err(e),
                Ok(b) => Ok(
                    if b {
                        out.push(foci[n - 1])
                    } else {
                        out
                    },
                ),
            },
        }
    }
}

/// The places that a step leads to.
pub open spec fn focus_step(f: Seq<FactV>, s: Seq<RowV>, focus: FocusV, nav: NavV) -> Result<
    Seq<FocusV>,
    ErrorV,
>
    decreases nav, 1int, 0int,
{
    match focus {
        FocusV::Val(v) => match value_step(f, v, nav) {
            Err(e) => Err(e),
            Ok(vs) => Ok(as_foci(vs)),
        },
        FocusV::Db { prefix, shape } => db_step(f, s, prefix, shape, nav),
    }
}

/// The places that one step leads to from the first `n` places.
pub open spec fn focus_spread(f: Seq<FactV>, s: Seq<RowV>, foci: Seq<FocusV>, nav: NavV, n: int) -> Result<
    Seq<FocusV>,
    ErrorV,
>
    decreases nav, 2int, n,
{
    if n <= 0 || n > foci.len() {
        Ok(Seq::empty())
    } else {
        match focus_spread(f, s, foci, nav, n - 1) {
            Err(e) => Err(e),
            Ok(out) => match focus_step(f, s, foci[n - 1], nav) {
                Err(e) => Err(e),
                Ok(more) => Ok(out + more),
            },
        }
    }
}

/// The places that the first `n` steps lead to.
pub open spec fn focus_steps(f: Seq<FactV>, s: Seq<RowV>, foci: Seq<FocusV>, ns: Seq<NavV>, n: int) -> Result<
    Seq<FocusV>,
    ErrorV,
>
    decreases ns, 3int, n,
{
    if n <= 0 || n > ns.len() {
        Ok(foci)
    } else {
        match focus_steps(f, s, foci, ns, n - 1) {
            Err(e) => Err(e),
            Ok(ws) => focus_spread(f, s, ws, ns[n - 1], ws.len() as int),
        }
    }
}

/// There is something at the place.
pub open spec fn present(s: Seq<RowV>, focus: FocusV) -> bool {
    match focused(s, focus) {
        Ok(v) => !(v is Null),
        Err(_) => false,
    }
}

/// The predicate holds at the place.
pub open spec fn db_pred(f: Seq<FactV>, s: Seq<RowV>, focus: FocusV, p: PredicateV) -> Result<
    bool,
    ErrorV,
>
    decreases p, 1int, 0int,
{
    match p {
        PredicateV::Compare(r, a, b) => match db_expr(f, s, focus, a) {
            Err(e) => Err(e),
            Ok(x) => match db_expr(f, s, focus, b) {
                Err(e) => Err(e),
                Ok(y) => related(f, r, x, y),
            },
        },
        PredicateV::And(ps) => db_all(f, s, focus, ps, 0),
        PredicateV::Or(ps) => db_any(f, s, focus, ps, 0),
        PredicateV::Not(q) => match db_pred(f, s, focus, *q) {
            Err(e) => Err(e),
            Ok(b) => Ok(!b),
        },
        PredicateV::Exists(ns) => match focus_steps(f, s, seq![focus], ns, ns.len() as int) {
            Err(e) => Err(e),
            Ok(fs) => Ok(exists|i: int| 0 <= i < fs.len() && present(s, #[trigger] fs[i])),
        },
    }
}

/// All predicates from `i` on hold, up to the first that does not.
pub open spec fn db_all(f: Seq<FactV>, s: Seq<RowV>, focus: FocusV, ps: Seq<PredicateV>, i: int) -> Result<
    bool,
    ErrorV,
>
    decreases ps, 2int, ps.len() - i,
{
    if i < 0 || i >= ps.len() {
        Ok(true)
    } else {
        match db_pred(f, s, focus, ps[i]) {
            Err(e) => Err(e),
            Ok(b) => if b {
                db_all(f, s, focus, ps, i + 1)
            } else {
                Ok(false)
            },
        }
    }
}

/// Some predicate from `i` on holds, looked for up to the first that does.
pub open spec fn db_any(f: Seq<FactV>, s: Seq<RowV>, focus: FocusV, ps: Seq<PredicateV>, i: int) -> Result<
    bool,
    ErrorV,
>
    decreases ps, 2int, ps.len() - i,
{
    if i < 0 || i >= ps.len() {
        Ok(false)
    } else {
        match db_pred(f, s, focus, ps[i]) {
            Err(e) => Err(e),
            Ok(b) => if b {
                Ok(true)
            } else {
                db_any(f, s, focus, ps, i + 1)
            },
        }
    }
}

/// The items at the first `n` places.
pub open spec fn all_focused(s: Seq<RowV>, foci: Seq<FocusV>, n: int) -> Result<Seq<DataV>, ErrorV>
    decreases n,
{
    if n <= 0 || n > foci.len() {
        Ok(Seq::empty())
    } else {
        match all_focused(s, foci, n - 1) {
            Err(e) => Err(e),
            Ok(vs) => match focused(s, foci[n - 1]) {
                Err(e) => Err(e),
                Ok(v) => Ok(vs.push(v)),
            },
        }
    }
}

/// The field `name` of the place.
pub open spec fn field_item(s: Seq<RowV>, focus: FocusV, name: Seq<char>) -> Result<DataV, ErrorV> {
    match focus {
        FocusV::Val(v) => Ok(item_get(v, DataV::Text(name))),
        FocusV::Db { prefix, shape } => match shape {
            ShapeV::Leaf => match leaf_or_null(s, prefix) {
                Err(e) => Err(e),
                Ok(v) => Ok(item_get(v, DataV::Text(name))),
            },
            ShapeV::Record { fields } => match field_in(shape, name) {
                Err(e) => Err(e),
                Ok((id, next)) => materialized(s, field_key(prefix, id as int), next),
            },
            ShapeV::Dict { of } => materialized(s, entry_key(prefix, DataV::Text(name)), *of),
            _ => Ok(DataV::Null),
        },
    }
}

/// The expression's value at the place; of a path that leads to several places,
/// the array of what is there.
pub open spec fn db_expr(f: Seq<FactV>, s: Seq<RowV>, focus: FocusV, e: ExprV) -> Result<
    DataV,
    ErrorV,
>
    decreases e, 1int, 0int,
{
    match e {
        ExprV::Lit(d) => Ok(d),
        ExprV::Field(name) => field_item(s, focus, name),
        ExprV::Path(ns) => match focus_steps(f, s, seq![focus], ns, ns.len() as int) {
            Err(e) => Err(e),
            Ok(fs) => if fs.len() == 0 {
                Ok(DataV::Null)
            } else if fs.len() == 1 {
                focused(s, fs[0])
            } else {
                match all_focused(s, fs, fs.len() as int) {
                    Err(e) => Err(e),
                    Ok(vs) => Ok(DataV::Array(vs)),
                }
            },
        },
    }
}

/// The place that a query starts at.
pub open spec fn root_of(schema: ShapeV, q: QueryV) -> FocusV {
    FocusV::Db {
        prefix: match q.namespace {
            Some(ns) => segment(encode_utf8(ns)),
            None => Seq::empty(),
        },
        shape: schema,
    }
}

/// The places that a query leads to.
pub open spec fn found(f: Seq<FactV>, s: Seq<RowV>, schema: ShapeV, q: QueryV) -> Result<
    Seq<FocusV>,
    ErrorV,
> {
    focus_steps(f, s, seq![root_of(schema, q)], q.navs, q.navs.len() as int)
}

} // verus!
