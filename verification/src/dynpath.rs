//! Paths as data: the write side of queries.
//!
//! A shape and a list of steps name one place of the store. A path does not
//! become a write by itself: what is done there is said by `put`, `delete`,
//! `add`, `push` or `clear`.

use crate::codec::{child_key, order_u64, put_segment, segment};
use crate::data::{
    copy_data, debug_data, debug_of_data, encode, is_text, items_v, lemma_items, Data, DataV,
};
use crate::db::{Db, RowV};
use crate::error::{query_error, Error, ErrorV};
use crate::float::{FactV, FloatTable};
use crate::nav::{
    copy_navs, lemma_navs, lemma_navs_push, navs_v, query_collects, Expr, ExprV, Nav, NavV,
    Predicate, PredicateV, Query, QueryV, Relation,
};
use crate::op::{writes_v, Op, OpV, Write};
use crate::path::list_key;
use crate::query::{field_get, is_leaf, same_data};
use crate::reading::{entry_key, field_key, item_get};
use crate::schema::{encode_sum, sum_bytes, twos, Real};
use crate::shape::{field_in, field_segment, fields_v, kind_name_of, lemma_fields, Shape, ShapeV};
use crate::terminal::{one, one_of, subtree, subtree_of};
use crate::text::{debug_of_text, debug_text, text_eq};
use crate::whole::{as_i64, as_i64_of, as_u64, as_u64_of};
use vstd::prelude::*;
use vstd::string::*;
use vstd::utf8::encode_utf8;

verus! {

/// One place of the store: its key prefix and the shape that lives there.
pub struct Location<'a> {
    pub prefix: Vec<u8>,
    pub shape: &'a Shape,
}

/// The name of the kind of a step.
pub open spec fn nav_kind_of(n: NavV) -> Seq<char> {
    match n {
        NavV::Field(_) => "Field"@,
        NavV::Key(_) => "Key"@,
        NavV::Index(_) => "Index"@,
        NavV::All => "All"@,
        NavV::Values => "Values"@,
        NavV::Keys => "Keys"@,
        NavV::Entries => "Entries"@,
        NavV::Where(_) => "Where"@,
        NavV::First => "First"@,
        NavV::Last => "Last"@,
        NavV::Slice { start, end } => "Slice"@,
    }
}

/// The place that one step leads to. A step that can lead to several places is
/// refused, and so is one into a leaf.
pub open spec fn located_step(prefix: Seq<u8>, shape: ShapeV, nav: NavV) -> Result<
    (Seq<u8>, ShapeV),
    ErrorV,
> {
    match nav {
        NavV::Field(name) => match shape {
            ShapeV::Record { fields } => match field_in(shape, name) {
                Err(e) => Err(e),
                Ok((id, next)) => Ok((field_key(prefix, id as int), next)),
            },
            ShapeV::Dict { of } => Ok((entry_key(prefix, DataV::Text(name)), *of)),
            ShapeV::Leaf => Err(
                ErrorV::Query(
                    "write path entered a Leaf at field "@ + debug_of_text(name)
                        + "; put the whole leaf"@,
                ),
            ),
            _ => Err(
                ErrorV::Query("field "@ + debug_of_text(name) + " on a "@ + kind_name_of(shape)),
            ),
        },
        NavV::Key(k) => match shape {
            ShapeV::Dict { of } => Ok((entry_key(prefix, k), *of)),
            ShapeV::List { of } => match as_u64_of(k) {
                Some(i) => Ok((list_key(prefix, i as int), *of)),
                None => Err(ErrorV::Query("integer Key on List required; use Index"@)),
            },
            ShapeV::Deque { of } => Err(
                ErrorV::Query("Deque writes use Index (logical) or push/clear"@),
            ),
            _ => Err(ErrorV::Query("Key on a "@ + kind_name_of(shape))),
        },
        NavV::Index(i) => match shape {
            ShapeV::List { of } => Ok((list_key(prefix, i as int), *of)),
            ShapeV::Deque { of } => Err(
                ErrorV::Query("absolute Deque Index is not a write address; use push"@),
            ),
            _ => Err(ErrorV::Query("Index on a "@ + kind_name_of(shape))),
        },
        _ => Err(ErrorV::Query("write path cannot contain "@ + nav_kind_of(nav))),
    }
}

/// The prefix of a namespace.
pub open spec fn namespace_prefix(ns: Option<Seq<char>>) -> Seq<u8> {
    match ns {
        Some(s) => segment(encode_utf8(s)),
        None => Seq::empty(),
    }
}

/// The place that the first `n` steps lead to.
pub open spec fn located(schema: ShapeV, ns: Option<Seq<char>>, navs: Seq<NavV>, n: int) -> Result<
    (Seq<u8>, ShapeV),
    ErrorV,
>
    decreases n,
{
    if n <= 0 || n > navs.len() {
        Ok((namespace_prefix(ns), schema))
    } else {
        match located(schema, ns, navs, n - 1) {
            Err(e) => Err(e),
            Ok((prefix, shape)) => located_step(prefix, shape, navs[n - 1]),
        }
    }
}

/// The place that a path names.
pub open spec fn place_of(schema: ShapeV, ns: Option<Seq<char>>, navs: Seq<NavV>) -> Result<
    (Seq<u8>, ShapeV),
    ErrorV,
> {
    located(schema, ns, navs, navs.len() as int)
}

/// The text of an optional name.
pub open spec fn name_v(ns: Option<&str>) -> Option<Seq<char>> {
    match ns {
        Some(s) => Some(s@),
        None => None,
    }
}

/// The location found is the one that the model says.
pub open spec fn same_place(
    r: Result<Location<'_>, Error>,
    s: Result<(Seq<u8>, ShapeV), ErrorV>,
) -> bool {
    match (r, s) {
        (Ok(l), Ok((p, sh))) => l.prefix@ == p && l.shape@ == sh,
        (Err(e), Err(w)) => e@ == w,
        _ => false,
    }
}

fn nav_kind(nav: &Nav) -> (r: &'static str)
    ensures
        r@ == nav_kind_of(nav@),
{
    match nav {
        Nav::Field(_) => "Field",
        Nav::Key(_) => "Key",
        Nav::Index(_) => "Index",
        Nav::All => "All",
        Nav::Values => "Values",
        Nav::Keys => "Keys",
        Nav::Entries => "Entries",
        Nav::Where(_) => "Where",
        Nav::First => "First",
        Nav::Last => "Last",
        Nav::Slice { .. } => "Slice",
    }
}

/// The query error of a text with the name of a kind behind it.
fn kind_error<T>(text: &str, kind: &str) -> (r: Result<T, Error>)
    ensures
        r matches Err(e) && e@ == ErrorV::Query(text@ + kind@),
{
    let mut m: String = text.to_owned();
    m.append(kind);
    Err(Error::Query(m))
}

fn field_error<T>(name: &str, kind: &str) -> (r: Result<T, Error>)
    ensures
        r matches Err(e) && e@ == ErrorV::Query(
            "field "@ + debug_of_text(name@) + " on a "@ + kind@,
        ),
{
    let mut m: String = "field ".to_owned();
    m.append(debug_text(name).as_str());
    m.append(" on a ");
    m.append(kind);
    Err(Error::Query(m))
}

fn resolve_step<'a>(prefix: &[u8], shape: &'a Shape, nav: &Nav) -> (r: Result<Location<'a>, Error>)
    ensures
        same_place(r, located_step(prefix@, shape@, nav@)),
{
    match nav {
        Nav::Field(name) => match shape {
            Shape::Record { .. } => {
                let (id, next) = shape.field(name.as_str())?;
                let seg: Vec<u8> = field_segment(id);
                Ok(Location { prefix: child_key(prefix, seg.as_slice()), shape: next })
            },
            Shape::Dict { of } => {
                let seg: Vec<u8> = encode(&Data::Text(name.clone()));
                Ok(Location { prefix: child_key(prefix, seg.as_slice()), shape: of })
            },
            Shape::Leaf => {
                let mut m: String = "write path entered a Leaf at field ".to_owned();
                m.append(debug_text(name.as_str()).as_str());
                m.append("; put the whole leaf");
                Err(Error::Query(m))
            },
            _ => field_error(name.as_str(), shape.kind_name()),
        },
        Nav::Key(k) => match shape {
            Shape::Dict { of } => {
                let seg: Vec<u8> = encode(k);
                Ok(Location { prefix: child_key(prefix, seg.as_slice()), shape: of })
            },
            Shape::List { of } => match as_u64(k) {
                Some(i) => {
                    let ix = order_u64(i);
                    Ok(Location { prefix: child_key(prefix, &ix), shape: of })
                },
                None => query_error("integer Key on List required; use Index"),
            },
            Shape::Deque { .. } => query_error("Deque writes use Index (logical) or push/clear"),
            _ => kind_error("Key on a ", shape.kind_name()),
        },
        Nav::Index(i) => match shape {
            Shape::List { of } => {
                let ix = order_u64(*i);
                Ok(Location { prefix: child_key(prefix, &ix), shape: of })
            },
            Shape::Deque { .. } => query_error(
                "absolute Deque Index is not a write address; use push",
            ),
            _ => kind_error("Index on a ", shape.kind_name()),
        },
        _ => kind_error("write path cannot contain ", nav_kind(nav)),
    }
}

proof fn lemma_located_err(schema: ShapeV, ns: Option<Seq<char>>, navs: Seq<NavV>, i: int, n: int)
    requires
        0 <= i <= n <= navs.len(),
        located(schema, ns, navs, i) is Err,
    ensures
        located(schema, ns, navs, n) == located(schema, ns, navs, i),
    decreases n,
{
    if i < n {
        lemma_located_err(schema, ns, navs, i, n - 1);
    }
}

/// The place that `navs` names under `schema`, in a namespace if one is given.
pub fn resolve<'a>(schema: &'a Shape, namespace: Option<&str>, navs: &Vec<Nav>) -> (r: Result<
    Location<'a>,
    Error,
>)
    ensures
        same_place(r, place_of(schema@, name_v(namespace), navs_v(*navs))),
{
    let ghost nv = navs_v(*navs);
    let ghost ns = name_v(namespace);
    proof {
        lemma_navs(*navs);
    }
    let mut prefix: Vec<u8> = Vec::new();
    if let Some(s) = namespace {
        put_segment(&mut prefix, s.as_bytes());
    }
    assert(prefix@ =~= namespace_prefix(ns));
    let mut at = Location { prefix, shape: schema };
    let mut i: usize = 0;
    while i < navs.len()
        invariant
            i <= navs@.len(),
            nv == navs_v(*navs),
            ns == name_v(namespace),
            nv.len() == navs@.len(),
            forall|j: int| 0 <= j < nv.len() ==> #[trigger] nv[j] == navs@[j]@,
            located(schema@, ns, nv, i as int) == Ok::<(Seq<u8>, ShapeV), ErrorV>(
                (at.prefix@, at.shape@),
            ),
        decreases navs@.len() - i,
    {
        let ghost x = nv[i as int];
        match resolve_step(at.prefix.as_slice(), at.shape, &navs[i]) {
            Err(e) => {
                proof {
                    lemma_located_err(schema@, ns, nv, i + 1, nv.len() as int);
                }
                return Err(e);
            },
            Ok(next) => {
                at = next;
            },
        }
        i = i + 1;
    }
    Ok(at)
}

/// The relation that a text spells.
pub open spec fn relation_of(op: Seq<char>) -> Option<Relation> {
    if op == "=="@ {
        Some(Relation::Eq)
    } else if op == "!="@ {
        Some(Relation::Ne)
    } else if op == "<"@ {
        Some(Relation::Lt)
    } else if op == "<="@ {
        Some(Relation::Le)
    } else if op == ">"@ {
        Some(Relation::Gt)
    } else if op == ">="@ {
        Some(Relation::Ge)
    } else {
        None
    }
}

/// The bound of a slice that data is: null is open.
pub open spec fn bound_of(d: DataV) -> Result<Option<u64>, ErrorV> {
    if d is Null {
        Ok(None)
    } else {
        match as_u64_of(d) {
            Some(n) => Ok(Some(n)),
            None => Err(ErrorV::Query("slice bounds must be whole numbers"@)),
        }
    }
}

/// The combinator without parameters of that name.
pub open spec fn plain_combinator(name: Seq<char>) -> Result<NavV, ErrorV> {
    if name == "all"@ {
        Ok(NavV::All)
    } else if name == "keys"@ {
        Ok(NavV::Keys)
    } else if name == "vals"@ {
        Ok(NavV::Values)
    } else if name == "entries"@ {
        Ok(NavV::Entries)
    } else if name == "first"@ {
        Ok(NavV::First)
    } else if name == "last"@ {
        Ok(NavV::Last)
    } else {
        Err(ErrorV::Query("unknown nav combinator "@ + debug_of_text(name)))
    }
}

/// The filter that `["where", field]` or `["where", field, op, value]` spells:
/// the field exists, or stands in the relation to the value.
pub open spec fn where_nav(ps: Seq<DataV>) -> Result<NavV, ErrorV> {
    if ps.len() >= 2 && ps[1] is Text {
        let field = ps[1]->Text_0;
        if ps.len() == 2 {
            Ok(NavV::Where(Box::new(PredicateV::Exists(seq![NavV::Field(field)]))))
        } else if ps.len() == 4 && ps[2] is Text && relation_of(ps[2]->Text_0) is Some {
            Ok(
                NavV::Where(
                    Box::new(
                        PredicateV::Compare(
                            relation_of(ps[2]->Text_0)->Some_0,
                            ExprV::Field(field),
                            ExprV::Lit(ps[3]),
                        ),
                    ),
                ),
            )
        } else {
            Err(ErrorV::Query("malformed where navigator"@))
        }
    } else {
        Err(ErrorV::Query("malformed where navigator"@))
    }
}

/// The slice that `["slice", start, end]` spells.
pub open spec fn slice_nav(ps: Seq<DataV>) -> Result<NavV, ErrorV> {
    if ps.len() == 3 {
        match bound_of(ps[1]) {
            Err(e) => Err(e),
            Ok(start) => match bound_of(ps[2]) {
                Err(e) => Err(e),
                Ok(end) => Ok(NavV::Slice { start, end }),
            },
        }
    } else {
        Err(ErrorV::Query("malformed slice navigator"@))
    }
}

/// The combinator with parameters that a list spells.
pub open spec fn param_combinator(ps: Seq<DataV>) -> Result<NavV, ErrorV> {
    if ps.len() > 0 && ps[0] == DataV::Text("where"@) {
        where_nav(ps)
    } else if ps.len() > 0 && ps[0] == DataV::Text("slice"@) {
        slice_nav(ps)
    } else {
        Err(ErrorV::Query("unknown nav combinator "@ + debug_of_data(DataV::Array(ps))))
    }
}

/// The combinator that a tagged step spells: tag 27 on `["nav", what]`, where
/// `what` is a name or a list of a name and parameters.
pub open spec fn tagged_nav_of(step: DataV) -> Result<Option<NavV>, ErrorV> {
    match step {
        DataV::Tag(t, inner) => if t == 27 {
            match *inner {
                DataV::Array(parts) => if parts.len() >= 2 && parts[0] == DataV::Text("nav"@) {
                    match parts[1] {
                        DataV::Text(name) => match plain_combinator(name) {
                            Ok(n) => Ok(Some(n)),
                            Err(e) => Err(e),
                        },
                        DataV::Array(ps) => match param_combinator(ps) {
                            Ok(n) => Ok(Some(n)),
                            Err(e) => Err(e),
                        },
                        _ => Ok(None),
                    }
                } else {
                    Ok(None)
                },
                _ => Ok(None),
            }
        } else {
            Ok(None)
        },
        _ => Ok(None),
    }
}

/// The step made is the one that the model says.
pub open spec fn same_nav(r: Result<Nav, Error>, s: Result<NavV, ErrorV>) -> bool {
    match (r, s) {
        (Ok(n), Ok(v)) => n@ == v,
        (Err(e), Err(w)) => e@ == w,
        _ => false,
    }
}

fn read_relation(op: &str) -> (r: Option<Relation>)
    ensures
        r == relation_of(op@),
{
    if text_eq(op, "==") {
        Some(Relation::Eq)
    } else if text_eq(op, "!=") {
        Some(Relation::Ne)
    } else if text_eq(op, "<") {
        Some(Relation::Lt)
    } else if text_eq(op, "<=") {
        Some(Relation::Le)
    } else if text_eq(op, ">") {
        Some(Relation::Gt)
    } else if text_eq(op, ">=") {
        Some(Relation::Ge)
    } else {
        None
    }
}

fn read_bound(d: &Data) -> (r: Result<Option<u64>, Error>)
    ensures
        match (r, bound_of(d@)) {
            (Ok(x), Ok(y)) => x == y,
            (Err(e), Err(w)) => e@ == w,
            _ => false,
        },
{
    if let Data::Null = d {
        return Ok(None);
    }
    match as_u64(d) {
        Some(n) => Ok(Some(n)),
        None => query_error("slice bounds must be whole numbers"),
    }
}

fn read_where(ps: &Vec<Data>) -> (r: Result<Nav, Error>)
    ensures
        same_nav(r, where_nav(items_v(*ps))),
{
    let ghost pv = items_v(*ps);
    proof {
        lemma_items(*ps);
    }
    if ps.len() < 2 {
        return query_error("malformed where navigator");
    }
    assert(pv[1] == ps@[1]@);
    match &ps[1] {
        Data::Text(field) => {
            if ps.len() == 2 {
                let mut navs: Vec<Nav> = Vec::new();
                let ghost none = navs;
                let step: Nav = Nav::Field(field.clone());
                navs.push(step);
                proof {
                    lemma_navs(none);
                    lemma_navs_push(none, navs, step);
                    assert(navs_v(navs) =~= seq![NavV::Field(field@)]);
                }
                let p: Predicate = Predicate::Exists(navs);
                assert(p@ == PredicateV::Exists(seq![NavV::Field(field@)]));
                return Ok(Nav::Where(p));
            }
            if ps.len() != 4 {
                return query_error("malformed where navigator");
            }
            assert(pv[2] == ps@[2]@);
            assert(pv[3] == ps@[3]@);
            match &ps[2] {
                Data::Text(op) => match read_relation(op.as_str()) {
                    Some(r) => {
                        let a: Expr = Expr::Field(field.clone());
                        let b: Expr = Expr::Lit(copy_data(&ps[3]));
                        let ghost av = a@;
                        let ghost bv = b@;
                        let p: Predicate = Predicate::Compare(r, a, b);
                        assert(p@ == PredicateV::Compare(r, av, bv));
                        Ok(Nav::Where(p))
                    },
                    None => query_error("malformed where navigator"),
                },
                _ => query_error("malformed where navigator"),
            }
        },
        _ => query_error("malformed where navigator"),
    }
}

fn read_slice(ps: &Vec<Data>) -> (r: Result<Nav, Error>)
    ensures
        same_nav(r, slice_nav(items_v(*ps))),
{
    let ghost pv = items_v(*ps);
    proof {
        lemma_items(*ps);
    }
    if ps.len() != 3 {
        return query_error("malformed slice navigator");
    }
    assert(pv[1] == ps@[1]@);
    assert(pv[2] == ps@[2]@);
    let start: Option<u64> = read_bound(&ps[1])?;
    let end: Option<u64> = read_bound(&ps[2])?;
    Ok(Nav::Slice { start, end })
}

fn param_nav(d: &Data, ps: &Vec<Data>) -> (r: Result<Nav, Error>)
    requires
        d@ == DataV::Array(items_v(*ps)),
    ensures
        same_nav(r, param_combinator(items_v(*ps))),
{
    let ghost pv = items_v(*ps);
    proof {
        lemma_items(*ps);
    }
    if ps.len() > 0 {
        assert(pv[0] == ps@[0]@);
        if is_text(&ps[0], "where") {
            return read_where(ps);
        }
        if is_text(&ps[0], "slice") {
            proof {
                reveal_strlit("where");
                reveal_strlit("slice");
                assert("where"@[0] != "slice"@[0]);
            }
            return read_slice(ps);
        }
    }
    let shown: String = debug_data(d);
    kind_error("unknown nav combinator ", shown.as_str())
}

fn named_nav(name: &str) -> (r: Result<Nav, Error>)
    ensures
        same_nav(r, plain_combinator(name@)),
{
    if text_eq(name, "all") {
        Ok(Nav::All)
    } else if text_eq(name, "keys") {
        Ok(Nav::Keys)
    } else if text_eq(name, "vals") {
        Ok(Nav::Values)
    } else if text_eq(name, "entries") {
        Ok(Nav::Entries)
    } else if text_eq(name, "first") {
        Ok(Nav::First)
    } else if text_eq(name, "last") {
        Ok(Nav::Last)
    } else {
        let shown: String = debug_text(name);
        kind_error("unknown nav combinator ", shown.as_str())
    }
}

/// The combinator that a tagged step spells, if it is one.
fn tagged_nav(step: &Data) -> (r: Result<Option<Nav>, Error>)
    ensures
        match (r, tagged_nav_of(step@)) {
            (Ok(Some(n)), Ok(Some(v))) => n@ == v,
            (Ok(None), Ok(None)) => true,
            (Err(e), Err(w)) => e@ == w,
            _ => false,
        },
{
    match step {
        Data::Tag(t, inner) => {
            if *t != 27 {
                return Ok(None);
            }
            let ghost iv = (**inner)@;
            match &**inner {
                Data::Array(parts) => {
                    proof {
                        lemma_items(*parts);
                    }
                    if parts.len() < 2 {
                        return Ok(None);
                    }
                    let ghost a = items_v(*parts)[0];
                    let ghost b = items_v(*parts)[1];
                    if !is_text(&parts[0], "nav") {
                        return Ok(None);
                    }
                    match &parts[1] {
                        Data::Text(name) => {
                            let n: Nav = named_nav(name.as_str())?;
                            Ok(Some(n))
                        },
                        Data::Array(ps) => {
                            proof {
                                lemma_items(*ps);
                            }
                            let n: Nav = param_nav(&parts[1], ps)?;
                            Ok(Some(n))
                        },
                        _ => Ok(None),
                    }
                },
                _ => Ok(None),
            }
        },
        _ => Ok(None),
    }
}

/// The step that plain data spells at a place of shape `shape`, and the shape
/// that it leads to.
pub open spec fn plain_nav(shape: ShapeV, step: DataV) -> Result<(NavV, ShapeV), ErrorV> {
    match shape {
        ShapeV::Record { fields } => match step {
            DataV::Text(name) => match field_in(shape, name) {
                Err(e) => Err(e),
                Ok((_, next)) => Ok((NavV::Field(name), next)),
            },
            _ => Err(ErrorV::Query("key/index on a "@ + kind_name_of(shape))),
        },
        ShapeV::Dict { of } => Ok((NavV::Key(step), *of)),
        ShapeV::List { of } => Ok((index_or_key(step), *of)),
        ShapeV::Deque { of } => Ok((index_or_key(step), *of)),
        ShapeV::Leaf => match step {
            DataV::Text(name) => Ok((NavV::Field(name), shape)),
            _ => Ok((NavV::Key(step), shape)),
        },
        ShapeV::Sum => match step {
            DataV::Text(name) => Err(
                ErrorV::Query("field "@ + debug_of_text(name) + " on a "@ + kind_name_of(shape)),
            ),
            _ => Err(ErrorV::Query("key/index on a "@ + kind_name_of(shape))),
        },
    }
}

/// An index where the data is one, else a key.
pub open spec fn index_or_key(step: DataV) -> NavV {
    match as_u64_of(step) {
        Some(i) => NavV::Index(i),
        None => NavV::Key(step),
    }
}

/// The step that data spells at a place of shape `shape`, and the shape that it
/// leads to.
pub open spec fn nav_for(shape: ShapeV, step: DataV) -> Result<(NavV, ShapeV), ErrorV> {
    match tagged_nav_of(step) {
        Err(e) => Err(e),
        Ok(Some(nav)) => match shape {
            ShapeV::Dict { of } => Ok(
                (
                    nav,
                    if nav is Keys {
                        ShapeV::Leaf
                    } else {
                        *of
                    },
                ),
            ),
            ShapeV::List { of } => Ok((nav, *of)),
            ShapeV::Deque { of } => Ok((nav, *of)),
            _ => Err(ErrorV::Query("nav combinator on a "@ + kind_name_of(shape))),
        },
        Ok(None) => plain_nav(shape, step),
    }
}

/// The first `n` steps that data spells, and the shape that they lead to.
pub open spec fn navs_spelled(schema: ShapeV, steps: Seq<DataV>, n: int) -> Result<
    (Seq<NavV>, ShapeV),
    ErrorV,
>
    decreases n,
{
    if n <= 0 || n > steps.len() {
        Ok((Seq::empty(), schema))
    } else {
        match navs_spelled(schema, steps, n - 1) {
            Err(e) => Err(e),
            Ok((navs, shape)) => match nav_for(shape, steps[n - 1]) {
                Err(e) => Err(e),
                Ok((nav, next)) => Ok((navs.push(nav), next)),
            },
        }
    }
}

fn index_nav(step: &Data) -> (r: Nav)
    ensures
        r@ == index_or_key(step@),
{
    match as_u64(step) {
        Some(i) => Nav::Index(i),
        None => Nav::Key(copy_data(step)),
    }
}

fn nav_step<'a>(shape: &'a Shape, leaf: &'a Shape, step: &Data) -> (r: Result<
    (Nav, &'a Shape),
    Error,
>)
    requires
        leaf@ is Leaf,
    ensures
        match (r, nav_for(shape@, step@)) {
            (Ok((n, s)), Ok((nv, sv))) => n@ == nv && s@ == sv,
            (Err(e), Err(w)) => e@ == w,
            _ => false,
        },
{
    if let Some(nav) = tagged_nav(step)? {
        return match shape {
            Shape::Dict { of } => {
                let keys: bool = match &nav {
                    Nav::Keys => true,
                    _ => false,
                };
                if keys {
                    Ok((nav, leaf))
                } else {
                    Ok((nav, &**of))
                }
            },
            Shape::List { of } => Ok((nav, &**of)),
            Shape::Deque { of } => Ok((nav, &**of)),
            _ => kind_error("nav combinator on a ", shape.kind_name()),
        };
    }
    match shape {
        Shape::Record { .. } => match step {
            Data::Text(name) => {
                let (_, next) = shape.field(name.as_str())?;
                Ok((Nav::Field(name.clone()), next))
            },
            _ => kind_error("key/index on a ", shape.kind_name()),
        },
        Shape::Dict { of } => Ok((Nav::Key(copy_data(step)), &**of)),
        Shape::List { of } => Ok((index_nav(step), &**of)),
        Shape::Deque { of } => Ok((index_nav(step), &**of)),
        Shape::Leaf => match step {
            Data::Text(name) => Ok((Nav::Field(name.clone()), shape)),
            _ => Ok((Nav::Key(copy_data(step)), shape)),
        },
        Shape::Sum => match step {
            Data::Text(name) => field_error(name.as_str(), shape.kind_name()),
            _ => kind_error("key/index on a ", shape.kind_name()),
        },
    }
}

proof fn lemma_spelled_err(schema: ShapeV, steps: Seq<DataV>, i: int, n: int)
    requires
        0 <= i <= n <= steps.len(),
        navs_spelled(schema, steps, i) is Err,
    ensures
        navs_spelled(schema, steps, n) == navs_spelled(schema, steps, i),
    decreases n,
{
    if i < n {
        lemma_spelled_err(schema, steps, i, n - 1);
    }
}

/// The steps that `steps` spell under `schema`: a text at a record or inside a
/// leaf is a field, anything at a map is a key, a whole number at a list or a
/// deque is an index, and a tagged `nav` is a combinator.
pub fn navs_for(schema: &Shape, steps: &Vec<Data>) -> (r: Result<Vec<Nav>, Error>)
    ensures
        match (r, navs_spelled(schema@, items_v(*steps), steps@.len() as int)) {
            (Ok(n), Ok((nv, _))) => navs_v(n) == nv,
            (Err(e), Err(w)) => e@ == w,
            _ => false,
        },
{
    let ghost sv = items_v(*steps);
    let leaf: Shape = Shape::Leaf;
    let mut shape: &Shape = schema;
    let mut out: Vec<Nav> = Vec::new();
    let mut i: usize = 0;
    proof {
        lemma_items(*steps);
        lemma_navs(out);
        assert(navs_v(out) =~= Seq::<NavV>::empty());
    }
    while i < steps.len()
        invariant
            i <= steps@.len(),
            sv == items_v(*steps),
            sv.len() == steps@.len(),
            leaf@ is Leaf,
            forall|j: int| 0 <= j < sv.len() ==> #[trigger] sv[j] == steps@[j]@,
            navs_spelled(schema@, sv, i as int) == Ok::<(Seq<NavV>, ShapeV), ErrorV>(
                (navs_v(out), shape@),
            ),
        decreases steps@.len() - i,
    {
        let ghost x = sv[i as int];
        match nav_step(shape, &leaf, &steps[i]) {
            Err(e) => {
                proof {
                    lemma_spelled_err(schema@, sv, i + 1, sv.len() as int);
                }
                return Err(e);
            },
            Ok((nav, next)) => {
                let ghost before = out;
                out.push(nav);
                shape = next;
                proof {
                    lemma_navs_push(before, out, nav);
                }
            },
        }
        i = i + 1;
    }
    Ok(out)
}

/// The integer that `d` is exactly. The float 2 to the 63rd, which comes nearest
/// to the greatest integer, is none.
pub open spec fn exact_i64(d: DataV) -> Option<i64> {
    if d == DataV::Float(0x43e0_0000_0000_0000) {
        None
    } else {
        as_i64_of(d)
    }
}

/// The stored form of a number put or added to a sum: a whole number as an
/// integer, another as a float.
pub open spec fn sum_value(d: DataV) -> Result<Seq<u8>, ErrorV> {
    match exact_i64(d) {
        Some(i) => Ok(sum_bytes(1, twos(i as int))),
        None => match d {
            DataV::Float(b) => Ok(sum_bytes(0, b)),
            _ => Err(ErrorV::Query("Sum value must be numeric, got "@ + debug_of_data(d))),
        },
    }
}

fn encode_sum_value(d: &Data) -> (r: Result<Vec<u8>, Error>)
    ensures
        match (r, sum_value(d@)) {
            (Ok(b), Ok(v)) => b@ == v,
            (Err(e), Err(w)) => e@ == w,
            _ => false,
        },
{
    let beyond: bool = match d {
        Data::Float(b) => *b == 0x43e0_0000_0000_0000,
        _ => false,
    };
    match as_i64(d) {
        Some(i) if !beyond => Ok(encode_sum::<i64>(i)),
        _ => match d {
            Data::Float(b) => Ok(encode_sum::<Real>(Real(*b))),
            _ => {
                let shown: String = debug_data(d);
                kind_error("Sum value must be numeric, got ", shown.as_str())
            },
        },
    }
}

/// The writes that put `d` at `prefix`: a record is put field by field, a sum
/// is set exactly. A field that `d` lacks is put as null where it is a leaf and
/// else left alone.
pub open spec fn put_ops(prefix: Seq<u8>, shape: ShapeV, d: DataV) -> Result<Seq<OpV>, ErrorV>
    decreases shape, 0int, 0int,
{
    match shape {
        ShapeV::Leaf => Ok(
            seq![OpV::Put { key: prefix, value: crate::data::cbor_bytes(d) }],
        ),
        ShapeV::Sum => match sum_value(d) {
            Err(e) => Err(e),
            Ok(b) => Ok(seq![OpV::Put { key: prefix, value: b }]),
        },
        ShapeV::Record { fields } => put_fields(prefix, fields, d, fields.len() as int),
        _ => Err(
            ErrorV::Query(
                "put on a "@ + kind_name_of(shape) + " — put each entry, or clear + push"@,
            ),
        ),
    }
}

/// The writes of the first `n` fields.
pub open spec fn put_fields(
    prefix: Seq<u8>,
    fields: Seq<(Seq<char>, ShapeV)>,
    d: DataV,
    n: int,
) -> Result<Seq<OpV>, ErrorV>
    decreases fields, 1int, n,
{
    if n <= 0 || n > fields.len() {
        Ok(Seq::empty())
    } else {
        match put_fields(prefix, fields, d, n - 1) {
            Err(e) => Err(e),
            Ok(ops) => {
                let v = item_get(d, DataV::Text(fields[n - 1].0));
                if v is Null && !(fields[n - 1].1 is Leaf) {
                    Ok(ops)
                } else {
                    match put_ops(field_key(prefix, n - 1), fields[n - 1].1, v) {
                        Err(e) => Err(e),
                        Ok(more) => Ok(ops + more),
                    }
                }
            },
        }
    }
}

/// The writes made are those that the model says.
pub open spec fn same_writes(r: Result<Vec<Write>, Error>, s: Result<Seq<OpV>, ErrorV>) -> bool {
    match (r, s) {
        (Ok(w), Ok(v)) => writes_v(w@) == v,
        (Err(e), Err(w)) => e@ == w,
        _ => false,
    }
}

/// The write made is the one that the model says.
pub open spec fn same_write(r: Result<Write, Error>, s: Result<OpV, ErrorV>) -> bool {
    match (r, s) {
        (Ok(w), Ok(v)) => w@ == v,
        (Err(e), Err(w)) => e@ == w,
        _ => false,
    }
}

fn one_put(key: &[u8], value: Vec<u8>) -> (r: Vec<Write>)
    ensures
        writes_v(r@) == seq![OpV::Put { key: key@, value: value@ }],
{
    let mut out: Vec<Write> = Vec::new();
    out.push(Write::new(Op::Put { key: crate::bytes::copy_bytes(key), value }));
    assert(writes_v(out@) =~= seq![OpV::Put { key: key@, value: value@ }]);
    out
}

proof fn lemma_put_fields_err(
    prefix: Seq<u8>,
    fields: Seq<(Seq<char>, ShapeV)>,
    d: DataV,
    i: int,
    n: int,
)
    requires
        0 <= i <= n <= fields.len(),
        put_fields(prefix, fields, d, i) is Err,
    ensures
        put_fields(prefix, fields, d, n) == put_fields(prefix, fields, d, i),
    decreases n,
{
    if i < n {
        lemma_put_fields_err(prefix, fields, d, i, n - 1);
    }
}

fn put_at(prefix: &[u8], shape: &Shape, d: &Data) -> (r: Result<Vec<Write>, Error>)
    ensures
        same_writes(r, put_ops(prefix@, shape@, d@)),
    decreases shape, 0int,
{
    match shape {
        Shape::Leaf => Ok(one_put(prefix, encode(d))),
        Shape::Sum => {
            let b: Vec<u8> = encode_sum_value(d)?;
            Ok(one_put(prefix, b))
        },
        Shape::Record { fields } => {
            proof {
                lemma_fields(*fields);
            }
            put_record(prefix, fields, d)
        },
        _ => {
            let mut m: String = "put on a ".to_owned();
            m.append(shape.kind_name());
            m.append(" — put each entry, or clear + push");
            Err(Error::Query(m))
        },
    }
}

fn put_record(prefix: &[u8], fields: &Vec<(String, Shape)>, d: &Data) -> (r: Result<
    Vec<Write>,
    Error,
>)
    ensures
        same_writes(r, put_fields(prefix@, fields_v(*fields), d@, fields@.len() as int)),
    decreases fields, 1int,
{
    let ghost fv = fields_v(*fields);
    let mut out: Vec<Write> = Vec::new();
    let mut i: usize = 0;
    proof {
        lemma_fields(*fields);
        assert(writes_v(out@) =~= Seq::<OpV>::empty());
    }
    while i < fields.len()
        invariant
            i <= fields@.len(),
            fv == fields_v(*fields),
            fv.len() == fields@.len(),
            forall|j: int|
                0 <= j < fields@.len() ==> #[trigger] fv[j] == (fields@[j].0@, fields@[j].1@),
            put_fields(prefix@, fv, d@, i as int) == Ok::<Seq<OpV>, ErrorV>(writes_v(out@)),
        decreases fields@.len() - i,
    {
        let ghost x = fv[i as int];
        let v: Data = field_get(d, fields[i].0.as_str());
        let null: bool = match &v {
            Data::Null => true,
            _ => false,
        };
        let leaf: bool = match &fields[i].1 {
            Shape::Leaf => true,
            _ => false,
        };
        if !null || leaf {
            let seg: Vec<u8> = field_segment(i as u32);
            let child: Vec<u8> = child_key(prefix, seg.as_slice());
            match put_at(child.as_slice(), &fields[i].1, &v) {
                Err(e) => {
                    proof {
                        lemma_put_fields_err(prefix@, fv, d@, i + 1, fv.len() as int);
                    }
                    return Err(e);
                },
                Ok(mut more) => {
                    let ghost before = out@;
                    let ghost mv = more@;
                    out.append(&mut more);
                    assert(writes_v(out@) =~= writes_v(before) + writes_v(mv));
                },
            }
        }
        i = i + 1;
    }
    Ok(out)
}

/// The writes that put `d` where `navs` leads.
pub open spec fn put_of(schema: ShapeV, ns: Option<Seq<char>>, navs: Seq<NavV>, d: DataV) -> Result<
    Seq<OpV>,
    ErrorV,
> {
    match place_of(schema, ns, navs) {
        Err(e) => Err(e),
        Ok((prefix, shape)) => put_ops(prefix, shape, d),
    }
}

/// The write that deletes where `navs` leads: one key of a leaf or a sum, else
/// all that lies under it.
pub open spec fn delete_of(schema: ShapeV, ns: Option<Seq<char>>, navs: Seq<NavV>) -> Result<
    OpV,
    ErrorV,
> {
    match place_of(schema, ns, navs) {
        Err(e) => Err(e),
        Ok((prefix, shape)) => if shape is Leaf || shape is Sum {
            Ok(OpV::Delete { key: prefix })
        } else {
            Ok(OpV::DeletePrefix { prefix })
        },
    }
}

/// The write that adds `d` to the sum where `navs` leads.
pub open spec fn add_of(schema: ShapeV, ns: Option<Seq<char>>, navs: Seq<NavV>, d: DataV) -> Result<
    OpV,
    ErrorV,
> {
    match place_of(schema, ns, navs) {
        Err(e) => Err(e),
        Ok((prefix, shape)) => if shape is Sum {
            match sum_value(d) {
                Err(e) => Err(e),
                Ok(b) => Ok(OpV::Merge { key: prefix, value: b }),
            }
        } else {
            Err(ErrorV::Query("add requires Sum, got "@ + kind_name_of(shape)))
        },
    }
}

/// The write that appends `d` to the list or deque of leaves where `navs`
/// leads.
pub open spec fn push_of(schema: ShapeV, ns: Option<Seq<char>>, navs: Seq<NavV>, d: DataV) -> Result<
    OpV,
    ErrorV,
> {
    match place_of(schema, ns, navs) {
        Err(e) => Err(e),
        Ok((prefix, shape)) => match shape {
            ShapeV::List { of } => if *of is Leaf {
                Ok(OpV::ListPush { prefix, value: crate::data::cbor_bytes(d) })
            } else {
                Err(push_error(shape))
            },
            ShapeV::Deque { of } => if *of is Leaf {
                Ok(OpV::DequePushBack { prefix, value: crate::data::cbor_bytes(d) })
            } else {
                Err(push_error(shape))
            },
            _ => Err(push_error(shape)),
        },
    }
}

pub open spec fn push_error(shape: ShapeV) -> ErrorV {
    ErrorV::Query("push requires List<Leaf> or Deque<Leaf>, got "@ + kind_name_of(shape))
}

/// The write that deletes all that lies where `navs` leads.
pub open spec fn clear_of(schema: ShapeV, ns: Option<Seq<char>>, navs: Seq<NavV>) -> Result<
    OpV,
    ErrorV,
> {
    match place_of(schema, ns, navs) {
        Err(e) => Err(e),
        Ok((prefix, _)) => Ok(OpV::DeletePrefix { prefix }),
    }
}

/// Put `value` where `navs` leads.
pub fn put(schema: &Shape, namespace: Option<&str>, navs: &Vec<Nav>, value: &Data) -> (r: Result<
    Vec<Write>,
    Error,
>)
    ensures
        same_writes(r, put_of(schema@, name_v(namespace), navs_v(*navs), value@)),
{
    let at: Location<'_> = resolve(schema, namespace, navs)?;
    put_at(at.prefix.as_slice(), at.shape, value)
}

/// Delete where `navs` leads.
pub fn delete(schema: &Shape, namespace: Option<&str>, navs: &Vec<Nav>) -> (r: Result<Write, Error>)
    ensures
        same_write(r, delete_of(schema@, name_v(namespace), navs_v(*navs))),
{
    let at: Location<'_> = resolve(schema, namespace, navs)?;
    match at.shape {
        Shape::Leaf | Shape::Sum => Ok(Write::new(Op::Delete { key: at.prefix })),
        _ => Ok(Write::new(Op::DeletePrefix { prefix: at.prefix })),
    }
}

/// Add to the sum where `navs` leads.
pub fn add(schema: &Shape, namespace: Option<&str>, navs: &Vec<Nav>, delta: &Data) -> (r: Result<
    Write,
    Error,
>)
    ensures
        same_write(r, add_of(schema@, name_v(namespace), navs_v(*navs), delta@)),
{
    let at: Location<'_> = resolve(schema, namespace, navs)?;
    match at.shape {
        Shape::Sum => {
            let value: Vec<u8> = encode_sum_value(delta)?;
            Ok(Write::new(Op::Merge { key: at.prefix, value }))
        },
        _ => kind_error("add requires Sum, got ", at.shape.kind_name()),
    }
}

/// Append to the list or deque of leaves where `navs` leads.
pub fn push(schema: &Shape, namespace: Option<&str>, navs: &Vec<Nav>, value: &Data) -> (r: Result<
    Write,
    Error,
>)
    ensures
        same_write(r, push_of(schema@, name_v(namespace), navs_v(*navs), value@)),
{
    let at: Location<'_> = resolve(schema, namespace, navs)?;
    match at.shape {
        Shape::List { of } => if is_leaf(of) {
            Ok(Write::new(Op::ListPush { prefix: at.prefix, value: encode(value) }))
        } else {
            kind_error("push requires List<Leaf> or Deque<Leaf>, got ", at.shape.kind_name())
        },
        Shape::Deque { of } => if is_leaf(of) {
            Ok(Write::new(Op::DequePushBack { prefix: at.prefix, value: encode(value) }))
        } else {
            kind_error("push requires List<Leaf> or Deque<Leaf>, got ", at.shape.kind_name())
        },
        _ => kind_error("push requires List<Leaf> or Deque<Leaf>, got ", at.shape.kind_name()),
    }
}

/// Delete all that lies where `navs` leads.
pub fn clear(schema: &Shape, namespace: Option<&str>, navs: &Vec<Nav>) -> (r: Result<Write, Error>)
    ensures
        same_write(r, clear_of(schema@, name_v(namespace), navs_v(*navs))),
{
    let at: Location<'_> = resolve(schema, namespace, navs)?;
    Ok(Write::new(Op::DeletePrefix { prefix: at.prefix }))
}

/// The committed item where `navs` leads.
pub open spec fn peeked(
    f: Seq<FactV>,
    s: Seq<RowV>,
    schema: ShapeV,
    ns: Option<Seq<char>>,
    navs: Seq<NavV>,
) -> Result<DataV, ErrorV> {
    let q = QueryV { namespace: ns, navs };
    if query_collects(q) {
        Err(ErrorV::Query("peek requires a point path"@))
    } else {
        match one_of(f, s, schema, q) {
            Err(e) => Err(e),
            Ok(Some(v)) => Ok(v),
            Ok(None) => subtree_of(f, s, schema, q),
        }
    }
}

/// Read the committed item where `navs` leads.
pub fn peek(
    floats: &FloatTable,
    db: &Db,
    schema: &Shape,
    namespace: Option<&str>,
    navs: &Vec<Nav>,
) -> (r: Result<Data, Error>)
    ensures
        same_data(r, peeked(floats@, db@, schema@, name_v(namespace), navs_v(*navs))),
{
    let ns: Option<String> = match namespace {
        Some(s) => Some(s.to_owned()),
        None => None,
    };
    let q = Query { namespace: ns, navs: copy_navs(navs) };
    assert(q@ == QueryV { namespace: name_v(namespace), navs: navs_v(*navs) });
    if q.is_collecting() {
        return query_error("peek requires a point path");
    }
    match one(floats, db, schema, &q)? {
        Some(v) => Ok(v),
        None => subtree(floats, db, schema, &q),
    }
}

} // verus!
