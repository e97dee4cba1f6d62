//! The read language: navigation steps, predicates and expressions, as data.
//!
//! A query is a closed algebra: field, key and index steps, collection
//! combinators, and a predicate language. No callables, so that any language on
//! the other side of a serialization boundary can build it.

use crate::data::{
    array1, array2, array3, cbor_bytes, cbor_read, copy_data, decode, encode, items_v, lemma_items,
    lemma_items_push, Data, DataV,
};
use crate::error::{query_error, Error, ErrorV};
use crate::float::{short, FactV, FloatTable};
use crate::text::{debug_of_text, debug_text, dec, dec_int, dec_u64};
use crate::value::{Ask, AskV};
use vstd::prelude::*;
use vstd::string::*;

verus! {

/// One navigation step.
#[derive(Debug)]
pub enum Nav {
    Field(String),
    Key(Data),
    Index(u64),
    All,
    Values,
    Keys,
    Entries,
    Where(Predicate),
    First,
    Last,
    Slice { start: Option<u64>, end: Option<u64> },
}

/// How two expressions are compared.
#[derive(Clone, Copy, Debug, PartialEq, Eq, Structural)]
pub enum Relation {
    Eq,
    Ne,
    Lt,
    Le,
    Gt,
    Ge,
}

/// Boolean test over a focused value. No embedded code.
#[derive(Debug)]
pub enum Predicate {
    Compare(Relation, Expr, Expr),
    And(Vec<Predicate>),
    Or(Vec<Predicate>),
    Not(Box<Predicate>),
    Exists(Vec<Nav>),
}

/// A value in a predicate: a field of the current item, a literal, or a path.
#[derive(Debug)]
pub enum Expr {
    Field(String),
    Lit(Data),
    Path(Vec<Nav>),
}

pub enum NavV {
    Field(Seq<char>),
    Key(DataV),
    Index(u64),
    All,
    Values,
    Keys,
    Entries,
    Where(Box<PredicateV>),
    First,
    Last,
    Slice { start: Option<u64>, end: Option<u64> },
}

pub enum PredicateV {
    Compare(Relation, ExprV, ExprV),
    And(Seq<PredicateV>),
    Or(Seq<PredicateV>),
    Not(Box<PredicateV>),
    Exists(Seq<NavV>),
}

pub enum ExprV {
    Field(Seq<char>),
    Lit(DataV),
    Path(Seq<NavV>),
}

/// The first `n` steps of a list.
pub open spec fn first_navs(v: Vec<Nav>, n: int) -> Seq<NavV>
    decreases v, n,
{
    if n <= 0 || n > v@.len() {
        Seq::empty()
    } else {
        first_navs(v, n - 1).push(v@[n - 1]@)
    }
}

/// The first `n` predicates of a list.
pub open spec fn first_preds(v: Vec<Predicate>, n: int) -> Seq<PredicateV>
    decreases v, n,
{
    if n <= 0 || n > v@.len() {
        Seq::empty()
    } else {
        first_preds(v, n - 1).push(v@[n - 1]@)
    }
}

/// The steps of a list.
pub open spec fn navs_v(v: Vec<Nav>) -> Seq<NavV> {
    first_navs(v, v@.len() as int)
}

/// The predicates of a list.
pub open spec fn preds_v(v: Vec<Predicate>) -> Seq<PredicateV> {
    first_preds(v, v@.len() as int)
}

impl View for Nav {
    type V = NavV;

    open spec fn view(&self) -> NavV
        decreases self, 0int,
    {
        match *self {
            Nav::Field(n) => NavV::Field(n@),
            Nav::Key(d) => NavV::Key(d@),
            Nav::Index(i) => NavV::Index(i),
            Nav::All => NavV::All,
            Nav::Values => NavV::Values,
            Nav::Keys => NavV::Keys,
            Nav::Entries => NavV::Entries,
            Nav::Where(p) => NavV::Where(Box::new(p@)),
            Nav::First => NavV::First,
            Nav::Last => NavV::Last,
            Nav::Slice { start, end } => NavV::Slice { start, end },
        }
    }
}

impl View for Predicate {
    type V = PredicateV;

    open spec fn view(&self) -> PredicateV
        decreases self, 0int,
    {
        match *self {
            Predicate::Compare(r, a, b) => PredicateV::Compare(r, a@, b@),
            Predicate::And(ps) => PredicateV::And(first_preds(ps, ps@.len() as int)),
            Predicate::Or(ps) => PredicateV::Or(first_preds(ps, ps@.len() as int)),
            Predicate::Not(p) => PredicateV::Not(Box::new((*p)@)),
            Predicate::Exists(ns) => PredicateV::Exists(first_navs(ns, ns@.len() as int)),
        }
    }
}

impl View for Expr {
    type V = ExprV;

    open spec fn view(&self) -> ExprV
        decreases self, 0int,
    {
        match *self {
            Expr::Field(n) => ExprV::Field(n@),
            Expr::Lit(d) => ExprV::Lit(d@),
            Expr::Path(ns) => ExprV::Path(first_navs(ns, ns@.len() as int)),
        }
    }
}

proof fn lemma_first_navs(v: Vec<Nav>, n: int)
    requires
        0 <= n <= v@.len(),
    ensures
        first_navs(v, n).len() == n,
        forall|i: int| 0 <= i < n ==> #[trigger] first_navs(v, n)[i] == v@[i]@,
    decreases n,
{
    reveal_with_fuel(first_navs, 2);
    if n > 0 {
        lemma_first_navs(v, n - 1);
        assert(first_navs(v, n) == first_navs(v, n - 1).push(v@[n - 1]@));
    }
}

proof fn lemma_first_preds(v: Vec<Predicate>, n: int)
    requires
        0 <= n <= v@.len(),
    ensures
        first_preds(v, n).len() == n,
        forall|i: int| 0 <= i < n ==> #[trigger] first_preds(v, n)[i] == v@[i]@,
    decreases n,
{
    reveal_with_fuel(first_preds, 2);
    if n > 0 {
        lemma_first_preds(v, n - 1);
        assert(first_preds(v, n) == first_preds(v, n - 1).push(v@[n - 1]@));
    }
}

/// The view of a list holds the views of its steps.
pub proof fn lemma_navs(v: Vec<Nav>)
    ensures
        navs_v(v).len() == v@.len(),
        forall|i: int| 0 <= i < v@.len() ==> #[trigger] navs_v(v)[i] == v@[i]@,
{
    lemma_first_navs(v, v@.len() as int);
}

/// The view of a list holds the views of its predicates.
pub proof fn lemma_preds(v: Vec<Predicate>)
    ensures
        preds_v(v).len() == v@.len(),
        forall|i: int| 0 <= i < v@.len() ==> #[trigger] preds_v(v)[i] == v@[i]@,
{
    lemma_first_preds(v, v@.len() as int);
}

/// A step pushed to a list is pushed to its view.
pub proof fn lemma_navs_push(v: Vec<Nav>, w: Vec<Nav>, x: Nav)
    requires
        w@ == v@.push(x),
    ensures
        navs_v(w) == navs_v(v).push(x@),
{
    lemma_navs(v);
    lemma_navs(w);
    assert forall|i: int| 0 <= i < w@.len() implies navs_v(w)[i] == navs_v(v).push(x@)[i] by {
        assert(navs_v(w)[i] == w@[i]@);
        if i < v@.len() {
            assert(navs_v(v)[i] == v@[i]@);
        }
    }
    assert(navs_v(w) =~= navs_v(v).push(x@));
}

proof fn lemma_preds_push(v: Vec<Predicate>, w: Vec<Predicate>, x: Predicate)
    requires
        w@ == v@.push(x),
    ensures
        preds_v(w) == preds_v(v).push(x@),
{
    lemma_preds(v);
    lemma_preds(w);
    assert forall|i: int| 0 <= i < w@.len() implies preds_v(w)[i] == preds_v(v).push(x@)[i] by {
        assert(preds_v(w)[i] == w@[i]@);
        if i < v@.len() {
            assert(preds_v(v)[i] == v@[i]@);
        }
    }
    assert(preds_v(w) =~= preds_v(v).push(x@));
}

/// A namespaced navigation. What is collected is chosen by the function that
/// runs it.
#[derive(Debug)]
pub struct Query {
    pub namespace: Option<String>,
    pub navs: Vec<Nav>,
}

pub struct QueryV {
    pub namespace: Option<Seq<char>>,
    pub navs: Seq<NavV>,
}

impl View for Query {
    type V = QueryV;

    open spec fn view(&self) -> QueryV {
        QueryV {
            namespace: match self.namespace {
                Some(n) => Some(n@),
                None => None,
            },
            navs: navs_v(self.navs),
        }
    }
}

/// The step can lead to several places.
pub open spec fn collecting(n: NavV) -> bool {
    n is All || n is Values || n is Keys || n is Entries || n is Where || n is Slice
}

/// Some step of the query can lead to several places.
pub open spec fn query_collects(q: QueryV) -> bool {
    exists|i: int| 0 <= i < q.navs.len() && collecting(#[trigger] q.navs[i])
}

/// The tagged-array form of an optional bound.
pub open spec fn bound_wire(n: Option<u64>) -> DataV {
    match n {
        Some(n) => DataV::UInt(n),
        None => DataV::Null,
    }
}

/// The tagged-array form of a step.
pub open spec fn nav_wire(n: NavV) -> DataV
    decreases n, 0int,
{
    match n {
        NavV::Field(s) => DataV::Array(seq![DataV::UInt(0), DataV::Text(s)]),
        NavV::Key(d) => DataV::Array(seq![DataV::UInt(1), d]),
        NavV::Index(i) => DataV::Array(seq![DataV::UInt(2), DataV::UInt(i)]),
        NavV::All => DataV::Array(seq![DataV::UInt(3)]),
        NavV::Values => DataV::Array(seq![DataV::UInt(4)]),
        NavV::Keys => DataV::Array(seq![DataV::UInt(5)]),
        NavV::Entries => DataV::Array(seq![DataV::UInt(6)]),
        NavV::Where(p) => DataV::Array(seq![DataV::UInt(7), pred_wire(*p)]),
        NavV::First => DataV::Array(seq![DataV::UInt(8)]),
        NavV::Last => DataV::Array(seq![DataV::UInt(9)]),
        NavV::Slice { start, end } => DataV::Array(
            seq![DataV::UInt(10), bound_wire(start), bound_wire(end)],
        ),
    }
}

/// The number of a relation.
pub open spec fn relation_tag(r: Relation) -> u64 {
    match r {
        Relation::Eq => 0,
        Relation::Ne => 1,
        Relation::Lt => 2,
        Relation::Le => 3,
        Relation::Gt => 4,
        Relation::Ge => 5,
    }
}

/// The tagged-array form of a predicate.
pub open spec fn pred_wire(p: PredicateV) -> DataV
    decreases p, 0int,
{
    match p {
        PredicateV::Compare(r, a, b) => DataV::Array(
            seq![DataV::UInt(relation_tag(r)), expr_wire(a), expr_wire(b)],
        ),
        PredicateV::And(ps) => DataV::Array(
            seq![DataV::UInt(6), DataV::Array(preds_wire(ps, ps.len() as int))],
        ),
        PredicateV::Or(ps) => DataV::Array(
            seq![DataV::UInt(7), DataV::Array(preds_wire(ps, ps.len() as int))],
        ),
        PredicateV::Not(p) => DataV::Array(seq![DataV::UInt(8), pred_wire(*p)]),
        PredicateV::Exists(ns) => DataV::Array(
            seq![DataV::UInt(9), DataV::Array(navs_wire(ns, ns.len() as int))],
        ),
    }
}

/// The tagged-array form of an expression.
pub open spec fn expr_wire(e: ExprV) -> DataV
    decreases e, 0int,
{
    match e {
        ExprV::Field(s) => DataV::Array(seq![DataV::UInt(0), DataV::Text(s)]),
        ExprV::Lit(d) => DataV::Array(seq![DataV::UInt(1), d]),
        ExprV::Path(ns) => DataV::Array(
            seq![DataV::UInt(2), DataV::Array(navs_wire(ns, ns.len() as int))],
        ),
    }
}

/// The forms of the first `n` steps.
pub open spec fn navs_wire(ns: Seq<NavV>, n: int) -> Seq<DataV>
    decreases ns, n,
{
    if n <= 0 || n > ns.len() {
        Seq::empty()
    } else {
        navs_wire(ns, n - 1).push(nav_wire(ns[n - 1]))
    }
}

/// The forms of the first `n` predicates.
pub open spec fn preds_wire(ps: Seq<PredicateV>, n: int) -> Seq<DataV>
    decreases ps, n,
{
    if n <= 0 || n > ps.len() {
        Seq::empty()
    } else {
        preds_wire(ps, n - 1).push(pred_wire(ps[n - 1]))
    }
}

/// The tagged-array form of a query.
pub open spec fn query_wire(q: QueryV) -> DataV {
    DataV::Array(
        seq![
            match q.namespace {
                Some(s) => DataV::Text(s),
                None => DataV::Null,
            },
            DataV::Array(navs_wire(q.navs, q.navs.len() as int)),
        ],
    )
}

/// The item `i` as an unsigned integer.
pub open spec fn uint_at(items: Seq<DataV>, i: int) -> Option<u64> {
    if i < items.len() {
        match items[i] {
            DataV::UInt(n) => Some(n),
            _ => None,
        }
    } else {
        None
    }
}

/// The step that a tagged array stands for.
pub open spec fn nav_of(d: DataV) -> Result<NavV, ErrorV>
    decreases d, 0int,
{
    match d {
        DataV::Array(items) => match uint_at(items, 0) {
            None => Err(ErrorV::Query("nav missing tag"@)),
            Some(tag) => if tag == 0 {
                if items.len() > 1 && items[1] is Text {
                    Ok(NavV::Field(items[1]->Text_0))
                } else {
                    Err(ErrorV::Query("Field needs a name"@))
                }
            } else if tag == 1 {
                if items.len() > 1 {
                    Ok(NavV::Key(items[1]))
                } else {
                    Err(ErrorV::Query("Key needs a value"@))
                }
            } else if tag == 2 {
                match uint_at(items, 1) {
                    Some(i) => Ok(NavV::Index(i)),
                    None => Err(ErrorV::Query("Index needs a u64"@)),
                }
            } else if tag == 3 {
                Ok(NavV::All)
            } else if tag == 4 {
                Ok(NavV::Values)
            } else if tag == 5 {
                Ok(NavV::Keys)
            } else if tag == 6 {
                Ok(NavV::Entries)
            } else if tag == 7 {
                if items.len() > 1 {
                    match pred_of(items[1]) {
                        Ok(p) => Ok(NavV::Where(Box::new(p))),
                        Err(e) => Err(e),
                    }
                } else {
                    Err(ErrorV::Query("Where needs a predicate"@))
                }
            } else if tag == 8 {
                Ok(NavV::First)
            } else if tag == 9 {
                Ok(NavV::Last)
            } else if tag == 10 {
                Ok(NavV::Slice { start: uint_at(items, 1), end: uint_at(items, 2) })
            } else {
                Err(ErrorV::Query("unknown nav tag "@ + dec(tag as nat)))
            },
        },
        _ => Err(ErrorV::Query("nav must be a tagged array"@)),
    }
}

/// The relation with a number below 6.
pub open spec fn relation_of(tag: u64) -> Relation {
    if tag == 0 {
        Relation::Eq
    } else if tag == 1 {
        Relation::Ne
    } else if tag == 2 {
        Relation::Lt
    } else if tag == 3 {
        Relation::Le
    } else if tag == 4 {
        Relation::Gt
    } else {
        Relation::Ge
    }
}

/// The predicate that a tagged array stands for.
pub open spec fn pred_of(d: DataV) -> Result<PredicateV, ErrorV>
    decreases d, 0int,
{
    match d {
        DataV::Array(items) => match uint_at(items, 0) {
            None => Err(ErrorV::Query("predicate missing tag"@)),
            Some(tag) => if tag < 6 {
                if items.len() < 2 {
                    Err(ErrorV::Query("missing lhs"@))
                } else {
                    match expr_of(items[1]) {
                        Err(e) => Err(e),
                        Ok(a) => if items.len() < 3 {
                            Err(ErrorV::Query("missing rhs"@))
                        } else {
                            match expr_of(items[2]) {
                                Err(e) => Err(e),
                                Ok(b) => Ok(PredicateV::Compare(relation_of(tag), a, b)),
                            }
                        },
                    }
                }
            } else if tag == 6 {
                if items.len() > 1 && items[1] is Array {
                    match preds_of(items[1]->Array_0, items[1]->Array_0.len() as int) {
                        Ok(ps) => Ok(PredicateV::And(ps)),
                        Err(e) => Err(e),
                    }
                } else {
                    Err(ErrorV::Query("And needs a list"@))
                }
            } else if tag == 7 {
                if items.len() > 1 && items[1] is Array {
                    match preds_of(items[1]->Array_0, items[1]->Array_0.len() as int) {
                        Ok(ps) => Ok(PredicateV::Or(ps)),
                        Err(e) => Err(e),
                    }
                } else {
                    Err(ErrorV::Query("Or needs a list"@))
                }
            } else if tag == 8 {
                if items.len() > 1 {
                    match pred_of(items[1]) {
                        Ok(p) => Ok(PredicateV::Not(Box::new(p))),
                        Err(e) => Err(e),
                    }
                } else {
                    Err(ErrorV::Query("Not needs a predicate"@))
                }
            } else if tag == 9 {
                if items.len() > 1 && items[1] is Array {
                    match navs_of(items[1]->Array_0, items[1]->Array_0.len() as int) {
                        Ok(ns) => Ok(PredicateV::Exists(ns)),
                        Err(e) => Err(e),
                    }
                } else {
                    Err(ErrorV::Query("Exists needs a path"@))
                }
            } else {
                Err(ErrorV::Query("unknown predicate tag "@ + dec(tag as nat)))
            },
        },
        _ => Err(ErrorV::Query("predicate must be a tagged array"@)),
    }
}

/// The expression that a tagged array stands for.
pub open spec fn expr_of(d: DataV) -> Result<ExprV, ErrorV>
    decreases d, 0int,
{
    match d {
        DataV::Array(items) => match uint_at(items, 0) {
            None => Err(ErrorV::Query("expr missing tag"@)),
            Some(tag) => if tag == 0 {
                if items.len() > 1 && items[1] is Text {
                    Ok(ExprV::Field(items[1]->Text_0))
                } else {
                    Err(ErrorV::Query("Field expr needs a name"@))
                }
            } else if tag == 1 {
                if items.len() > 1 {
                    Ok(ExprV::Lit(items[1]))
                } else {
                    Err(ErrorV::Query("Lit needs a value"@))
                }
            } else if tag == 2 {
                if items.len() > 1 && items[1] is Array {
                    match navs_of(items[1]->Array_0, items[1]->Array_0.len() as int) {
                        Ok(ns) => Ok(ExprV::Path(ns)),
                        Err(e) => Err(e),
                    }
                } else {
                    Err(ErrorV::Query("Path expr needs navs"@))
                }
            } else {
                Err(ErrorV::Query("unknown expr tag "@ + dec(tag as nat)))
            },
        },
        _ => Err(ErrorV::Query("expr must be a tagged array"@)),
    }
}

/// The first `n` steps.
pub open spec fn navs_of(ds: Seq<DataV>, n: int) -> Result<Seq<NavV>, ErrorV>
    decreases ds, 1int, n,
{
    if n <= 0 || n > ds.len() {
        Ok(Seq::empty())
    } else {
        match navs_of(ds, n - 1) {
            Err(e) => Err(e),
            Ok(ns) => match nav_of(ds[n - 1]) {
                Err(e) => Err(e),
                Ok(x) => Ok(ns.push(x)),
            },
        }
    }
}

/// The first `n` predicates.
pub open spec fn preds_of(ds: Seq<DataV>, n: int) -> Result<Seq<PredicateV>, ErrorV>
    decreases ds, 1int, n,
{
    if n <= 0 || n > ds.len() {
        Ok(Seq::empty())
    } else {
        match preds_of(ds, n - 1) {
            Err(e) => Err(e),
            Ok(ps) => match pred_of(ds[n - 1]) {
                Err(e) => Err(e),
                Ok(x) => Ok(ps.push(x)),
            },
        }
    }
}

/// The query that `[namespace, navs]` stands for.
pub open spec fn query_of(d: DataV) -> Result<QueryV, ErrorV> {
    match d {
        DataV::Array(items) => if items.len() != 2 {
            Err(ErrorV::Query("query must be [namespace, navs]"@))
        } else if !(items[0] is Null) && !(items[0] is Text) {
            Err(ErrorV::Query("namespace must be text or null"@))
        } else {
            let namespace = match items[0] {
                DataV::Text(s) => Some(s),
                _ => None,
            };
            match items[1] {
                DataV::Array(navs) => match navs_of(navs, navs.len() as int) {
                    Err(e) => Err(e),
                    Ok(ns) => Ok(QueryV { namespace, navs: ns }),
                },
                _ => Err(ErrorV::Query("navs must be an array"@)),
            }
        },
        _ => Err(ErrorV::Query("query must be [namespace, navs]"@)),
    }
}

proof fn lemma_wire_len(ns: Seq<NavV>, n: int)
    requires
        0 <= n <= ns.len(),
    ensures
        navs_wire(ns, n).len() == n,
        forall|i: int| 0 <= i < n ==> #[trigger] navs_wire(ns, n)[i] == nav_wire(ns[i]),
    decreases n,
{
    if n > 0 {
        lemma_wire_len(ns, n - 1);
    }
}

proof fn lemma_pred_wire_len(ps: Seq<PredicateV>, n: int)
    requires
        0 <= n <= ps.len(),
    ensures
        preds_wire(ps, n).len() == n,
        forall|i: int| 0 <= i < n ==> #[trigger] preds_wire(ps, n)[i] == pred_wire(ps[i]),
    decreases n,
{
    if n > 0 {
        lemma_pred_wire_len(ps, n - 1);
    }
}

/// A step's form stands for the step.
pub proof fn law_nav_roundtrip(n: NavV)
    ensures
        nav_of(nav_wire(n)) == Ok::<NavV, ErrorV>(n),
    decreases n, 0int,
{
    let items = nav_wire(n)->Array_0;
    match n {
        NavV::Where(p) => {
            law_pred_roundtrip(*p);
            assert(items[1] == pred_wire(*p));
        },
        NavV::Slice { start, end } => {
            assert(items[1] == bound_wire(start));
            assert(items[2] == bound_wire(end));
        },
        _ => {},
    }
}

/// A predicate's form stands for the predicate.
pub proof fn law_pred_roundtrip(p: PredicateV)
    ensures
        pred_of(pred_wire(p)) == Ok::<PredicateV, ErrorV>(p),
    decreases p, 0int,
{
    let items = pred_wire(p)->Array_0;
    match p {
        PredicateV::Compare(r, a, b) => {
            law_expr_roundtrip(a);
            law_expr_roundtrip(b);
            assert(items[1] == expr_wire(a));
            assert(items[2] == expr_wire(b));
            assert(relation_of(relation_tag(r)) == r);
        },
        PredicateV::And(ps) => {
            lemma_preds_roundtrip(ps, ps.len() as int);
            assert(items[1] == DataV::Array(preds_wire(ps, ps.len() as int)));
            lemma_pred_wire_len(ps, ps.len() as int);
            assert(ps.take(ps.len() as int) =~= ps);
        },
        PredicateV::Or(ps) => {
            lemma_preds_roundtrip(ps, ps.len() as int);
            assert(items[1] == DataV::Array(preds_wire(ps, ps.len() as int)));
            lemma_pred_wire_len(ps, ps.len() as int);
            assert(ps.take(ps.len() as int) =~= ps);
        },
        PredicateV::Not(q) => {
            law_pred_roundtrip(*q);
            assert(items[1] == pred_wire(*q));
        },
        PredicateV::Exists(ns) => {
            lemma_navs_roundtrip(ns, ns.len() as int);
            assert(items[1] == DataV::Array(navs_wire(ns, ns.len() as int)));
            lemma_wire_len(ns, ns.len() as int);
            assert(ns.take(ns.len() as int) =~= ns);
        },
    }
}

/// An expression's form stands for the expression.
pub proof fn law_expr_roundtrip(e: ExprV)
    ensures
        expr_of(expr_wire(e)) == Ok::<ExprV, ErrorV>(e),
    decreases e, 0int,
{
    let items = expr_wire(e)->Array_0;
    match e {
        ExprV::Path(ns) => {
            lemma_navs_roundtrip(ns, ns.len() as int);
            assert(items[1] == DataV::Array(navs_wire(ns, ns.len() as int)));
            lemma_wire_len(ns, ns.len() as int);
            assert(ns.take(ns.len() as int) =~= ns);
        },
        _ => {},
    }
}

proof fn lemma_navs_local(a: Seq<DataV>, b: Seq<DataV>, n: int)
    requires
        0 <= n <= a.len(),
        n <= b.len(),
        forall|i: int| 0 <= i < n ==> a[i] == b[i],
    ensures
        navs_of(a, n) == navs_of(b, n),
    decreases n,
{
    if n > 0 {
        lemma_navs_local(a, b, n - 1);
    }
}

proof fn lemma_preds_local(a: Seq<DataV>, b: Seq<DataV>, n: int)
    requires
        0 <= n <= a.len(),
        n <= b.len(),
        forall|i: int| 0 <= i < n ==> a[i] == b[i],
    ensures
        preds_of(a, n) == preds_of(b, n),
    decreases n,
{
    if n > 0 {
        lemma_preds_local(a, b, n - 1);
    }
}

proof fn lemma_navs_roundtrip(ns: Seq<NavV>, n: int)
    requires
        0 <= n <= ns.len(),
    ensures
        navs_of(navs_wire(ns, n), n) == Ok::<Seq<NavV>, ErrorV>(ns.take(n)),
    decreases ns, n,
{
    if n == 0 {
        assert(ns.take(0) =~= Seq::<NavV>::empty());
    } else {
        lemma_navs_roundtrip(ns, n - 1);
        lemma_wire_len(ns, n - 1);
        lemma_wire_len(ns, n);
        lemma_navs_local(navs_wire(ns, n), navs_wire(ns, n - 1), n - 1);
        law_nav_roundtrip(ns[n - 1]);
        assert(ns.take(n) =~= ns.take(n - 1).push(ns[n - 1]));
    }
}

proof fn lemma_preds_roundtrip(ps: Seq<PredicateV>, n: int)
    requires
        0 <= n <= ps.len(),
    ensures
        preds_of(preds_wire(ps, n), n) == Ok::<Seq<PredicateV>, ErrorV>(ps.take(n)),
    decreases ps, n,
{
    if n == 0 {
        assert(ps.take(0) =~= Seq::<PredicateV>::empty());
    } else {
        lemma_preds_roundtrip(ps, n - 1);
        lemma_pred_wire_len(ps, n - 1);
        lemma_pred_wire_len(ps, n);
        lemma_preds_local(preds_wire(ps, n), preds_wire(ps, n - 1), n - 1);
        law_pred_roundtrip(ps[n - 1]);
        assert(ps.take(n) =~= ps.take(n - 1).push(ps[n - 1]));
    }
}

/// A query's form stands for the query.
pub proof fn law_query_roundtrip(q: QueryV)
    ensures
        query_of(query_wire(q)) == Ok::<QueryV, ErrorV>(q),
{
    let n = q.navs.len() as int;
    let items = query_wire(q)->Array_0;
    lemma_navs_roundtrip(q.navs, n);
    lemma_wire_len(q.navs, n);
    assert(items[1] == DataV::Array(navs_wire(q.navs, n)));
    assert(q.navs.take(n) =~= q.navs);
}

fn bound_data(n: &Option<u64>) -> (r: Data)
    ensures
        r@ == bound_wire(*n),
{
    match n {
        Some(n) => Data::UInt(*n),
        None => Data::Null,
    }
}

/// The tagged-array form of a step.
pub fn nav_to_value(nav: &Nav) -> (r: Data)
    ensures
        r@ == nav_wire(nav@),
    decreases nav, 0int,
{
    match nav {
        Nav::Field(n) => array2(Data::UInt(0), Data::Text(n.clone())),
        Nav::Key(d) => array2(Data::UInt(1), copy_data(d)),
        Nav::Index(i) => array2(Data::UInt(2), Data::UInt(*i)),
        Nav::All => array1(Data::UInt(3)),
        Nav::Values => array1(Data::UInt(4)),
        Nav::Keys => array1(Data::UInt(5)),
        Nav::Entries => array1(Data::UInt(6)),
        Nav::Where(p) => array2(Data::UInt(7), pred_to_value(p)),
        Nav::First => array1(Data::UInt(8)),
        Nav::Last => array1(Data::UInt(9)),
        Nav::Slice { start, end } => array3(
            Data::UInt(10),
            bound_data(start),
            bound_data(end),
        ),
    }
}

fn tag_of_relation(r: Relation) -> (n: u64)
    ensures
        n == relation_tag(r),
{
    match r {
        Relation::Eq => 0,
        Relation::Ne => 1,
        Relation::Lt => 2,
        Relation::Le => 3,
        Relation::Gt => 4,
        Relation::Ge => 5,
    }
}

/// The tagged-array form of a predicate.
pub fn pred_to_value(p: &Predicate) -> (r: Data)
    ensures
        r@ == pred_wire(p@),
    decreases p, 0int,
{
    match p {
        Predicate::Compare(r, a, b) => array3(
            Data::UInt(tag_of_relation(*r)),
            expr_to_value(a),
            expr_to_value(b),
        ),
        Predicate::And(ps) => {
            proof {
                lemma_preds(*ps);
            }
            array2(Data::UInt(6), preds_to_value(ps))
        },
        Predicate::Or(ps) => {
            proof {
                lemma_preds(*ps);
            }
            array2(Data::UInt(7), preds_to_value(ps))
        },
        Predicate::Not(p) => array2(Data::UInt(8), pred_to_value(p)),
        Predicate::Exists(ns) => {
            proof {
                lemma_navs(*ns);
            }
            array2(Data::UInt(9), navs_to_value(ns))
        },
    }
}

/// The tagged-array form of an expression.
pub fn expr_to_value(e: &Expr) -> (r: Data)
    ensures
        r@ == expr_wire(e@),
    decreases e, 0int,
{
    match e {
        Expr::Field(n) => array2(Data::UInt(0), Data::Text(n.clone())),
        Expr::Lit(d) => array2(Data::UInt(1), copy_data(d)),
        Expr::Path(ns) => {
            proof {
                lemma_navs(*ns);
            }
            array2(Data::UInt(2), navs_to_value(ns))
        },
    }
}

fn navs_to_value(ns: &Vec<Nav>) -> (r: Data)
    ensures
        r@ == DataV::Array(navs_wire(navs_v(*ns), ns@.len() as int)),
    decreases ns, 1int,
{
    let ghost nv = navs_v(*ns);
    let mut out: Vec<Data> = Vec::new();
    let mut i: usize = 0;
    proof {
        lemma_navs(*ns);
        lemma_items(out);
        assert(items_v(out) =~= Seq::<DataV>::empty());
    }
    while i < ns.len()
        invariant
            i <= ns@.len(),
            nv == navs_v(*ns),
            nv.len() == ns@.len(),
            forall|j: int| 0 <= j < ns@.len() ==> #[trigger] nv[j] == ns@[j]@,
            items_v(out) == navs_wire(nv, i as int),
        decreases ns@.len() - i,
    {
        let ghost x = nv[i as int];
        let ghost before = out;
        let d: Data = nav_to_value(&ns[i]);
        out.push(d);
        proof {
            lemma_items_push(before, out, d);
        }
        i = i + 1;
    }
    proof {
        lemma_items(out);
    }
    Data::Array(out)
}

fn preds_to_value(ps: &Vec<Predicate>) -> (r: Data)
    ensures
        r@ == DataV::Array(preds_wire(preds_v(*ps), ps@.len() as int)),
    decreases ps, 1int,
{
    let ghost pv = preds_v(*ps);
    let mut out: Vec<Data> = Vec::new();
    let mut i: usize = 0;
    proof {
        lemma_preds(*ps);
        lemma_items(out);
        assert(items_v(out) =~= Seq::<DataV>::empty());
    }
    while i < ps.len()
        invariant
            i <= ps@.len(),
            pv == preds_v(*ps),
            pv.len() == ps@.len(),
            forall|j: int| 0 <= j < ps@.len() ==> #[trigger] pv[j] == ps@[j]@,
            items_v(out) == preds_wire(pv, i as int),
        decreases ps@.len() - i,
    {
        let ghost x = pv[i as int];
        let ghost before = out;
        let d: Data = pred_to_value(&ps[i]);
        out.push(d);
        proof {
            lemma_items_push(before, out, d);
        }
        i = i + 1;
    }
    proof {
        lemma_items(out);
    }
    Data::Array(out)
}

fn uint_item(items: &Vec<Data>, i: usize) -> (r: Option<u64>)
    ensures
        r == uint_at(items_v(*items), i as int),
{
    proof {
        lemma_items(*items);
    }
    if i < items.len() {
        assert(items_v(*items)[i as int] == items@[i as int]@);
        match &items[i] {
            Data::UInt(n) => Some(*n),
            _ => None,
        }
    } else {
        None
    }
}

fn unknown<T>(what: &str, tag: u64) -> (r: Result<T, Error>)
    ensures
        r is Err,
        r->Err_0@ == ErrorV::Query(what@ + dec(tag as nat)),
{
    let mut m: String = what.to_owned();
    let d: String = dec_u64(tag);
    m.append(d.as_str());
    Err(Error::Query(m))
}

/// The step that a tagged array stands for.
pub fn nav_from_value(v: &Data) -> (r: Result<Nav, Error>)
    ensures
        match (r, nav_of(v@)) {
            (Ok(x), Ok(y)) => x@ == y,
            (Err(e), Err(w)) => e@ == w,
            _ => false,
        },
    decreases v, 0int,
{
    match v {
        Data::Array(items) => {
            proof {
                lemma_items(*items);
            }
            let tag: u64 = match uint_item(items, 0) {
                Some(t) => t,
                None => {
                    return query_error("nav missing tag");
                },
            };
            if tag == 0 {
                if items.len() > 1 {
                    assert(items_v(*items)[1] == items@[1]@);
                    if let Data::Text(s) = &items[1] {
                        return Ok(Nav::Field(s.clone()));
                    }
                }
                return query_error("Field needs a name");
            }
            if tag == 1 {
                if items.len() > 1 {
                    assert(items_v(*items)[1] == items@[1]@);
                    return Ok(Nav::Key(copy_data(&items[1])));
                }
                return query_error("Key needs a value");
            }
            if tag == 2 {
                return match uint_item(items, 1) {
                    Some(i) => Ok(Nav::Index(i)),
                    None => query_error("Index needs a u64"),
                };
            }
            if tag == 7 {
                if items.len() > 1 {
                    assert(items_v(*items)[1] == items@[1]@);
                    let p: Predicate = pred_from_value(&items[1])?;
                    return Ok(Nav::Where(p));
                }
                return query_error("Where needs a predicate");
            }
            match tag {
                3 => Ok(Nav::All),
                4 => Ok(Nav::Values),
                5 => Ok(Nav::Keys),
                6 => Ok(Nav::Entries),
                8 => Ok(Nav::First),
                9 => Ok(Nav::Last),
                10 => Ok(Nav::Slice { start: uint_item(items, 1), end: uint_item(items, 2) }),
                other => unknown("unknown nav tag ", other),
            }
        },
        _ => query_error("nav must be a tagged array"),
    }
}

/// The predicate that a tagged array stands for.
pub fn pred_from_value(v: &Data) -> (r: Result<Predicate, Error>)
    ensures
        match (r, pred_of(v@)) {
            (Ok(x), Ok(y)) => x@ == y,
            (Err(e), Err(w)) => e@ == w,
            _ => false,
        },
    decreases v, 0int,
{
    match v {
        Data::Array(items) => {
            proof {
                lemma_items(*items);
            }
            let tag: u64 = match uint_item(items, 0) {
                Some(t) => t,
                None => {
                    return query_error("predicate missing tag");
                },
            };
            if tag < 6 {
                if items.len() < 2 {
                    return query_error("missing lhs");
                }
                assert(items_v(*items)[1] == items@[1]@);
                let a: Expr = expr_from_value(&items[1])?;
                if items.len() < 3 {
                    return query_error("missing rhs");
                }
                assert(items_v(*items)[2] == items@[2]@);
                let b: Expr = expr_from_value(&items[2])?;
                let r: Relation = match tag {
                    0 => Relation::Eq,
                    1 => Relation::Ne,
                    2 => Relation::Lt,
                    3 => Relation::Le,
                    4 => Relation::Gt,
                    _ => Relation::Ge,
                };
                return Ok(Predicate::Compare(r, a, b));
            }
            if tag == 6 || tag == 7 {
                if items.len() > 1 {
                    assert(items_v(*items)[1] == items@[1]@);
                    if let Data::Array(ps) = &items[1] {
                        proof {
                            lemma_items(*ps);
                        }
                        let ps: Vec<Predicate> = preds_from_value(ps)?;
                        return if tag == 6 {
                            Ok(Predicate::And(ps))
                        } else {
                            Ok(Predicate::Or(ps))
                        };
                    }
                }
                return if tag == 6 {
                    query_error("And needs a list")
                } else {
                    query_error("Or needs a list")
                };
            }
            if tag == 8 {
                if items.len() > 1 {
                    assert(items_v(*items)[1] == items@[1]@);
                    let p: Predicate = pred_from_value(&items[1])?;
                    return Ok(Predicate::Not(Box::new(p)));
                }
                return query_error("Not needs a predicate");
            }
            if tag == 9 {
                if items.len() > 1 {
                    assert(items_v(*items)[1] == items@[1]@);
                    if let Data::Array(ns) = &items[1] {
                        proof {
                            lemma_items(*ns);
                        }
                        let ns: Vec<Nav> = navs_from_value(ns)?;
                        return Ok(Predicate::Exists(ns));
                    }
                }
                return query_error("Exists needs a path");
            }
            unknown("unknown predicate tag ", tag)
        },
        _ => query_error("predicate must be a tagged array"),
    }
}

/// The expression that a tagged array stands for.
pub fn expr_from_value(v: &Data) -> (r: Result<Expr, Error>)
    ensures
        match (r, expr_of(v@)) {
            (Ok(x), Ok(y)) => x@ == y,
            (Err(e), Err(w)) => e@ == w,
            _ => false,
        },
    decreases v, 0int,
{
    match v {
        Data::Array(items) => {
            proof {
                lemma_items(*items);
            }
            let tag: u64 = match uint_item(items, 0) {
                Some(t) => t,
                None => {
                    return query_error("expr missing tag");
                },
            };
            if tag == 0 {
                if items.len() > 1 {
                    assert(items_v(*items)[1] == items@[1]@);
                    if let Data::Text(s) = &items[1] {
                        return Ok(Expr::Field(s.clone()));
                    }
                }
                return query_error("Field expr needs a name");
            }
            if tag == 1 {
                if items.len() > 1 {
                    assert(items_v(*items)[1] == items@[1]@);
                    return Ok(Expr::Lit(copy_data(&items[1])));
                }
                return query_error("Lit needs a value");
            }
            if tag == 2 {
                if items.len() > 1 {
                    assert(items_v(*items)[1] == items@[1]@);
                    if let Data::Array(ns) = &items[1] {
                        proof {
                            lemma_items(*ns);
                        }
                        let ns: Vec<Nav> = navs_from_value(ns)?;
                        return Ok(Expr::Path(ns));
                    }
                }
                return query_error("Path expr needs navs");
            }
            unknown("unknown expr tag ", tag)
        },
        _ => query_error("expr must be a tagged array"),
    }
}

proof fn lemma_navs_err(ds: Seq<DataV>, i: int, n: int)
    requires
        0 <= i <= n <= ds.len(),
        navs_of(ds, i) is Err,
    ensures
        navs_of(ds, n) == navs_of(ds, i),
    decreases n,
{
    if i < n {
        lemma_navs_err(ds, i, n - 1);
    }
}

proof fn lemma_preds_err(ds: Seq<DataV>, i: int, n: int)
    requires
        0 <= i <= n <= ds.len(),
        preds_of(ds, i) is Err,
    ensures
        preds_of(ds, n) == preds_of(ds, i),
    decreases n,
{
    if i < n {
        lemma_preds_err(ds, i, n - 1);
    }
}

fn navs_from_value(ds: &Vec<Data>) -> (r: Result<Vec<Nav>, Error>)
    ensures
        match (r, navs_of(items_v(*ds), ds@.len() as int)) {
            (Ok(x), Ok(y)) => navs_v(x) == y,
            (Err(e), Err(w)) => e@ == w,
            _ => false,
        },
    decreases ds, 1int,
{
    let ghost dv = items_v(*ds);
    let mut out: Vec<Nav> = Vec::new();
    let mut i: usize = 0;
    proof {
        lemma_items(*ds);
        lemma_navs(out);
        assert(navs_v(out) =~= Seq::<NavV>::empty());
    }
    while i < ds.len()
        invariant
            i <= ds@.len(),
            dv == items_v(*ds),
            dv.len() == ds@.len(),
            forall|j: int| 0 <= j < ds@.len() ==> #[trigger] dv[j] == ds@[j]@,
            navs_of(dv, i as int) == Ok::<Seq<NavV>, ErrorV>(navs_v(out)),
        decreases ds@.len() - i,
    {
        let ghost d = dv[i as int];
        match nav_from_value(&ds[i]) {
            Err(e) => {
                proof {
                    lemma_navs_err(dv, i + 1, dv.len() as int);
                }
                return Err(e);
            },
            Ok(x) => {
                let ghost before = out;
                out.push(x);
                proof {
                    lemma_navs_push(before, out, x);
                }
            },
        }
        i = i + 1;
    }
    Ok(out)
}

fn preds_from_value(ds: &Vec<Data>) -> (r: Result<Vec<Predicate>, Error>)
    ensures
        match (r, preds_of(items_v(*ds), ds@.len() as int)) {
            (Ok(x), Ok(y)) => preds_v(x) == y,
            (Err(e), Err(w)) => e@ == w,
            _ => false,
        },
    decreases ds, 1int,
{
    let ghost dv = items_v(*ds);
    let mut out: Vec<Predicate> = Vec::new();
    let mut i: usize = 0;
    proof {
        lemma_items(*ds);
        lemma_preds(out);
        assert(preds_v(out) =~= Seq::<PredicateV>::empty());
    }
    while i < ds.len()
        invariant
            i <= ds@.len(),
            dv == items_v(*ds),
            dv.len() == ds@.len(),
            forall|j: int| 0 <= j < ds@.len() ==> #[trigger] dv[j] == ds@[j]@,
            preds_of(dv, i as int) == Ok::<Seq<PredicateV>, ErrorV>(preds_v(out)),
        decreases ds@.len() - i,
    {
        let ghost d = dv[i as int];
        match pred_from_value(&ds[i]) {
            Err(e) => {
                proof {
                    lemma_preds_err(dv, i + 1, dv.len() as int);
                }
                return Err(e);
            },
            Ok(x) => {
                let ghost before = out;
                out.push(x);
                proof {
                    lemma_preds_push(before, out, x);
                }
            },
        }
        i = i + 1;
    }
    Ok(out)
}

impl Query {
    pub fn new(navs: Vec<Nav>) -> (r: Query)
        ensures
            r@ == (QueryV { namespace: None, navs: navs_v(navs) }),
    {
        Query { namespace: None, navs }
    }

    pub fn namespaced(namespace: String, navs: Vec<Nav>) -> (r: Query)
        ensures
            r@ == (QueryV { namespace: Some(namespace@), navs: navs_v(navs) }),
    {
        Query { namespace: Some(namespace), navs }
    }

    /// Some step can lead to several places.
    pub fn is_collecting(&self) -> (r: bool)
        ensures
            r == query_collects(self@),
    {
        let ghost nv = navs_v(self.navs);
        proof {
            lemma_navs(self.navs);
        }
        let mut i: usize = 0;
        while i < self.navs.len()
            invariant
                i <= self.navs@.len(),
                nv == navs_v(self.navs),
                nv.len() == self.navs@.len(),
                forall|j: int| 0 <= j < nv.len() ==> #[trigger] nv[j] == self.navs@[j]@,
                forall|j: int| 0 <= j < i ==> !collecting(#[trigger] nv[j]),
            decreases self.navs@.len() - i,
        {
            let ghost x = nv[i as int];
            match &self.navs[i] {
                Nav::All | Nav::Values | Nav::Keys | Nav::Entries => {
                    assert(collecting(self@.navs[i as int]));
                    return true;
                },
                Nav::Where(_) => {
                    assert(collecting(self@.navs[i as int]));
                    return true;
                },
                Nav::Slice { start: _, end: _ } => {
                    assert(collecting(self@.navs[i as int]));
                    return true;
                },
                _ => {},
            }
            i = i + 1;
        }
        false
    }

    /// The tagged-array form of the query.
    pub fn to_value(&self) -> (r: Data)
        ensures
            r@ == query_wire(self@),
    {
        proof {
            lemma_navs(self.navs);
        }
        let ns: Data = match &self.namespace {
            Some(s) => Data::Text(s.clone()),
            None => Data::Null,
        };
        let r: Data = array2(ns, navs_to_value(&self.navs));
        assert(r@->Array_0 =~= query_wire(self@)->Array_0);
        r
    }

    /// The query that `[namespace, navs]` stands for.
    pub fn from_value(v: &Data) -> (r: Result<Query, Error>)
        ensures
            match (r, query_of(v@)) {
                (Ok(x), Ok(y)) => x@ == y,
                (Err(e), Err(w)) => e@ == w,
                _ => false,
            },
    {
        match v {
            Data::Array(items) => {
                proof {
                    lemma_items(*items);
                }
                if items.len() != 2 {
                    return query_error("query must be [namespace, navs]");
                }
                assert(items_v(*items)[0] == items@[0]@);
                assert(items_v(*items)[1] == items@[1]@);
                let namespace: Option<String> = match &items[0] {
                    Data::Null => None,
                    Data::Text(s) => Some(s.clone()),
                    _ => {
                        return query_error("namespace must be text or null");
                    },
                };
                match &items[1] {
                    Data::Array(navs) => {
                        proof {
                            lemma_items(*navs);
                        }
                        let navs: Vec<Nav> = navs_from_value(navs)?;
                        Ok(Query { namespace, navs })
                    },
                    _ => query_error("navs must be an array"),
                }
            },
            _ => query_error("query must be [namespace, navs]"),
        }
    }

    /// The CBOR encoding of the tagged-array form.
    pub fn to_cbor(&self) -> (r: Vec<u8>)
        ensures
            r@ == cbor_bytes(query_wire(self@)),
            crate::data::plain(query_wire(self@), crate::data::cbor_depth())
                ==> crate::data::reads_as(r@, query_wire(self@)),
    {
        encode(&self.to_value())
    }

    /// The query whose form the bytes encode.
    pub fn from_cbor(bytes: &[u8]) -> (r: Result<Query, Error>)
        ensures
            match (
                r,
                match cbor_read(bytes@) {
                    Ok(d) => query_of(d),
                    Err(m) => Err(ErrorV::Deserialize(m)),
                },
            ) {
                (Ok(x), Ok(y)) => x@ == y,
                (Err(e), Err(w)) => e@ == w,
                _ => false,
            },
    {
        match decode(bytes) {
            Ok(d) => Query::from_value(&d),
            Err(m) => Err(Error::Deserialize(m)),
        }
    }
}

/// How traces show an item.
pub open spec fn value_label_of(f: Seq<FactV>, d: DataV) -> Result<Seq<char>, ErrorV> {
    match d {
        DataV::Text(s) => Ok(debug_of_text(s)),
        DataV::UInt(n) => Ok("Integer("@ + dec(n as nat) + ")"@),
        DataV::NInt(n) => Ok("Integer("@ + dec_int(-1 - n) + ")"@),
        DataV::Bool(b) => Ok(if b { "true"@ } else { "false"@ }),
        DataV::Null => Ok("null"@),
        DataV::Float(b) => match short(f, b) {
            Some(s) => Ok(s),
            None => Err(ErrorV::Need(AskV::Short(b))),
        },
        _ => Ok("<value>"@),
    }
}

/// How traces show an optional bound.
pub open spec fn bound_label(n: Option<u64>) -> Seq<char> {
    match n {
        Some(n) => "Some("@ + dec(n as nat) + ")"@,
        None => "None"@,
    }
}

/// How traces show a step.
pub open spec fn nav_label_of(f: Seq<FactV>, n: NavV) -> Result<Seq<char>, ErrorV>
    decreases n, 0int, 0int,
{
    match n {
        NavV::Field(s) => Ok("Field "@ + s),
        NavV::Key(d) => match value_label_of(f, d) {
            Ok(s) => Ok("Key "@ + s),
            Err(e) => Err(e),
        },
        NavV::Index(i) => Ok("Index "@ + dec(i as nat)),
        NavV::All => Ok("All"@),
        NavV::Values => Ok("Values"@),
        NavV::Keys => Ok("Keys"@),
        NavV::Entries => Ok("Entries"@),
        NavV::Where(p) => match pred_label_of(f, *p) {
            Ok(s) => Ok("Where "@ + s),
            Err(e) => Err(e),
        },
        NavV::First => Ok("First"@),
        NavV::Last => Ok("Last"@),
        NavV::Slice { start, end } => Ok("Slice "@ + bound_label(start) + ".."@ + bound_label(end)),
    }
}

/// How traces show a relation.
pub open spec fn relation_label(r: Relation) -> Seq<char> {
    match r {
        Relation::Eq => " == "@,
        Relation::Ne => " != "@,
        Relation::Lt => " < "@,
        Relation::Le => " <= "@,
        Relation::Gt => " > "@,
        Relation::Ge => " >= "@,
    }
}

/// How traces show a predicate.
pub open spec fn pred_label_of(f: Seq<FactV>, p: PredicateV) -> Result<Seq<char>, ErrorV>
    decreases p, 0int, 0int,
{
    match p {
        PredicateV::Compare(r, a, b) => match expr_label_of(f, a) {
            Err(e) => Err(e),
            Ok(x) => match expr_label_of(f, b) {
                Err(e) => Err(e),
                Ok(y) => Ok(x + relation_label(r) + y),
            },
        },
        PredicateV::And(ps) => preds_label_of(f, ps, " and "@, ps.len() as int),
        PredicateV::Or(ps) => preds_label_of(f, ps, " or "@, ps.len() as int),
        PredicateV::Not(q) => match pred_label_of(f, *q) {
            Ok(s) => Ok("not ("@ + s + ")"@),
            Err(e) => Err(e),
        },
        PredicateV::Exists(ns) => match navs_label_of(f, ns, ns.len() as int) {
            Ok(s) => Ok("exists "@ + s),
            Err(e) => Err(e),
        },
    }
}

/// How traces show an expression.
pub open spec fn expr_label_of(f: Seq<FactV>, e: ExprV) -> Result<Seq<char>, ErrorV>
    decreases e, 0int, 0int,
{
    match e {
        ExprV::Field(s) => Ok(s),
        ExprV::Lit(d) => value_label_of(f, d),
        ExprV::Path(ns) => navs_label_of(f, ns, ns.len() as int),
    }
}

/// How traces show the first `n` steps.
pub open spec fn navs_label_of(f: Seq<FactV>, ns: Seq<NavV>, n: int) -> Result<Seq<char>, ErrorV>
    decreases ns, 1int, n,
{
    if n <= 0 || n > ns.len() {
        Ok(Seq::empty())
    } else {
        match navs_label_of(f, ns, n - 1) {
            Err(e) => Err(e),
            Ok(s) => match nav_label_of(f, ns[n - 1]) {
                Err(e) => Err(e),
                Ok(t) => Ok(
                    if n == 1 {
                        s + t
                    } else {
                        s + "."@ + t
                    },
                ),
            },
        }
    }
}

/// How traces show the first `n` predicates.
pub open spec fn preds_label_of(f: Seq<FactV>, ps: Seq<PredicateV>, sep: Seq<char>, n: int) -> Result<
    Seq<char>,
    ErrorV,
>
    decreases ps, 1int, n,
{
    if n <= 0 || n > ps.len() {
        Ok(Seq::empty())
    } else {
        match preds_label_of(f, ps, sep, n - 1) {
            Err(e) => Err(e),
            Ok(s) => match pred_label_of(f, ps[n - 1]) {
                Err(e) => Err(e),
                Ok(t) => Ok(
                    if n == 1 {
                        s + t
                    } else {
                        s + sep + t
                    },
                ),
            },
        }
    }
}

/// The text is the one that the model says.
pub open spec fn same_label(r: Result<String, Error>, s: Result<Seq<char>, ErrorV>) -> bool {
    match (r, s) {
        (Ok(x), Ok(y)) => x@ == y,
        (Err(e), Err(w)) => e@ == w,
        _ => false,
    }
}

fn cat(a: &str, b: &str) -> (r: String)
    ensures
        r@ == a@ + b@,
{
    let mut r: String = a.to_owned();
    r.append(b);
    r
}

/// How traces show an item.
pub fn value_label(floats: &FloatTable, d: &Data) -> (r: Result<String, Error>)
    ensures
        same_label(r, value_label_of(floats@, d@)),
{
    match d {
        Data::Text(s) => Ok(debug_text(s.as_str())),
        Data::UInt(n) => {
            let t: String = dec_u64(*n);
            let mut m: String = cat("Integer(", t.as_str());
            m.append(")");
            Ok(m)
        },
        Data::NInt(n) => {
            let mut m: String = "Integer(".to_owned();
            let ghost want = dec_int(-1 - *n);
            if *n == u64::MAX {
                m.append("-18446744073709551616");
                proof {
                    lemma_lowest();
                }
            } else {
                let t: String = dec_u64(*n + 1);
                let u: String = cat("-", t.as_str());
                proof {
                    reveal_strlit("-");
                    assert("-"@ =~= seq!['-']);
                }
                m.append(u.as_str());
            }
            m.append(")");
            Ok(m)
        },
        Data::Bool(b) => if *b {
            Ok("true".to_owned())
        } else {
            Ok("false".to_owned())
        },
        Data::Null => Ok("null".to_owned()),
        Data::Float(b) => match floats.short(*b) {
            Some(s) => Ok(s),
            None => Err(Error::Need(Ask::Short(*b))),
        },
        _ => Ok("<value>".to_owned()),
    }
}

proof fn lemma_lowest()
    ensures
        "-18446744073709551616"@ == dec_int(-18446744073709551616),
{
    reveal_strlit("-18446744073709551616");
    reveal_with_fuel(dec, 21);
    assert("-18446744073709551616"@ =~= dec_int(-18446744073709551616));
}

fn bound_text(n: &Option<u64>) -> (r: String)
    ensures
        r@ == bound_label(*n),
{
    match n {
        Some(n) => {
            let t: String = dec_u64(*n);
            let mut m: String = cat("Some(", t.as_str());
            m.append(")");
            m
        },
        None => "None".to_owned(),
    }
}

/// How traces show a step.
pub fn nav_label(floats: &FloatTable, nav: &Nav) -> (r: Result<String, Error>)
    ensures
        same_label(r, nav_label_of(floats@, nav@)),
    decreases nav, 0int,
{
    match nav {
        Nav::Field(n) => Ok(cat("Field ", n.as_str())),
        Nav::Key(d) => {
            let s: String = value_label(floats, d)?;
            Ok(cat("Key ", s.as_str()))
        },
        Nav::Index(i) => {
            let s: String = dec_u64(*i);
            Ok(cat("Index ", s.as_str()))
        },
        Nav::All => Ok("All".to_owned()),
        Nav::Values => Ok("Values".to_owned()),
        Nav::Keys => Ok("Keys".to_owned()),
        Nav::Entries => Ok("Entries".to_owned()),
        Nav::Where(p) => {
            let s: String = pred_label(floats, p)?;
            Ok(cat("Where ", s.as_str()))
        },
        Nav::First => Ok("First".to_owned()),
        Nav::Last => Ok("Last".to_owned()),
        Nav::Slice { start, end } => {
            let a: String = bound_text(start);
            let b: String = bound_text(end);
            let mut m: String = cat("Slice ", a.as_str());
            m.append("..");
            m.append(b.as_str());
            Ok(m)
        },
    }
}

fn relation_text(r: Relation) -> (s: &'static str)
    ensures
        s@ == relation_label(r),
{
    match r {
        Relation::Eq => " == ",
        Relation::Ne => " != ",
        Relation::Lt => " < ",
        Relation::Le => " <= ",
        Relation::Gt => " > ",
        Relation::Ge => " >= ",
    }
}

/// How traces show a predicate.
pub fn pred_label(floats: &FloatTable, p: &Predicate) -> (r: Result<String, Error>)
    ensures
        same_label(r, pred_label_of(floats@, p@)),
    decreases p, 0int,
{
    match p {
        Predicate::Compare(r, a, b) => {
            let mut m: String = expr_label(floats, a)?;
            let y: String = expr_label(floats, b)?;
            m.append(relation_text(*r));
            m.append(y.as_str());
            Ok(m)
        },
        Predicate::And(ps) => {
            proof {
                lemma_preds(*ps);
            }
            preds_label(floats, ps, " and ")
        },
        Predicate::Or(ps) => {
            proof {
                lemma_preds(*ps);
            }
            preds_label(floats, ps, " or ")
        },
        Predicate::Not(q) => {
            let s: String = pred_label(floats, q)?;
            let mut m: String = cat("not (", s.as_str());
            m.append(")");
            Ok(m)
        },
        Predicate::Exists(ns) => {
            proof {
                lemma_navs(*ns);
            }
            let s: String = navs_label(floats, ns)?;
            Ok(cat("exists ", s.as_str()))
        },
    }
}

/// How traces show an expression.
pub fn expr_label(floats: &FloatTable, e: &Expr) -> (r: Result<String, Error>)
    ensures
        same_label(r, expr_label_of(floats@, e@)),
    decreases e, 0int,
{
    match e {
        Expr::Field(n) => Ok(n.clone()),
        Expr::Lit(d) => value_label(floats, d),
        Expr::Path(ns) => {
            proof {
                lemma_navs(*ns);
            }
            navs_label(floats, ns)
        },
    }
}

proof fn lemma_navs_label_err(f: Seq<FactV>, ns: Seq<NavV>, i: int, n: int)
    requires
        0 <= i <= n <= ns.len(),
        navs_label_of(f, ns, i) is Err,
    ensures
        navs_label_of(f, ns, n) == navs_label_of(f, ns, i),
    decreases n,
{
    if i < n {
        lemma_navs_label_err(f, ns, i, n - 1);
    }
}

proof fn lemma_preds_label_err(f: Seq<FactV>, ps: Seq<PredicateV>, sep: Seq<char>, i: int, n: int)
    requires
        0 <= i <= n <= ps.len(),
        preds_label_of(f, ps, sep, i) is Err,
    ensures
        preds_label_of(f, ps, sep, n) == preds_label_of(f, ps, sep, i),
    decreases n,
{
    if i < n {
        lemma_preds_label_err(f, ps, sep, i, n - 1);
    }
}

fn navs_label(floats: &FloatTable, ns: &Vec<Nav>) -> (r: Result<String, Error>)
    ensures
        same_label(r, navs_label_of(floats@, navs_v(*ns), ns@.len() as int)),
    decreases ns, 1int,
{
    let ghost nv = navs_v(*ns);
    let mut m: String = String::new();
    let mut i: usize = 0;
    proof {
        lemma_navs(*ns);
    }
    while i < ns.len()
        invariant
            i <= ns@.len(),
            nv == navs_v(*ns),
            nv.len() == ns@.len(),
            forall|j: int| 0 <= j < ns@.len() ==> #[trigger] nv[j] == ns@[j]@,
            navs_label_of(floats@, nv, i as int) == Ok::<Seq<char>, ErrorV>(m@),
        decreases ns@.len() - i,
    {
        let ghost x = nv[i as int];
        match nav_label(floats, &ns[i]) {
            Err(e) => {
                proof {
                    lemma_navs_label_err(floats@, nv, i + 1, nv.len() as int);
                }
                return Err(e);
            },
            Ok(t) => {
                if i > 0 {
                    m.append(".");
                }
                m.append(t.as_str());
            },
        }
        i = i + 1;
    }
    Ok(m)
}

fn preds_label(floats: &FloatTable, ps: &Vec<Predicate>, sep: &str) -> (r: Result<String, Error>)
    ensures
        same_label(r, preds_label_of(floats@, preds_v(*ps), sep@, ps@.len() as int)),
    decreases ps, 1int,
{
    let ghost pv = preds_v(*ps);
    let mut m: String = String::new();
    let mut i: usize = 0;
    proof {
        lemma_preds(*ps);
    }
    while i < ps.len()
        invariant
            i <= ps@.len(),
            pv == preds_v(*ps),
            pv.len() == ps@.len(),
            forall|j: int| 0 <= j < ps@.len() ==> #[trigger] pv[j] == ps@[j]@,
            preds_label_of(floats@, pv, sep@, i as int) == Ok::<Seq<char>, ErrorV>(m@),
        decreases ps@.len() - i,
    {
        let ghost x = pv[i as int];
        match pred_label(floats, &ps[i]) {
            Err(e) => {
                proof {
                    lemma_preds_label_err(floats@, pv, sep@, i + 1, pv.len() as int);
                }
                return Err(e);
            },
            Ok(t) => {
                if i > 0 {
                    m.append(sep);
                }
                m.append(t.as_str());
            },
        }
        i = i + 1;
    }
    Ok(m)
}

/// A copy of the step.
pub fn copy_nav(n: &Nav) -> (r: Nav)
    ensures
        r@ == n@,
    decreases n, 0int,
{
    match n {
        Nav::Field(s) => Nav::Field(s.clone()),
        Nav::Key(d) => Nav::Key(copy_data(d)),
        Nav::Index(i) => Nav::Index(*i),
        Nav::All => Nav::All,
        Nav::Values => Nav::Values,
        Nav::Keys => Nav::Keys,
        Nav::Entries => Nav::Entries,
        Nav::Where(p) => Nav::Where(copy_pred(p)),
        Nav::First => Nav::First,
        Nav::Last => Nav::Last,
        Nav::Slice { start, end } => Nav::Slice { start: *start, end: *end },
    }
}

/// A copy of the steps.
pub fn copy_navs(v: &Vec<Nav>) -> (r: Vec<Nav>)
    ensures
        navs_v(r) == navs_v(*v),
    decreases v, 1int,
{
    let mut r: Vec<Nav> = Vec::new();
    let mut i: usize = 0;
    while i < v.len()
        invariant
            i <= v@.len(),
            r@.len() == i,
            forall|j: int| 0 <= j < i ==> (#[trigger] r@[j])@ == v@[j]@,
        decreases v@.len() - i,
    {
        r.push(copy_nav(&v[i]));
        i = i + 1;
    }
    proof {
        lemma_navs(r);
        lemma_navs(*v);
        assert forall|j: int| 0 <= j < v@.len() implies navs_v(r)[j] == navs_v(*v)[j] by {
            assert(r@[j]@ == v@[j]@);
        }
        assert(navs_v(r) =~= navs_v(*v));
    }
    r
}

fn copy_preds(v: &Vec<Predicate>) -> (r: Vec<Predicate>)
    ensures
        preds_v(r) == preds_v(*v),
    decreases v, 1int,
{
    let mut r: Vec<Predicate> = Vec::new();
    let mut i: usize = 0;
    while i < v.len()
        invariant
            i <= v@.len(),
            r@.len() == i,
            forall|j: int| 0 <= j < i ==> (#[trigger] r@[j])@ == v@[j]@,
        decreases v@.len() - i,
    {
        r.push(copy_pred(&v[i]));
        i = i + 1;
    }
    proof {
        lemma_preds(r);
        lemma_preds(*v);
        assert forall|j: int| 0 <= j < v@.len() implies preds_v(r)[j] == preds_v(*v)[j] by {
            assert(r@[j]@ == v@[j]@);
        }
        assert(preds_v(r) =~= preds_v(*v));
    }
    r
}

/// A copy of the predicate.
pub fn copy_pred(p: &Predicate) -> (r: Predicate)
    ensures
        r@ == p@,
    decreases p, 0int,
{
    match p {
        Predicate::Compare(r, a, b) => Predicate::Compare(*r, copy_expr(a), copy_expr(b)),
        Predicate::And(ps) => Predicate::And(copy_preds(ps)),
        Predicate::Or(ps) => Predicate::Or(copy_preds(ps)),
        Predicate::Not(q) => Predicate::Not(Box::new(copy_pred(q))),
        Predicate::Exists(ns) => Predicate::Exists(copy_navs(ns)),
    }
}

fn copy_expr(e: &Expr) -> (r: Expr)
    ensures
        r@ == e@,
    decreases e, 0int,
{
    match e {
        Expr::Field(n) => Expr::Field(n.clone()),
        Expr::Lit(d) => Expr::Lit(copy_data(d)),
        Expr::Path(ns) => Expr::Path(copy_navs(ns)),
    }
}

/// A copy of the query.
pub fn copy_query(q: &Query) -> (r: Query)
    ensures
        r@ == q@,
{
    let namespace: Option<String> = match &q.namespace {
        Some(s) => Some(s.clone()),
        None => None,
    };
    Query { namespace, navs: copy_navs(&q.navs) }
}

} // verus!
