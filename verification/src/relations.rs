//! What the relations, predicates and steps of a query come to on items.

use crate::data::DataV;
use crate::db::RowV;
use crate::error::ErrorV;
use crate::float::FactV;
use crate::nav::{ExprV, NavV, PredicateV, Relation};
use crate::op::{deque_head, deque_tail, list_len};
use crate::path::{deque_key, list_key};
use crate::reading::{
    children_of, collected, db_all, db_any, db_filter, db_pred, db_step, field_item, item_get,
    pair_place, places, related, slice_from, slice_to, value_filter, value_pred, value_spread,
    value_step, value_steps, values_same, FocusV,
};
use crate::shape::ShapeV;
use crate::text::{lemma_before_irreflexive, lemma_before_total, lemma_before_transitive, text_before};
use vstd::prelude::*;

verus! {

/// The item is that integer.
pub open spec fn is_whole(d: DataV, x: int) -> bool {
    d == DataV::UInt(x as u64) && 0 <= x <= u64::MAX || d == DataV::NInt((-1 - x) as u64) && 0 <= -1
        - x <= u64::MAX
}

/// Integers are related as they are by size, whatever their signs.
pub proof fn law_integers_are_related_by_size(f: Seq<FactV>, a: DataV, b: DataV, x: int, y: int)
    requires
        is_whole(a, x),
        is_whole(b, y),
    ensures
        related(f, Relation::Lt, a, b) == Ok::<bool, ErrorV>(x < y),
        related(f, Relation::Le, a, b) == Ok::<bool, ErrorV>(x <= y),
        related(f, Relation::Gt, a, b) == Ok::<bool, ErrorV>(x > y),
        related(f, Relation::Ge, a, b) == Ok::<bool, ErrorV>(x >= y),
        related(f, Relation::Eq, a, b) == Ok::<bool, ErrorV>(x == y),
        related(f, Relation::Ne, a, b) == Ok::<bool, ErrorV>(x != y),
{
}

/// At the first place where the texts differ `a` has the lesser character, or
/// `a` is an initial part of `b` and shorter.
pub open spec fn comes_first(a: Seq<char>, b: Seq<char>) -> bool {
    exists|k: int|
        0 <= k <= a.len() && k <= b.len() && #[trigger] a.take(k) == b.take(k) && k < b.len() && (k
            == a.len() || a[k] < b[k])
}

/// The order of texts is decided at the first place where they differ.
pub proof fn law_texts_differ_at_a_place(a: Seq<char>, b: Seq<char>)
    ensures
        text_before(a, b) == comes_first(a, b),
    decreases a.len(),
{
    if b.len() == 0 {
    } else if a.len() == 0 {
        assert(a.take(0) =~= b.take(0));
    } else if a[0] != b[0] {
        assert(a.take(0) =~= b.take(0));
        if comes_first(a, b) {
            let k = choose|k: int|
                0 <= k <= a.len() && k <= b.len() && #[trigger] a.take(k) == b.take(k) && k
                    < b.len() && (k == a.len() || a[k] < b[k]);
            if k > 0 {
                assert(a.take(k)[0] == b.take(k)[0]);
            }
        }
    } else {
        let (c, d) = (a.skip(1), b.skip(1));
        law_texts_differ_at_a_place(c, d);
        if comes_first(c, d) {
            let k = choose|k: int|
                0 <= k <= c.len() && k <= d.len() && #[trigger] c.take(k) == d.take(k) && k
                    < d.len() && (k == c.len() || c[k] < d[k]);
            assert(a.take(k + 1) =~= seq![a[0]] + c.take(k));
            assert(b.take(k + 1) =~= seq![b[0]] + d.take(k));
        }
        if comes_first(a, b) {
            let k = choose|k: int|
                0 <= k <= a.len() && k <= b.len() && #[trigger] a.take(k) == b.take(k) && k
                    < b.len() && (k == a.len() || a[k] < b[k]);
            assert(c.take(k - 1) =~= a.take(k).skip(1));
            assert(d.take(k - 1) =~= b.take(k).skip(1));
        }
    }
}

/// Texts are related as they are in the order of their code points.
pub proof fn law_texts_are_related_in_order(f: Seq<FactV>, x: Seq<char>, y: Seq<char>)
    ensures
        related(f, Relation::Lt, DataV::Text(x), DataV::Text(y)) == Ok::<
            bool,
            ErrorV,
        >(comes_first(x, y)),
        related(f, Relation::Gt, DataV::Text(x), DataV::Text(y)) == Ok::<
            bool,
            ErrorV,
        >(comes_first(y, x)),
        related(f, Relation::Le, DataV::Text(x), DataV::Text(y)) == Ok::<
            bool,
            ErrorV,
        >(!comes_first(y, x)),
        related(f, Relation::Ge, DataV::Text(x), DataV::Text(y)) == Ok::<
            bool,
            ErrorV,
        >(!comes_first(x, y)),
        related(f, Relation::Eq, DataV::Text(x), DataV::Text(y)) == Ok::<
            bool,
            ErrorV,
        >(x == y),
        related(f, Relation::Ne, DataV::Text(x), DataV::Text(y)) == Ok::<
            bool,
            ErrorV,
        >(x != y),
{
    law_texts_differ_at_a_place(x, y);
    law_texts_differ_at_a_place(y, x);
    lemma_before_total(x, y);
    lemma_before_irreflexive(x);
    if text_before(x, y) && text_before(y, x) {
        lemma_before_transitive(x, y, x);
    }
}

/// False comes before true.
pub proof fn law_truth_values_are_related(f: Seq<FactV>, x: bool, y: bool)
    ensures
        related(f, Relation::Lt, DataV::Bool(x), DataV::Bool(y)) == Ok::<
            bool,
            ErrorV,
        >(!x && y),
        related(f, Relation::Le, DataV::Bool(x), DataV::Bool(y)) == Ok::<
            bool,
            ErrorV,
        >(!x || y),
        related(f, Relation::Gt, DataV::Bool(x), DataV::Bool(y)) == Ok::<
            bool,
            ErrorV,
        >(x && !y),
        related(f, Relation::Ge, DataV::Bool(x), DataV::Bool(y)) == Ok::<
            bool,
            ErrorV,
        >(x || !y),
        related(f, Relation::Eq, DataV::Bool(x), DataV::Bool(y)) == Ok::<
            bool,
            ErrorV,
        >(x == y),
{
}

/// Floats that are not negative come in the order of their bits, and negative
/// ones below them in the opposite order. The bits here are those below the
/// sign, which is set for the negative ones.
pub proof fn law_floats_are_related_by_size(f: Seq<FactV>, x: u64, y: u64)
    requires
        x <= 0x7ff0_0000_0000_0000,
        y <= 0x7ff0_0000_0000_0000,
    ensures
        ({
            let nx = DataV::Float((x + 0x8000_0000_0000_0000) as u64);
            let ny = DataV::Float((y + 0x8000_0000_0000_0000) as u64);
            let (px, py) = (DataV::Float(x), DataV::Float(y));
            &&& related(f, Relation::Lt, px, py) == Ok::<bool, ErrorV>(x < y)
            &&& related(f, Relation::Lt, nx, ny) == Ok::<bool, ErrorV>(y < x)
            &&& related(f, Relation::Lt, nx, py) == Ok::<bool, ErrorV>(
                x > 0 || y > 0,
            )
            &&& related(f, Relation::Lt, px, ny) == Ok::<bool, ErrorV>(false)
            &&& related(f, Relation::Eq, px, py) == Ok::<bool, ErrorV>(x == y)
            &&& related(f, Relation::Eq, nx, ny) == Ok::<bool, ErrorV>(x == y)
            &&& related(f, Relation::Eq, px, ny) == Ok::<bool, ErrorV>(
                x == 0 && y == 0,
            )
        }),
{
}

/// What is not a number is related to no float, not even to itself.
pub proof fn law_no_number_is_related(f: Seq<FactV>, r: Relation, x: u64, y: u64)
    requires
        x % 0x8000_0000_0000_0000 > 0x7ff0_0000_0000_0000,
    ensures
        related(f, r, DataV::Float(x), DataV::Float(y)) == Ok::<bool, ErrorV>(
            r == Relation::Ne,
        ),
        related(f, r, DataV::Float(y), DataV::Float(x)) == Ok::<bool, ErrorV>(
            r == Relation::Ne,
        ),
{
}

/// A relation read from the other side is the opposite one. Of two items that
/// are ordered at all, one is below, or one is above, or they are level; what is
/// not above is below or level, and what is not below is above or level.
pub proof fn law_relations_mirror(f: Seq<FactV>, a: DataV, b: DataV)
    requires
        related(f, Relation::Lt, a, b) is Ok,
    ensures
        related(f, Relation::Gt, b, a) == related(f, Relation::Lt, a, b),
        related(f, Relation::Lt, b, a) == related(f, Relation::Gt, a, b),
        related(f, Relation::Ge, b, a) == related(f, Relation::Le, a, b),
        related(f, Relation::Le, b, a) == related(f, Relation::Ge, a, b),
        ({
            let lt = related(f, Relation::Lt, a, b)->Ok_0;
            let gt = related(f, Relation::Gt, a, b)->Ok_0;
            let le = related(f, Relation::Le, a, b)->Ok_0;
            let ge = related(f, Relation::Ge, a, b)->Ok_0;
            &&& !(lt && gt)
            &&& le || ge ==> le == !gt && ge == !lt
            &&& lt || gt ==> le || ge
        }),
        related(f, Relation::Ne, a, b) is Ok,
        related(f, Relation::Eq, a, b) is Ok,
        related(f, Relation::Ne, a, b)->Ok_0 == !related(f, Relation::Eq, a, b)->Ok_0,
{
    match (a, b) {
        (DataV::Text(x), DataV::Text(y)) => {
            lemma_before_total(x, y);
            lemma_before_irreflexive(x);
            if text_before(x, y) && text_before(y, x) {
                lemma_before_transitive(x, y, x);
            }
        },
        _ => {},
    }
}

/// Items of which one is a number and the other a text, or one of them a list, a
/// map or nothing, are in no order.
pub proof fn law_unlike_items_are_in_no_order(f: Seq<FactV>, r: Relation, a: DataV, b: DataV)
    requires
        r == Relation::Lt || r == Relation::Le || r == Relation::Gt || r == Relation::Ge,
        a is Null || a is Array || a is Dict || a is Bytes || a is Text && !(b is Text) || a is Bool
            && !(b is Bool),
    ensures
        related(f, r, a, b) == Ok::<bool, ErrorV>(false),
        related(f, r, b, a) == Ok::<bool, ErrorV>(false),
{
}

proof fn lemma_filtered(f: Seq<FactV>, vs: Seq<DataV>, p: PredicateV, n: int)
    requires
        0 <= n <= vs.len(),
        forall|i: int| 0 <= i < vs.len() ==> value_pred(f, #[trigger] vs[i], p) is Ok,
    ensures
        value_filter(f, vs, p, n) == Ok::<Seq<DataV>, ErrorV>(
            vs.take(n).filter(|v: DataV| value_pred(f, v, p)->Ok_0),
        ),
    decreases n,
{
    reveal(Seq::filter);
    if n > 0 {
        lemma_filtered(f, vs, p, n - 1);
        assert(vs.take(n).drop_last() =~= vs.take(n - 1));
        assert(vs.take(n).last() == vs[n - 1]);
        assert(value_pred(f, vs[n - 1], p) is Ok);
    } else {
        assert(vs.take(0) =~= Seq::<DataV>::empty());
    }
}

/// A filter on a list keeps the items for which the predicate holds, in their
/// order, and no others.
pub proof fn law_where_keeps_what_satisfies(f: Seq<FactV>, xs: Seq<DataV>, p: PredicateV)
    requires
        forall|i: int| 0 <= i < xs.len() ==> value_pred(f, #[trigger] xs[i], p) is Ok,
    ensures
        value_step(f, DataV::Array(xs), NavV::Where(Box::new(p))) == Ok::<
            Seq<DataV>,
            ErrorV,
        >(xs.filter(|v: DataV| value_pred(f, v, p)->Ok_0)),
{
    let kids = crate::reading::item_children(DataV::Array(xs));
    assert(crate::reading::seconds(kids) =~= xs);
    lemma_filtered(f, xs, p, xs.len() as int);
    assert(xs.take(xs.len() as int) =~= xs);
}

/// What a map has for a name is the item of the first entry with that name.
pub proof fn law_fields_are_found(m: Seq<(DataV, DataV)>, name: Seq<char>, i: int)
    requires
        0 <= i < m.len(),
        m[i].0 == DataV::Text(name),
        forall|j: int| 0 <= j < i ==> (#[trigger] m[j]).0 != DataV::Text(name),
    ensures
        item_get(DataV::Dict(m), DataV::Text(name)) == m[i].1,
{
    lemma_place_found(m, name, i, 0);
}

proof fn lemma_place_found(m: Seq<(DataV, DataV)>, name: Seq<char>, i: int, j: int)
    requires
        0 <= j <= i < m.len(),
        m[i].0 == DataV::Text(name),
        forall|j: int| 0 <= j < i ==> (#[trigger] m[j]).0 != DataV::Text(name),
    ensures
        pair_place(m, DataV::Text(name), j) == i,
    decreases i - j,
{
    if j < i {
        assert(m[j].0 != DataV::Text(name));
        lemma_place_found(m, name, i, j + 1);
    }
}

/// What a map does not name it has nothing for.
pub proof fn law_missing_fields_are_null(m: Seq<(DataV, DataV)>, name: Seq<char>)
    requires
        forall|j: int| 0 <= j < m.len() ==> (#[trigger] m[j]).0 != DataV::Text(name),
    ensures
        item_get(DataV::Dict(m), DataV::Text(name)) == DataV::Null,
{
    lemma_no_place(m, name, 0);
}

proof fn lemma_no_place(m: Seq<(DataV, DataV)>, name: Seq<char>, i: int)
    requires
        0 <= i <= m.len(),
        forall|j: int| 0 <= j < m.len() ==> (#[trigger] m[j]).0 != DataV::Text(name),
    ensures
        pair_place(m, DataV::Text(name), i) == m.len(),
    decreases m.len() - i,
{
    if i < m.len() {
        assert(m[i].0 != DataV::Text(name));
        lemma_no_place(m, name, i + 1);
    }
}

/// A comparison of a field with an integer holds of the maps whose field is an
/// integer in that relation to it.
pub proof fn law_fields_compare_by_size(
    f: Seq<FactV>,
    m: Seq<(DataV, DataV)>,
    name: Seq<char>,
    i: int,
    x: int,
    d: DataV,
    y: int,
)
    requires
        0 <= i < m.len(),
        m[i].0 == DataV::Text(name),
        forall|j: int| 0 <= j < i ==> (#[trigger] m[j]).0 != DataV::Text(name),
        is_whole(m[i].1, x),
        is_whole(d, y),
    ensures
        value_pred(
            f,
            DataV::Dict(m),
            PredicateV::Compare(Relation::Lt, ExprV::Field(name), ExprV::Lit(d)),
        ) == Ok::<bool, ErrorV>(x < y),
        value_pred(
            f,
            DataV::Dict(m),
            PredicateV::Compare(Relation::Gt, ExprV::Field(name), ExprV::Lit(d)),
        ) == Ok::<bool, ErrorV>(x > y),
        value_pred(
            f,
            DataV::Dict(m),
            PredicateV::Compare(Relation::Eq, ExprV::Field(name), ExprV::Lit(d)),
        ) == Ok::<bool, ErrorV>(x == y),
        value_pred(
            f,
            DataV::Dict(m),
            PredicateV::Compare(Relation::Lt, ExprV::Lit(d), ExprV::Field(name)),
        ) == Ok::<bool, ErrorV>(y < x),
{
    reveal_with_fuel(value_pred, 3);
    reveal_with_fuel(crate::reading::value_expr, 3);
    law_fields_are_found(m, name, i);
    law_integers_are_related_by_size(f, m[i].1, d, x, y);
    law_integers_are_related_by_size(f, d, m[i].1, y, x);
}

/// `not`, `and` and `or` are what logic has them be; of no predicates `and`
/// holds and `or` does not.
pub proof fn law_predicates_combine(f: Seq<FactV>, v: DataV, p: PredicateV, q: PredicateV)
    requires
        value_pred(f, v, p) is Ok,
        value_pred(f, v, q) is Ok,
    ensures
        ({
            let (x, y) = (value_pred(f, v, p)->Ok_0, value_pred(f, v, q)->Ok_0);
            &&& value_pred(f, v, PredicateV::Not(Box::new(p))) == Ok::<bool, ErrorV>(
                !x,
            )
            &&& value_pred(f, v, PredicateV::And(seq![p, q])) == Ok::<bool, ErrorV>(
                x && y,
            )
            &&& value_pred(f, v, PredicateV::Or(seq![p, q])) == Ok::<bool, ErrorV>(
                x || y,
            )
        }),
        value_pred(f, v, PredicateV::And(Seq::empty())) == Ok::<bool, ErrorV>(true),
        value_pred(f, v, PredicateV::Or(Seq::empty())) == Ok::<bool, ErrorV>(false),
{
    let ps = seq![p, q];
    reveal_with_fuel(value_pred, 4);
    reveal_with_fuel(crate::reading::value_all, 4);
    reveal_with_fuel(crate::reading::value_any, 4);
    assert(ps[0] == p && ps[1] == q);
}

/// A slice of a list is the run of items from its start up to its end, as far as
/// there are any.
pub proof fn law_slices_are_runs(
    f: Seq<FactV>,
    xs: Seq<DataV>,
    start: Option<u64>,
    end: Option<u64>,
)
    requires
        xs.len() <= u64::MAX,
    ensures
        ({
            let from = if start is Some { start->Some_0 as int } else { 0 };
            let to = if end is Some && end->Some_0 < xs.len() {
                end->Some_0 as int
            } else {
                xs.len() as int
            };
            let r = value_step(f, DataV::Array(xs), NavV::Slice { start, end });
            &&& r is Ok
            &&& r->Ok_0.len() == if from < to { to - from } else { 0 }
            &&& forall|i: int| 0 <= i < r->Ok_0.len() ==> #[trigger] r->Ok_0[i] == xs[from + i]
        }),
{
    let kids = crate::reading::item_children(DataV::Array(xs));
    assert(crate::reading::seconds(kids) =~= xs);
    let n = xs.len() as int;
    assert(xs.subrange(slice_from(start, n), slice_to(start, end, n)).len() == slice_to(
        start,
        end,
        n,
    ) - slice_from(start, n));
}

/// The steps on a list: every item, the first, the last, the one at an index,
/// the indices, and each index with its item.
pub proof fn law_steps_on_lists(f: Seq<FactV>, xs: Seq<DataV>, i: u64)
    requires
        i < xs.len() <= u64::MAX,
    ensures
        ({
            let v = DataV::Array(xs);
            &&& value_step(f, v, NavV::All) == Ok::<Seq<DataV>, ErrorV>(xs)
            &&& value_step(f, v, NavV::Values) == Ok::<Seq<DataV>, ErrorV>(xs)
            &&& value_step(f, v, NavV::First) == Ok::<Seq<DataV>, ErrorV>(
                seq![xs[0]],
            )
            &&& value_step(f, v, NavV::Last) == Ok::<Seq<DataV>, ErrorV>(
                seq![xs[xs.len() - 1]],
            )
            &&& value_step(f, v, NavV::Index(i)) == Ok::<Seq<DataV>, ErrorV>(
                seq![xs[i as int]],
            )
            &&& value_step(f, v, NavV::Keys)->Ok_0.len() == xs.len()
            &&& value_step(f, v, NavV::Keys)->Ok_0[i as int] == DataV::UInt(i)
            &&& value_step(f, v, NavV::Entries)->Ok_0.len() == xs.len()
            &&& value_step(f, v, NavV::Entries)->Ok_0[i as int] == DataV::Array(
                seq![DataV::UInt(i), xs[i as int]],
            )
        }),
{
    let kids = crate::reading::item_children(DataV::Array(xs));
    assert(crate::reading::seconds(kids) =~= xs);
}

/// The steps on a map: every item, the first, the last, the keys, and each key
/// with its item, all in the order of the map.
pub proof fn law_steps_on_maps(f: Seq<FactV>, m: Seq<(DataV, DataV)>, i: int)
    requires
        0 <= i < m.len(),
    ensures
        ({
            let v = DataV::Dict(m);
            &&& value_step(f, v, NavV::All)->Ok_0.len() == m.len()
            &&& value_step(f, v, NavV::All)->Ok_0[i] == m[i].1
            &&& value_step(f, v, NavV::Values) == value_step(f, v, NavV::All)
            &&& value_step(f, v, NavV::First) == Ok::<Seq<DataV>, ErrorV>(
                seq![m[0].1],
            )
            &&& value_step(f, v, NavV::Last) == Ok::<Seq<DataV>, ErrorV>(
                seq![m[m.len() - 1].1],
            )
            &&& value_step(f, v, NavV::Keys)->Ok_0.len() == m.len()
            &&& value_step(f, v, NavV::Keys)->Ok_0[i] == m[i].0
            &&& value_step(f, v, NavV::Entries)->Ok_0.len() == m.len()
            &&& value_step(f, v, NavV::Entries)->Ok_0[i] == DataV::Array(seq![m[i].0, m[i].1])
        }),
{
}

/// A field or a key leads to the item of the first entry of that name.
pub proof fn law_names_lead_to_their_items(
    f: Seq<FactV>,
    m: Seq<(DataV, DataV)>,
    name: Seq<char>,
    i: int,
)
    requires
        0 <= i < m.len(),
        m[i].0 == DataV::Text(name),
        forall|j: int| 0 <= j < i ==> (#[trigger] m[j]).0 != DataV::Text(name),
    ensures
        value_step(f, DataV::Dict(m), NavV::Field(name)) == Ok::<Seq<DataV>, ErrorV>(
            seq![m[i].1],
        ),
        value_step(f, DataV::Dict(m), NavV::Key(DataV::Text(name))) == Ok::<
            Seq<DataV>,
            ErrorV,
        >(seq![m[i].1]),
{
    law_fields_are_found(m, name, i);
}

proof fn lemma_steps_split(f: Seq<FactV>, vs: Seq<DataV>, ns: Seq<NavV>, ms: Seq<NavV>, n: int)
    requires
        0 <= n <= ns.len(),
    ensures
        value_steps(f, vs, ns + ms, n) == value_steps(f, vs, ns, n),
    decreases n,
{
    if n > 0 {
        lemma_steps_split(f, vs, ns, ms, n - 1);
        assert((ns + ms)[n - 1] == ns[n - 1]);
    }
}

/// A path with one step more leads where that step leads from each of the items
/// that the path leads to, in turn.
pub proof fn law_paths_go_on(f: Seq<FactV>, vs: Seq<DataV>, ns: Seq<NavV>, nav: NavV)
    requires
        value_steps(f, vs, ns, ns.len() as int) is Ok,
    ensures
        ({
            let ws = value_steps(f, vs, ns, ns.len() as int)->Ok_0;
            value_steps(f, vs, ns.push(nav), ns.len() as int + 1) == value_spread(
                f,
                ws,
                nav,
                ws.len() as int,
            )
        }),
        value_steps(f, vs, Seq::empty(), 0) == Ok::<Seq<DataV>, ErrorV>(vs),
{
    assert(ns.push(nav) =~= ns + seq![nav]);
    lemma_steps_split(f, vs, ns, seq![nav], ns.len() as int);
}

/// A step from several items leads to where it leads from each of them, one
/// after the other.
pub proof fn law_steps_spread(f: Seq<FactV>, vs: Seq<DataV>, v: DataV, nav: NavV)
    requires
        value_spread(f, vs, nav, vs.len() as int) is Ok,
        value_step(f, v, nav) is Ok,
    ensures
        value_spread(f, vs.push(v), nav, vs.len() as int + 1) == Ok::<Seq<DataV>, ErrorV>(
            value_spread(f, vs, nav, vs.len() as int)->Ok_0 + value_step(f, v, nav)->Ok_0,
        ),
        value_spread(f, seq![v], nav, 1) == value_step(f, v, nav),
{
    lemma_spread_split(f, vs, v, nav, vs.len() as int);
    let none = Seq::<DataV>::empty();
    lemma_spread_split(f, none, v, nav, 0);
    assert(none.push(v) =~= seq![v]);
    reveal_with_fuel(value_spread, 3);
    assert(none + value_step(f, v, nav)->Ok_0 =~= value_step(f, v, nav)->Ok_0);
}

proof fn lemma_spread_split(f: Seq<FactV>, vs: Seq<DataV>, v: DataV, nav: NavV, n: int)
    requires
        0 <= n <= vs.len(),
    ensures
        value_spread(f, vs.push(v), nav, n) == value_spread(f, vs, nav, n),
    decreases n,
{
    if n > 0 {
        lemma_spread_split(f, vs, v, nav, n - 1);
        assert(vs.push(v)[n - 1] == vs[n - 1]);
    }
}

/// Items that are the same are so from either side, and a text, an integer, a
/// truth value, bytes or nothing is the same as itself.
pub proof fn law_sameness(a: DataV, b: DataV)
    ensures
        values_same(a, b) == values_same(b, a),
        a is Text || a is UInt || a is NInt || a is Bool || a is Bytes || a is Null ==> values_same(
            a,
            a,
        ),
        a is Dict ==> !values_same(a, b),
    decreases a,
{
    match (a, b) {
        (DataV::Array(x), DataV::Array(y)) => {
            assert forall|i: int| 0 <= i < x.len() && i < y.len() implies values_same(
                #[trigger] x[i],
                y[i],
            ) == values_same(y[i], x[i]) by {
                law_sameness(x[i], y[i]);
            }
            if values_same(a, b) {
                assert forall|i: int| 0 <= i < y.len() implies values_same(#[trigger] y[i], x[i]) by {
                    assert(values_same(x[i], y[i]));
                }
            }
            if values_same(b, a) {
                assert forall|i: int| 0 <= i < x.len() implies values_same(#[trigger] x[i], y[i]) by {
                    assert(values_same(y[i], x[i]));
                }
            }
        },
        _ => {},
    }
}

proof fn lemma_places_filtered(
    f: Seq<FactV>,
    s: Seq<RowV>,
    foci: Seq<FocusV>,
    p: PredicateV,
    n: int,
)
    requires
        0 <= n <= foci.len(),
        forall|i: int| 0 <= i < foci.len() ==> db_pred(f, s, #[trigger] foci[i], p) is Ok,
    ensures
        db_filter(f, s, foci, p, n) == Ok::<Seq<FocusV>, ErrorV>(
            foci.take(n).filter(|v: FocusV| db_pred(f, s, v, p)->Ok_0),
        ),
    decreases n,
{
    reveal(Seq::filter);
    if n > 0 {
        lemma_places_filtered(f, s, foci, p, n - 1);
        assert(foci.take(n).drop_last() =~= foci.take(n - 1));
        assert(foci.take(n).last() == foci[n - 1]);
        assert(db_pred(f, s, foci[n - 1], p) is Ok);
    } else {
        assert(foci.take(0) =~= Seq::<FocusV>::empty());
    }
}

/// The steps on a stored collection lead to its children: to all of them, to
/// those that satisfy a predicate, to the first, to the last, or to a run of
/// them, always in their order.
pub proof fn law_steps_on_stored_collections(
    f: Seq<FactV>,
    s: Seq<RowV>,
    prefix: Seq<u8>,
    shape: ShapeV,
    p: PredicateV,
    start: Option<u64>,
    end: Option<u64>,
)
    requires
        collected(s, prefix, shape) is Ok,
        collected(s, prefix, shape)->Ok_0.len() > 0,
        forall|i: int|
            0 <= i < collected(s, prefix, shape)->Ok_0.len() ==> db_pred(
                f,
                s,
                (#[trigger] collected(s, prefix, shape)->Ok_0[i]).1,
                p,
            ) is Ok,
    ensures
        ({
            let cs = collected(s, prefix, shape)->Ok_0;
            let all = cs.map_values(|c: (Option<DataV>, FocusV)| c.1);
            let from = if start is Some { start->Some_0 as int } else { 0 };
            let to = if end is Some && end->Some_0 < cs.len() {
                end->Some_0 as int
            } else {
                cs.len() as int
            };
            let run = db_step(f, s, prefix, shape, NavV::Slice { start, end });
            &&& db_step(f, s, prefix, shape, NavV::All) == Ok::<Seq<FocusV>, ErrorV>(all)
            &&& db_step(f, s, prefix, shape, NavV::Values) == Ok::<Seq<FocusV>, ErrorV>(all)
            &&& db_step(f, s, prefix, shape, NavV::Where(Box::new(p))) == Ok::<
                Seq<FocusV>,
                ErrorV,
            >(all.filter(|v: FocusV| db_pred(f, s, v, p)->Ok_0))
            &&& db_step(f, s, prefix, shape, NavV::First) == Ok::<Seq<FocusV>, ErrorV>(
                seq![cs[0].1],
            )
            &&& db_step(f, s, prefix, shape, NavV::Last) == Ok::<Seq<FocusV>, ErrorV>(
                seq![cs[cs.len() - 1].1],
            )
            &&& run is Ok
            &&& run->Ok_0.len() == if from < to { to - from } else { 0 }
            &&& forall|i: int|
                0 <= i < run->Ok_0.len() ==> #[trigger] run->Ok_0[i] == cs[from + i].1
        }),
{
    let cs = collected(s, prefix, shape)->Ok_0;
    let n = cs.len() as int;
    let all = cs.map_values(|c: (Option<DataV>, FocusV)| c.1);
    reveal_with_fuel(db_step, 2);
    assert(places(cs) =~= all);
    assert forall|i: int| 0 <= i < all.len() implies db_pred(f, s, #[trigger] all[i], p) is Ok by {
        assert(all[i] == cs[i].1);
    }
    lemma_places_filtered(f, s, all, p, n);
    assert(all.take(n) =~= all);
    let part = all.subrange(slice_from(start, n), slice_to(start, end, n));
    assert(part.len() == slice_to(start, end, n) - slice_from(start, n));
}

/// The children of a stored list are its elements by their indices, those of a
/// deque its elements from its head on, and those of a record its fields by
/// their names, all in order.
pub proof fn law_stored_children(
    s: Seq<RowV>,
    prefix: Seq<u8>,
    of: ShapeV,
    fields: Seq<(Seq<char>, ShapeV)>,
    i: int,
)
    requires
        0 <= i,
    ensures
        list_len(s, prefix) is Ok ==> ({
            let cs = children_of(s, prefix, ShapeV::List { of: Box::new(of) });
            &&& cs is Ok
            &&& cs->Ok_0.len() == list_len(s, prefix)->Ok_0
            &&& i < cs->Ok_0.len() ==> cs->Ok_0[i] == (
                Some(DataV::UInt(i as u64)),
                FocusV::Db { prefix: list_key(prefix, i), shape: of },
            )
        }),
        deque_head(s, prefix) is Ok && deque_tail(s, prefix) is Ok ==> ({
            let (h, t) = (deque_head(s, prefix)->Ok_0, deque_tail(s, prefix)->Ok_0);
            let cs = children_of(s, prefix, ShapeV::Deque { of: Box::new(of) });
            &&& cs is Ok
            &&& h <= t ==> cs->Ok_0.len() == t - h
            &&& i < cs->Ok_0.len() ==> cs->Ok_0[i] == (
                Some(DataV::UInt(i as u64)),
                FocusV::Db { prefix: deque_key(prefix, h + i), shape: of },
            )
        }),
        i < fields.len() ==> ({
            let cs = children_of(s, prefix, ShapeV::Record { fields });
            &&& cs is Ok
            &&& cs->Ok_0.len() == fields.len()
            &&& cs->Ok_0[i].0 == Some(DataV::Text(fields[i].0))
        }),
{
}

/// Predicates at a stored place combine as logic has them combine, and a
/// comparison relates what its two sides come to there.
pub proof fn law_stored_predicates_combine(
    f: Seq<FactV>,
    s: Seq<RowV>,
    at: FocusV,
    p: PredicateV,
    q: PredicateV,
    name: Seq<char>,
    d: DataV,
    r: Relation,
)
    requires
        db_pred(f, s, at, p) is Ok,
        db_pred(f, s, at, q) is Ok,
    ensures
        ({
            let (x, y) = (db_pred(f, s, at, p)->Ok_0, db_pred(f, s, at, q)->Ok_0);
            &&& db_pred(f, s, at, PredicateV::Not(Box::new(p))) == Ok::<bool, ErrorV>(!x)
            &&& db_pred(f, s, at, PredicateV::And(seq![p, q])) == Ok::<bool, ErrorV>(x && y)
            &&& db_pred(f, s, at, PredicateV::Or(seq![p, q])) == Ok::<bool, ErrorV>(x || y)
        }),
        field_item(s, at, name) is Ok ==> db_pred(
            f,
            s,
            at,
            PredicateV::Compare(r, ExprV::Field(name), ExprV::Lit(d)),
        ) == related(f, r, field_item(s, at, name)->Ok_0, d),
{
    let ps = seq![p, q];
    reveal_with_fuel(db_pred, 4);
    reveal_with_fuel(db_all, 4);
    reveal_with_fuel(db_any, 4);
    reveal_with_fuel(crate::reading::db_expr, 3);
    assert(ps[0] == p && ps[1] == q);
}

} // verus!
