//! What a value is once it has gone over the wire: a copy of what was sent.

use crate::data::{data_of_int, DataV};
use crate::value::{
    array_at, bytes_at, compare, entry_place, entry_put, is_nan, is_scalar, key_rel, map_at,
    rank_of, scalar, str_at, tagged_at, CellV, Rel, Value,
};
use crate::wire::{
    data_of, data_of_entries, data_of_items, loaded, loaded_items, loaded_pairs, TAG_GENERIC,
};
use vstd::prelude::*;

verus! {

/// The value is in cells from `n` up to `len`, if it is in a cell.
pub open spec fn fresh(n: int, len: int, v: Value) -> bool {
    match v {
        Value::Str(i) => n <= i < len,
        Value::Bytes(i) => n <= i < len,
        Value::Array(i) => n <= i < len,
        Value::Dict(i) => n <= i < len,
        Value::Tagged(i) => n <= i < len,
        Value::Closure(_) => false,
        _ => true,
    }
}

/// The values of an entry are in cells from `n` up to `len`.
pub open spec fn fresh_entry(n: int, len: int, e: (Value, Value)) -> bool {
    fresh(n, len, e.0) && fresh(n, len, e.1)
}

/// What a cell holds is in cells from `n` up to `len`.
pub open spec fn fresh_cell(n: int, len: int, c: CellV) -> bool {
    match c {
        CellV::Array(xs) => forall|i: int| 0 <= i < xs.len() ==> fresh(n, len, #[trigger] xs[i]),
        CellV::Dict(m) => forall|i: int|
            0 <= i < m.len() ==> fresh_entry(n, len, #[trigger] m[i]),
        CellV::Tagged(_, p) => fresh(n, len, p),
        _ => true,
    }
}

/// The cells from `n` on hold only what is in cells between `n` and them.
pub open spec fn fresh_cells(h: Seq<CellV>, n: int) -> bool {
    forall|i: int| n <= i < h.len() ==> fresh_cell(n, i, #[trigger] h[i])
}

/// `g` is `h` with more cells.
pub open spec fn extends(h: Seq<CellV>, g: Seq<CellV>) -> bool {
    &&& h.len() <= g.len()
    &&& forall|i: int| 0 <= i < h.len() ==> #[trigger] g[i] == h[i]
}

proof fn lemma_data_grows(h: Seq<CellV>, g: Seq<CellV>, n: int, d: nat, e: nat, v: Value)
    requires
        0 <= n,
        extends(h, g),
        fresh_cells(h, n),
        fresh(n, h.len() as int, v),
        d <= e,
        data_of(h, d, v) is Ok,
    ensures
        data_of(g, e, v) == data_of(h, d, v),
    decreases d, 0int, 0int,
{
    match v {
        Value::Array(i) => {
            let xs = array_at(h, i);
            assert(g[i as int] == h[i as int]);
            assert(fresh_cell(n, i as int, h[i as int]));
            lemma_items_grow(h, g, n, (d - 1) as nat, (e - 1) as nat, xs, xs.len() as int);
        },
        Value::Dict(i) => {
            let m = map_at(h, i);
            assert(g[i as int] == h[i as int]);
            assert(fresh_cell(n, i as int, h[i as int]));
            lemma_entries_grow(h, g, n, (d - 1) as nat, (e - 1) as nat, m, m.len() as int);
        },
        Value::Tagged(i) => {
            assert(g[i as int] == h[i as int]);
            assert(fresh_cell(n, i as int, h[i as int]));
            let p = tagged_at(h, i).1;
            assert(fresh(n, h.len() as int, p));
            lemma_data_grows(h, g, n, (d - 1) as nat, (e - 1) as nat, p);
        },
        Value::Str(i) => {
            assert(g[i as int] == h[i as int]);
        },
        Value::Bytes(i) => {
            assert(g[i as int] == h[i as int]);
        },
        _ => {},
    }
}

proof fn lemma_items_grow(
    h: Seq<CellV>,
    g: Seq<CellV>,
    n: int,
    d: nat,
    e: nat,
    xs: Seq<Value>,
    k: int,
)
    requires
        0 <= n,
        extends(h, g),
        fresh_cells(h, n),
        forall|i: int| 0 <= i < xs.len() ==> fresh(n, h.len() as int, #[trigger] xs[i]),
        d <= e,
        0 <= k <= xs.len(),
        data_of_items(h, d, xs, k) is Ok,
    ensures
        data_of_items(g, e, xs, k) == data_of_items(h, d, xs, k),
    decreases d, 1int, k,
{
    if k > 0 {
        lemma_items_grow(h, g, n, d, e, xs, k - 1);
        lemma_data_grows(h, g, n, d, e, xs[k - 1]);
    }
}

proof fn lemma_entries_grow(
    h: Seq<CellV>,
    g: Seq<CellV>,
    n: int,
    d: nat,
    e: nat,
    m: Seq<(Value, Value)>,
    k: int,
)
    requires
        0 <= n,
        extends(h, g),
        fresh_cells(h, n),
        forall|i: int| 0 <= i < m.len() ==> fresh_entry(n, h.len() as int, #[trigger] m[i]),
        d <= e,
        0 <= k <= m.len(),
        data_of_entries(h, d, m, k) is Ok,
    ensures
        data_of_entries(g, e, m, k) == data_of_entries(h, d, m, k),
    decreases d, 1int, k,
{
    if k > 0 {
        lemma_entries_grow(h, g, n, d, e, m, k - 1);
        assert(fresh_entry(n, h.len() as int, m[k - 1]));
        lemma_data_grows(h, g, n, d, e, m[k - 1].0);
        lemma_data_grows(h, g, n, d, e, m[k - 1].1);
    }
}

/// Loading only adds cells.
pub proof fn lemma_load_grows(h: Seq<CellV>, x: DataV)
    ensures
        extends(h, loaded(h, x).0),
    decreases x, 0int, 0int,
{
    match x {
        DataV::Array(xs) => {
            lemma_load_items_grow(h, xs, xs.len() as int);
        },
        DataV::Dict(ps) => {
            lemma_load_pairs_grow(h, ps, ps.len() as int);
        },
        DataV::Tag(_, inner) => {
            if let DataV::Array(parts) = *inner {
                if parts.len() == 2 {
                    lemma_load_grows(h, parts[1]);
                }
            }
        },
        _ => {},
    }
}

pub proof fn lemma_load_items_grow(h: Seq<CellV>, xs: Seq<DataV>, n: int)
    ensures
        extends(h, loaded_items(h, xs, n).0),
        0 < n <= xs.len() ==> extends(loaded_items(h, xs, n - 1).0, loaded_items(h, xs, n).0),
    decreases xs, 1int, n,
{
    if 0 < n <= xs.len() {
        lemma_load_items_grow(h, xs, n - 1);
        let (g, r) = loaded_items(h, xs, n - 1);
        if r is Ok {
            lemma_load_grows(g, xs[n - 1]);
        }
    }
}

pub proof fn lemma_load_pairs_grow(h: Seq<CellV>, ps: Seq<(DataV, DataV)>, n: int)
    ensures
        extends(h, loaded_pairs(h, ps, n).0),
        0 < n <= ps.len() ==> extends(loaded_pairs(h, ps, n - 1).0, loaded_pairs(h, ps, n).0),
    decreases ps, 1int, n,
{
    if 0 < n <= ps.len() {
        lemma_load_pairs_grow(h, ps, n - 1);
        let (g, r) = loaded_pairs(h, ps, n - 1);
        if r is Ok {
            lemma_load_grows(g, ps[n - 1].0);
            let (a, s) = loaded(g, ps[n - 1].0);
            lemma_load_grows(a, ps[n - 1].1);
        }
    }
}

/// A key and its copy compare as each other, and can be keys both.
proof fn lemma_same_order(
    h: Seq<CellV>,
    d: nat,
    a: Value,
    b: Value,
    g: Seq<CellV>,
    e: nat,
    wa: Value,
    wb: Value,
    s: nat,
)
    requires
        data_of(h, d, a) is Ok,
        data_of(h, d, b) is Ok,
        data_of(g, e, wa) == data_of(h, d, a),
        data_of(g, e, wb) == data_of(h, d, b),
        scalar(h, s, a),
        scalar(h, s, b),
    ensures
        compare(h, d, a, b) is Some,
        compare(g, e, wa, wb) == compare(h, d, a, b),
    decreases d,
{
    lemma_same_kind(h, d, a, g, e, wa);
    lemma_same_kind(h, d, b, g, e, wb);
    if rank_of(a) == rank_of(b) {
        if let (Value::Tagged(x), Value::Tagged(y)) = (a, b) {
            let (t, p) = tagged_at(h, x);
            let (u, q) = tagged_at(h, y);
            let (wx, wy) = (wa->Tagged_0, wb->Tagged_0);
            lemma_tag_parts(h, d, a, g, e, wa);
            lemma_tag_parts(h, d, b, g, e, wb);
            lemma_same_order(
                h,
                (d - 1) as nat,
                p,
                q,
                g,
                (e - 1) as nat,
                tagged_at(g, wx).1,
                tagged_at(g, wy).1,
                (s - 1) as nat,
            );
        }
    }
}

/// The data of a scalar says its kind, and what it is.
proof fn lemma_same_kind(h: Seq<CellV>, d: nat, a: Value, g: Seq<CellV>, e: nat, w: Value)
    requires
        data_of(h, d, a) is Ok,
        data_of(g, e, w) == data_of(h, d, a),
    ensures
        rank_of(a) == rank_of(w),
        a is Bool ==> a == w,
        a is Int ==> a == w,
        a is Float ==> a == w,
        a is Str ==> str_at(h, a->Str_0) == str_at(g, w->Str_0),
        a is Bytes ==> bytes_at(h, a->Bytes_0) == bytes_at(g, w->Bytes_0),
{
    let x = data_of(h, d, a)->Ok_0;
    if let Value::Int(i) = a {
        assert(x == data_of_int(i as int));
    }
    if let Value::Int(j) = w {
        assert(x == data_of_int(j as int));
    }
}

proof fn lemma_tag_parts(h: Seq<CellV>, d: nat, a: Value, g: Seq<CellV>, e: nat, w: Value)
    requires
        a is Tagged,
        w is Tagged,
        data_of(h, d, a) is Ok,
        data_of(g, e, w) == data_of(h, d, a),
    ensures
        d > 0,
        e > 0,
        tagged_at(h, a->Tagged_0).0 == tagged_at(g, w->Tagged_0).0,
        data_of(h, (d - 1) as nat, tagged_at(h, a->Tagged_0).1) is Ok,
        data_of(g, (e - 1) as nat, tagged_at(g, w->Tagged_0).1) == data_of(
            h,
            (d - 1) as nat,
            tagged_at(h, a->Tagged_0).1,
        ),
{
    let x = data_of(h, d, a)->Ok_0;
    let (t, p) = tagged_at(h, a->Tagged_0);
    let (u, q) = tagged_at(g, w->Tagged_0);
    let dp = data_of(h, (d - 1) as nat, p)->Ok_0;
    let dq = data_of(g, (e - 1) as nat, q)->Ok_0;
    let ps = seq![DataV::Text(t), dp];
    let qs = seq![DataV::Text(u), dq];
    assert(x == DataV::Tag(TAG_GENERIC, Box::new(DataV::Array(ps))));
    assert(x == DataV::Tag(TAG_GENERIC, Box::new(DataV::Array(qs))));
    assert(ps[0] == qs[0] && ps[1] == qs[1]);
}

proof fn lemma_same_scalar(h: Seq<CellV>, d: nat, a: Value, g: Seq<CellV>, e: nat, w: Value, s: nat)
    requires
        data_of(h, d, a) is Ok,
        data_of(g, e, w) == data_of(h, d, a),
        scalar(h, s, a),
    ensures
        scalar(g, e, w),
    decreases d,
{
    lemma_same_kind(h, d, a, g, e, w);
    if let Value::Tagged(i) = a {
        lemma_tag_parts(h, d, a, g, e, w);
        lemma_same_scalar(
            h,
            (d - 1) as nat,
            tagged_at(h, i).1,
            g,
            (e - 1) as nat,
            tagged_at(g, w->Tagged_0).1,
            (s - 1) as nat,
        );
    }
}

proof fn lemma_deeper(h: Seq<CellV>, d: nat, e: nat, a: Value, b: Value, s: nat)
    requires
        scalar(h, s, a),
        scalar(h, s, b),
        compare(h, d, a, b) is Some,
        d <= e,
    ensures
        compare(h, e, a, b) == compare(h, d, a, b),
    decreases d,
{
    if let (Value::Tagged(x), Value::Tagged(y)) = (a, b) {
        if tagged_at(h, x).0 == tagged_at(h, y).0 {
            lemma_deeper(
                h,
                (d - 1) as nat,
                (e - 1) as nat,
                tagged_at(h, x).1,
                tagged_at(h, y).1,
                (s - 1) as nat,
            );
        }
    }
}

/// The value is no NaN.
pub open spec fn number(v: Value) -> bool {
    match v {
        Value::Float(b) => !is_nan(b),
        _ => true,
    }
}

/// The entries of a map: its keys are scalars and ascend.
pub open spec fn tidy_entries(h: Seq<CellV>, m: Seq<(Value, Value)>) -> bool {
    &&& forall|i: int, j: int|
        0 <= i < j < m.len() ==> key_rel(h, #[trigger] m[i].0, #[trigger] m[j].0) == Rel::Less
    &&& forall|i: int|
        0 <= i < m.len() ==> is_scalar(h, (#[trigger] m[i]).0) && number(m[i].0) && number(m[i].1)
}

/// The cells are as a machine keeps them: no value is NaN, and the keys of maps
/// are scalars and ascend.
pub open spec fn tidy(h: Seq<CellV>) -> bool {
    &&& forall|i: usize| tidy_entries(h, #[trigger] map_at(h, i))
    &&& forall|i: usize, j: int|
        0 <= j < array_at(h, i).len() ==> number(#[trigger] array_at(h, i)[j])
    &&& forall|i: usize| number((#[trigger] tagged_at(h, i)).1)
}

/// What loading `x` gave: cells that hold a copy of it.
pub open spec fn copied(h: Seq<CellV>, n: int, x: DataV) -> bool {
    let (g, r) = loaded(h, x);
    &&& r is Ok
    &&& extends(h, g)
    &&& fresh_cells(g, n)
    &&& fresh(n, g.len() as int, r->Ok_0)
    &&& data_of(g, g.len(), r->Ok_0) == Ok::<DataV, Seq<char>>(x)
}

proof fn lemma_one_more(a: Seq<CellV>, n: int, c: CellV)
    requires
        0 <= n,
        fresh_cells(a, n),
        fresh_cell(n, a.len() as int, c),
    ensures
        fresh_cells(a.push(c), n),
        extends(a, a.push(c)),
{
    let b = a.push(c);
    assert forall|j: int| n <= j < b.len() implies fresh_cell(n, j, #[trigger] b[j]) by {
        if j < a.len() {
            assert(b[j] == a[j]);
        }
    }
}

#[verifier::spinoff_prover]
#[verifier::rlimit(60)]
proof fn lemma_copied(h: Seq<CellV>, d: nat, v: Value, g: Seq<CellV>, n: int)
    requires
        tidy(h),
        number(v),
        d <= h.len(),
        data_of(h, d, v) is Ok,
        0 <= n <= g.len(),
        fresh_cells(g, n),
        loaded(g, data_of(h, d, v)->Ok_0).0.len() <= usize::MAX,
    ensures
        copied(g, n, data_of(h, d, v)->Ok_0),
    decreases d, 0int, 0int,
{
    let x = data_of(h, d, v)->Ok_0;
    lemma_load_grows(g, x);
    match v {
        Value::Array(i) => {
            let xs = array_at(h, i);
            let ds = x->Array_0;
            let k = xs.len() as int;
            lemma_items_len(h, (d - 1) as nat, xs, k);
            assert forall|j: int| 0 <= j < xs.len() implies number(#[trigger] xs[j]) by {
                assert(number(array_at(h, i)[j]));
            }
            lemma_items_copied(h, (d - 1) as nat, xs, k, g, n);
            let (a, r) = loaded_items(g, ds, k);
            let vs = r->Ok_0;
            let b = a.push(CellV::Array(vs));
            assert(b[a.len() as int] == CellV::Array(vs));
            lemma_one_more(a, n, b[a.len() as int]);
            lemma_items_grow(a, b, n, a.len(), a.len(), vs, k);
            assert(ds.take(k) =~= ds);
            assert(array_at(b, a.len() as usize) == vs);
            assert(loaded(g, x) == (b, Ok::<Value, Seq<char>>(Value::Array(a.len() as usize))));
        },
        Value::Dict(i) => {
            let m = map_at(h, i);
            let ps = x->Dict_0;
            let k = m.len() as int;
            lemma_entries_len(h, (d - 1) as nat, m, k);
            assert(tidy_entries(h, map_at(h, i)));
            lemma_entries_copied(h, (d - 1) as nat, m, k, g, n);
            let (a, r) = loaded_pairs(g, ps, k);
            let es = r->Ok_0;
            let b = a.push(CellV::Dict(es));
            assert(b[a.len() as int] == CellV::Dict(es));
            lemma_one_more(a, n, b[a.len() as int]);
            lemma_entries_grow(a, b, n, a.len(), a.len(), es, k);
            assert(ps.take(k) =~= ps);
            assert(map_at(b, a.len() as usize) == es);
        },
        Value::Tagged(i) => {
            let (t, p) = tagged_at(h, i);
            let dp = data_of(h, (d - 1) as nat, p)->Ok_0;
            let parts = seq![DataV::Text(t), dp];
            assert(x == DataV::Tag(TAG_GENERIC, Box::new(DataV::Array(parts))));
            assert(parts[0] == DataV::Text(t));
            assert(parts[1] == dp);
            assert(number(p));
            let (a, r) = loaded(g, dp);
            lemma_copied(h, (d - 1) as nat, p, g, n);
            let w = r->Ok_0;
            let b = a.push(CellV::Tagged(t, w));
            assert(loaded(g, x) == (b, Ok::<Value, Seq<char>>(Value::Tagged(a.len() as usize))));
            assert(b[a.len() as int] == CellV::Tagged(t, w));
            lemma_one_more(a, n, b[a.len() as int]);
            lemma_data_grows(a, b, n, a.len(), a.len(), w);
        },
        Value::Str(i) => {
            let b = g.push(CellV::Str(str_at(h, i)));
            assert(b[g.len() as int] == CellV::Str(str_at(h, i)));
            lemma_one_more(g, n, b[g.len() as int]);
        },
        Value::Bytes(i) => {
            let b = g.push(CellV::Bytes(bytes_at(h, i)));
            assert(b[g.len() as int] == CellV::Bytes(bytes_at(h, i)));
            lemma_one_more(g, n, b[g.len() as int]);
        },
        _ => {},
    }
}

proof fn lemma_items_len(h: Seq<CellV>, d: nat, xs: Seq<Value>, k: int)
    requires
        0 <= k <= xs.len(),
        data_of_items(h, d, xs, k) is Ok,
    ensures
        data_of_items(h, d, xs, k)->Ok_0.len() == k,
        forall|j: int|
            0 <= j < k ==> data_of(h, d, #[trigger] xs[j]) == Ok::<DataV, Seq<char>>(
                data_of_items(h, d, xs, k)->Ok_0[j],
            ),
    decreases k,
{
    if k > 0 {
        lemma_items_len(h, d, xs, k - 1);
    }
}

proof fn lemma_entries_len(h: Seq<CellV>, d: nat, m: Seq<(Value, Value)>, k: int)
    requires
        0 <= k <= m.len(),
        data_of_entries(h, d, m, k) is Ok,
    ensures
        data_of_entries(h, d, m, k)->Ok_0.len() == k,
        forall|j: int|
            0 <= j < k ==> {
                let p = data_of_entries(h, d, m, k)->Ok_0[j];
                &&& data_of(h, d, (#[trigger] m[j]).0) == Ok::<DataV, Seq<char>>(p.0)
                &&& data_of(h, d, m[j].1) == Ok::<DataV, Seq<char>>(p.1)
            },
    decreases k,
{
    if k > 0 {
        lemma_entries_len(h, d, m, k - 1);
    }
}

proof fn lemma_items_copied(
    h: Seq<CellV>,
    d: nat,
    xs: Seq<Value>,
    k: int,
    g: Seq<CellV>,
    n: int,
)
    requires
        tidy(h),
        d < h.len(),
        forall|j: int| 0 <= j < xs.len() ==> number(#[trigger] xs[j]),
        data_of_items(h, d, xs, xs.len() as int) is Ok,
        0 <= k <= xs.len(),
        0 <= n <= g.len(),
        fresh_cells(g, n),
        loaded_items(g, data_of_items(h, d, xs, xs.len() as int)->Ok_0, k).0.len() <= usize::MAX,
    ensures
        ({
            let ds = data_of_items(h, d, xs, xs.len() as int)->Ok_0;
            let (a, r) = loaded_items(g, ds, k);
            &&& r is Ok
            &&& extends(g, a)
            &&& fresh_cells(a, n)
            &&& r->Ok_0.len() == k
            &&& forall|j: int| 0 <= j < k ==> fresh(n, a.len() as int, #[trigger] r->Ok_0[j])
            &&& data_of_items(a, a.len(), r->Ok_0, k) == Ok::<Seq<DataV>, Seq<char>>(ds.take(k))
        }),
    decreases d, 1int, k,
{
    let ds = data_of_items(h, d, xs, xs.len() as int)->Ok_0;
    lemma_items_len(h, d, xs, xs.len() as int);
    if k > 0 {
        lemma_load_items_grow(g, ds, k);
        lemma_items_copied(h, d, xs, k - 1, g, n);
        let (a, r) = loaded_items(g, ds, k - 1);
        let vs = r->Ok_0;
        assert(data_of(h, d, xs[k - 1]) == Ok::<DataV, Seq<char>>(ds[k - 1]));
        lemma_copied(h, d, xs[k - 1], a, n);
        let (b, q) = loaded(a, ds[k - 1]);
        let w = q->Ok_0;
        let ws = vs.push(w);
        lemma_items_grow(a, b, n, a.len(), b.len(), vs, k - 1);
        lemma_items_front(b, b.len(), vs, w, k - 1);
        assert(ds.take(k) =~= ds.take(k - 1).push(ds[k - 1]));
        assert forall|j: int| 0 <= j < k implies fresh(n, b.len() as int, #[trigger] ws[j]) by {
            if j < k - 1 {
                assert(ws[j] == vs[j]);
            }
        }
    } else {
        assert(ds.take(0) =~= Seq::<DataV>::empty());
    }
}

proof fn lemma_items_front(h: Seq<CellV>, d: nat, xs: Seq<Value>, w: Value, k: int)
    requires
        0 <= k <= xs.len(),
    ensures
        data_of_items(h, d, xs.push(w), k) == data_of_items(h, d, xs, k),
    decreases k,
{
    if k > 0 {
        lemma_items_front(h, d, xs, w, k - 1);
        assert(xs.push(w)[k - 1] == xs[k - 1]);
    }
}

proof fn lemma_entries_front(h: Seq<CellV>, d: nat, m: Seq<(Value, Value)>, e: (Value, Value), k: int)
    requires
        0 <= k <= m.len(),
    ensures
        data_of_entries(h, d, m.push(e), k) == data_of_entries(h, d, m, k),
    decreases k,
{
    if k > 0 {
        lemma_entries_front(h, d, m, e, k - 1);
        assert(m.push(e)[k - 1] == m[k - 1]);
    }
}

proof fn lemma_last_place(h: Seq<CellV>, m: Seq<(Value, Value)>, k: Value, i: int)
    requires
        0 <= i <= m.len(),
        forall|j: int| i <= j < m.len() ==> key_rel(h, #[trigger] m[j].0, k) == Rel::Less,
    ensures
        entry_place(h, m, k, i) == m.len(),
    decreases m.len() - i,
{
    if i < m.len() {
        assert(key_rel(h, m[i].0, k) == Rel::Less);
        lemma_last_place(h, m, k, i + 1);
    }
}

proof fn lemma_entries_copied(
    h: Seq<CellV>,
    d: nat,
    m: Seq<(Value, Value)>,
    k: int,
    g: Seq<CellV>,
    n: int,
)
    requires
        tidy(h),
        d < h.len(),
        tidy_entries(h, m),
        data_of_entries(h, d, m, m.len() as int) is Ok,
        0 <= k <= m.len(),
        0 <= n <= g.len(),
        fresh_cells(g, n),
        loaded_pairs(g, data_of_entries(h, d, m, m.len() as int)->Ok_0, k).0.len() <= usize::MAX,
    ensures
        ({
            let ps = data_of_entries(h, d, m, m.len() as int)->Ok_0;
            let (a, r) = loaded_pairs(g, ps, k);
            &&& r is Ok
            &&& extends(g, a)
            &&& fresh_cells(a, n)
            &&& r->Ok_0.len() == k
            &&& forall|j: int|
                0 <= j < k ==> fresh_entry(n, a.len() as int, #[trigger] r->Ok_0[j])
            &&& data_of_entries(a, a.len(), r->Ok_0, k) == Ok::<Seq<(DataV, DataV)>, Seq<char>>(
                ps.take(k),
            )
        }),
    decreases d, 1int, k,
{
    let ps = data_of_entries(h, d, m, m.len() as int)->Ok_0;
    lemma_entries_len(h, d, m, m.len() as int);
    if k > 0 {
        lemma_load_pairs_grow(g, ps, k);
        lemma_entries_copied(h, d, m, k - 1, g, n);
        let (a, r) = loaded_pairs(g, ps, k - 1);
        let es = r->Ok_0;
        let (mk, mv) = m[k - 1];
        let (dk, dv) = ps[k - 1];
        assert(data_of(h, d, m[k - 1].0) == Ok::<DataV, Seq<char>>(dk));
        assert(is_scalar(h, m[k - 1].0) && number(m[k - 1].0) && number(m[k - 1].1));
        lemma_load_grows(a, dk);
        let (b, q) = loaded(a, dk);
        lemma_load_grows(b, dv);
        let (c, t) = loaded(b, dv);
        lemma_copied(h, d, mk, a, n);
        let wk = q->Ok_0;
        lemma_same_scalar(h, d, mk, b, b.len(), wk, h.len());
        lemma_copied(h, d, mv, b, n);
        let wv = t->Ok_0;
        lemma_data_grows(b, c, n, b.len(), c.len(), wk);
        lemma_entries_grow(a, c, n, a.len(), c.len(), es, k - 1);
        lemma_entries_len(c, c.len(), es, k - 1);
        assert forall|j: int| 0 <= j < es.len() implies key_rel(c, #[trigger] es[j].0, wk)
            == Rel::Less by {
            assert(ps.take(k - 1)[j] == ps[j]);
            assert(data_of(h, d, m[j].0) == Ok::<DataV, Seq<char>>(ps[j].0));
            assert(data_of(c, c.len(), es[j].0) == Ok::<DataV, Seq<char>>(ps[j].0));
            assert(is_scalar(h, m[j].0));
            lemma_same_order(h, d, m[j].0, mk, c, c.len(), es[j].0, wk, h.len());
            lemma_deeper(h, d, h.len(), m[j].0, mk, h.len());
            assert(key_rel(h, m[j].0, m[k - 1].0) == Rel::Less);
        }
        lemma_last_place(c, es, wk, 0);
        let fs = entry_put(c, es, wk, wv);
        assert(fs =~= es.push((wk, wv)));
        lemma_entries_front(c, c.len(), es, (wk, wv), k - 1);
        assert(ps.take(k) =~= ps.take(k - 1).push(ps[k - 1]));
        assert forall|j: int| 0 <= j < k implies fresh_entry(n, c.len() as int, #[trigger] fs[j]) by {
            if j < k - 1 {
                assert(fs[j] == es[j]);
                assert(fresh_entry(n, a.len() as int, es[j]));
            }
        }
    } else {
        assert(ps.take(0) =~= Seq::<(DataV, DataV)>::empty());
    }
}

/// A hop copies: a value that one machine encodes as data, another loads from
/// it, in cells of its own; the copy encodes as the same data, and nothing that
/// was there changes.
pub proof fn law_values_cross_as_copies(h: Seq<CellV>, v: Value, g: Seq<CellV>)
    requires
        tidy(h),
        number(v),
        data_of(h, h.len(), v) is Ok,
        loaded(g, data_of(h, h.len(), v)->Ok_0).0.len() <= usize::MAX,
    ensures
        ({
            let x = data_of(h, h.len(), v)->Ok_0;
            let (a, r) = loaded(g, x);
            &&& r is Ok
            &&& data_of(a, a.len(), r->Ok_0) == Ok::<DataV, Seq<char>>(x)
            &&& extends(g, a)
            &&& fresh(g.len() as int, a.len() as int, r->Ok_0)
        }),
{
    lemma_copied(h, h.len(), v, g, g.len() as int);
}

} // verus!
