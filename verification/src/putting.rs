//! What is put is what is read: how the writes of an item and the reading of a
//! location fit together.

use crate::bytes::starts_with;
use crate::codec::{
    law_children_and_metadata_apart, law_siblings_disjoint, law_uvarint_roundtrip, uvarint,
};
use crate::collections::same_under;
use crate::data::{cbor_bytes, data_of_int, reads_as, DataV};
use crate::db::{ascending_keys, law_put, lookup, with_row, RowV};
use crate::dynpath::{exact_i64, located, located_step, place_of, put_fields, put_of, put_ops, sum_value};
use crate::error::ErrorV;
use crate::float::FactV;
use crate::nav::{collecting, query_collects, NavV, QueryV};
use crate::op::{
    append_changes, batch_of, changed_all, clear_changes, committed, BatchV, ChangeV, OpV,
};
use crate::reading::{
    db_step, field_key, focus_spread, focus_step, focus_steps, found, item_get, materialized,
    record_pairs, root_of, FocusV,
};
use crate::schema::{law_sum_roundtrip, signed, twos};
use crate::shape::ShapeV;
use crate::terminal::subtree_of;
use crate::value::TryV;
use crate::whole::as_u64_of;
use vstd::prelude::*;

verus! {

/// What a location gives once `d` is put there: a record its fields by their
/// names, a sum its number.
pub open spec fn held(shape: ShapeV, d: DataV) -> DataV
    decreases shape, 0int, 0int,
{
    match shape {
        ShapeV::Sum => match exact_i64(d) {
            Some(i) => data_of_int(i as int),
            None => d,
        },
        ShapeV::Record { fields } => DataV::Dict(held_fields(fields, d, fields.len() as int)),
        _ => d,
    }
}

/// What the first `n` fields give.
pub open spec fn held_fields(fields: Seq<(Seq<char>, ShapeV)>, d: DataV, n: int) -> Seq<
    (DataV, DataV),
>
    decreases fields, 1int, n,
{
    if n <= 0 || n > fields.len() {
        Seq::empty()
    } else {
        let name = DataV::Text(fields[n - 1].0);
        held_fields(fields, d, n - 1).push((name, held(fields[n - 1].1, item_get(d, name))))
    }
}

/// `d` can be put at a location of that shape as a whole: a leaf takes what its
/// stored form gives back, a sum a number, and a record a map that has an item
/// for each field that is no leaf.
pub open spec fn fits(shape: ShapeV, d: DataV) -> bool
    decreases shape, 0int, 0int,
{
    match shape {
        ShapeV::Leaf => reads_as(cbor_bytes(d), d),
        ShapeV::Sum => sum_value(d) is Ok,
        ShapeV::Record { fields } => fields.len() <= u32::MAX && fits_fields(
            fields,
            d,
            fields.len() as int,
        ),
        _ => false,
    }
}

/// The first `n` fields take what `d` has for them.
pub open spec fn fits_fields(fields: Seq<(Seq<char>, ShapeV)>, d: DataV, n: int) -> bool
    decreases fields, 1int, n,
{
    n <= 0 || n > fields.len() || {
        let v = item_get(d, DataV::Text(fields[n - 1].0));
        &&& fits_fields(fields, d, n - 1)
        &&& !(v is Null) || fields[n - 1].1 is Leaf
        &&& fits(fields[n - 1].1, v)
    }
}

/// The rows once the first `n` operations, which are puts, are done.
pub open spec fn put_rows(s: Seq<RowV>, ops: Seq<OpV>, n: int) -> Seq<RowV>
    decreases n,
{
    if n <= 0 || n > ops.len() {
        s
    } else {
        match ops[n - 1] {
            OpV::Put { key, value } => with_row(put_rows(s, ops, n - 1), key, value),
            _ => put_rows(s, ops, n - 1),
        }
    }
}

/// All operations are puts.
pub open spec fn all_put(ops: Seq<OpV>) -> bool {
    forall|i: int| 0 <= i < ops.len() ==> #[trigger] ops[i] is Put
}

/// The rows that the operations change lie under `prefix`.
pub open spec fn only_under(s: Seq<RowV>, t: Seq<RowV>, prefix: Seq<u8>) -> bool {
    forall|k: Seq<u8>| !starts_with(k, prefix) ==> #[trigger] lookup(t, k) == lookup(s, k)
}

proof fn lemma_put_rows_join(s: Seq<RowV>, a: Seq<OpV>, b: Seq<OpV>, n: int)
    requires
        0 <= n <= b.len(),
    ensures
        put_rows(s, a + b, a.len() + n) == put_rows(put_rows(s, a, a.len() as int), b, n),
    decreases n,
{
    if n > 0 {
        lemma_put_rows_join(s, a, b, n - 1);
        assert((a + b)[a.len() + n - 1] == b[n - 1]);
    } else {
        lemma_put_rows_front(s, a, b, a.len() as int);
    }
}

proof fn lemma_put_rows_front(s: Seq<RowV>, a: Seq<OpV>, b: Seq<OpV>, n: int)
    requires
        0 <= n <= a.len(),
    ensures
        put_rows(s, a + b, n) == put_rows(s, a, n),
    decreases n,
{
    if n > 0 {
        lemma_put_rows_front(s, a, b, n - 1);
        assert((a + b)[n - 1] == a[n - 1]);
    }
}

proof fn lemma_field_under(prefix: Seq<u8>, i: int, k: Seq<u8>)
    requires
        starts_with(k, field_key(prefix, i)),
    ensures
        starts_with(k, prefix),
{
    let c = field_key(prefix, i);
    law_children_and_metadata_apart(prefix, uvarint(i as u32 as nat), Seq::empty());
    assert(starts_with(c, prefix));
    assert(k.take(prefix.len() as int) =~= k.take(c.len() as int).take(prefix.len() as int));
}

proof fn lemma_short(v: nat)
    ensures
        uvarint(v).len() <= v + 1,
    decreases v,
{
    if v >= 128 {
        lemma_short(v / 128);
    }
}

proof fn lemma_fields_apart(prefix: Seq<u8>, i: int, j: int, k: Seq<u8>)
    requires
        0 <= i <= u32::MAX,
        0 <= j <= u32::MAX,
        starts_with(k, field_key(prefix, i)),
        starts_with(k, field_key(prefix, j)),
    ensures
        i == j,
{
    let a = uvarint(i as u32 as nat);
    let b = uvarint(j as u32 as nat);
    law_uvarint_roundtrip(i as u64, Seq::empty());
    law_uvarint_roundtrip(j as u64, Seq::empty());
    lemma_short(i as nat);
    lemma_short(j as nat);
    assert(a + Seq::<u8>::empty() =~= a);
    assert(b + Seq::<u8>::empty() =~= b);
    law_siblings_disjoint(prefix, a, b, k);
}

proof fn lemma_local(s: Seq<RowV>, t: Seq<RowV>, prefix: Seq<u8>, shape: ShapeV, d: DataV)
    requires
        same_under(s, t, prefix),
        fits(shape, d),
    ensures
        materialized(s, prefix, shape) == materialized(t, prefix, shape),
    decreases shape, 0int, 0int,
{
    assert(starts_with(prefix, prefix)) by {
        assert(prefix.take(prefix.len() as int) =~= prefix);
    }
    assert(lookup(s, prefix) == lookup(t, prefix));
    if let ShapeV::Record { fields } = shape {
        lemma_local_fields(s, t, prefix, fields, d, fields.len() as int);
    }
}

proof fn lemma_local_fields(
    s: Seq<RowV>,
    t: Seq<RowV>,
    prefix: Seq<u8>,
    fields: Seq<(Seq<char>, ShapeV)>,
    d: DataV,
    n: int,
)
    requires
        same_under(s, t, prefix),
        fits_fields(fields, d, n),
        0 <= n <= fields.len(),
    ensures
        record_pairs(s, prefix, fields, n) == record_pairs(t, prefix, fields, n),
    decreases fields, 1int, n,
{
    if n > 0 {
        lemma_local_fields(s, t, prefix, fields, d, n - 1);
        let c = field_key(prefix, n - 1);
        assert(same_under(s, t, c)) by {
            assert forall|k: Seq<u8>| starts_with(k, c) implies #[trigger] lookup(s, k) == lookup(
                t,
                k,
            ) by {
                lemma_field_under(prefix, n - 1, k);
            }
        }
        lemma_local(s, t, c, fields[n - 1].1, item_get(d, DataV::Text(fields[n - 1].0)));
    }
}

proof fn lemma_kept_fields(
    s: Seq<RowV>,
    t: Seq<RowV>,
    prefix: Seq<u8>,
    fields: Seq<(Seq<char>, ShapeV)>,
    d: DataV,
    n: int,
    m: int,
)
    requires
        only_under(s, t, field_key(prefix, m)),
        fits_fields(fields, d, n),
        0 <= n <= m < fields.len() <= u32::MAX,
    ensures
        record_pairs(s, prefix, fields, n) == record_pairs(t, prefix, fields, n),
    decreases n,
{
    if n > 0 {
        lemma_kept_fields(s, t, prefix, fields, d, n - 1, m);
        let c = field_key(prefix, n - 1);
        assert(same_under(s, t, c)) by {
            assert forall|k: Seq<u8>| starts_with(k, c) implies #[trigger] lookup(s, k) == lookup(
                t,
                k,
            ) by {
                if starts_with(k, field_key(prefix, m)) {
                    lemma_fields_apart(prefix, n - 1, m, k);
                }
            }
        }
        lemma_local(s, t, c, fields[n - 1].1, item_get(d, DataV::Text(fields[n - 1].0)));
    }
}

proof fn lemma_put(s: Seq<RowV>, prefix: Seq<u8>, shape: ShapeV, d: DataV)
    requires
        ascending_keys(s),
        fits(shape, d),
    ensures
        put_ops(prefix, shape, d) is Ok,
        ({
            let ops = put_ops(prefix, shape, d)->Ok_0;
            let t = put_rows(s, ops, ops.len() as int);
            &&& all_put(ops)
            &&& ascending_keys(t)
            &&& materialized(t, prefix, shape) == Ok::<DataV, ErrorV>(held(shape, d))
            &&& only_under(s, t, prefix)
        }),
    decreases shape, 0int, 0int,
{
    assert(starts_with(prefix, prefix)) by {
        assert(prefix.take(prefix.len() as int) =~= prefix);
    }
    match shape {
        ShapeV::Leaf => {
            let b = cbor_bytes(d);
            law_put(s, prefix, b);
            let ops = seq![OpV::Put { key: prefix, value: b }];
            assert(put_rows(s, ops, 0) == s);
            assert(put_rows(s, ops, 1) == with_row(s, prefix, b));
            assert(lookup(with_row(s, prefix, b), prefix) == Some(b));
        },
        ShapeV::Sum => {
            let b = sum_value(d)->Ok_0;
            law_put(s, prefix, b);
            let ops = seq![OpV::Put { key: prefix, value: b }];
            assert(put_rows(s, ops, 0) == s);
            assert(put_rows(s, ops, 1) == with_row(s, prefix, b));
            assert(lookup(with_row(s, prefix, b), prefix) == Some(b));
            match exact_i64(d) {
                Some(i) => {
                    law_sum_roundtrip(1, twos(i as int));
                    assert(signed(twos(i as int)) == i);
                },
                None => {
                    if let DataV::Float(x) = d {
                        law_sum_roundtrip(0, x);
                    }
                },
            }
        },
        ShapeV::Record { fields } => {
            lemma_put_fields(s, prefix, fields, d, fields.len() as int);
        },
        _ => {},
    }
}

proof fn lemma_put_fields(
    s: Seq<RowV>,
    prefix: Seq<u8>,
    fields: Seq<(Seq<char>, ShapeV)>,
    d: DataV,
    n: int,
)
    requires
        ascending_keys(s),
        fields.len() <= u32::MAX,
        0 <= n <= fields.len(),
        fits_fields(fields, d, n),
    ensures
        put_fields(prefix, fields, d, n) is Ok,
        ({
            let ops = put_fields(prefix, fields, d, n)->Ok_0;
            let t = put_rows(s, ops, ops.len() as int);
            &&& all_put(ops)
            &&& ascending_keys(t)
            &&& record_pairs(t, prefix, fields, n) == Ok::<Seq<(DataV, DataV)>, ErrorV>(
                held_fields(fields, d, n),
            )
            &&& only_under(s, t, prefix)
        }),
    decreases fields, 1int, n,
{
    if n > 0 {
        lemma_put_fields(s, prefix, fields, d, n - 1);
        let ops = put_fields(prefix, fields, d, n - 1)->Ok_0;
        let t = put_rows(s, ops, ops.len() as int);
        let v = item_get(d, DataV::Text(fields[n - 1].0));
        let c = field_key(prefix, n - 1);
        lemma_put(t, c, fields[n - 1].1, v);
        let more = put_ops(c, fields[n - 1].1, v)->Ok_0;
        let u = put_rows(t, more, more.len() as int);
        lemma_put_rows_join(s, ops, more, more.len() as int);
        assert(put_fields(prefix, fields, d, n) == Ok::<Seq<OpV>, ErrorV>(ops + more));
        assert(put_rows(s, ops + more, (ops + more).len() as int) == u);
        lemma_kept_fields(t, u, prefix, fields, d, n - 1, n - 1);
        assert forall|i: int| 0 <= i < (ops + more).len() implies #[trigger] (ops + more)[i] is Put by {
            if i < ops.len() {
                assert((ops + more)[i] == ops[i]);
            } else {
                assert((ops + more)[i] == more[i - ops.len()]);
            }
        }
        assert forall|k: Seq<u8>| !starts_with(k, prefix) implies #[trigger] lookup(u, k) == lookup(
            s,
            k,
        ) by {
            if starts_with(k, c) {
                lemma_field_under(prefix, n - 1, k);
            }
            assert(lookup(u, k) == lookup(t, k));
        }
    }
}

proof fn lemma_puts_commit(f: Seq<FactV>, s: Seq<RowV>, ops: Seq<OpV>, n: int)
    requires
        all_put(ops),
        0 <= n <= ops.len(),
    ensures
        batch_of(ops, n) == (BatchV {
            changes: put_changes(ops).take(n),
            clears: Seq::empty(),
            appends: Seq::empty(),
        }),
        changed_all(f, s, put_changes(ops), n) == TryV::Done(put_rows(s, ops, n)),
    decreases n,
{
    let cs = put_changes(ops);
    if n > 0 {
        lemma_puts_commit(f, s, ops, n - 1);
        assert(ops[n - 1] is Put);
        assert(cs.take(n) =~= cs.take(n - 1).push(cs[n - 1]));
    } else {
        assert(cs.take(0) =~= Seq::<ChangeV>::empty());
    }
}

/// The changes of operations that are puts.
pub open spec fn put_changes(ops: Seq<OpV>) -> Seq<ChangeV> {
    Seq::new(
        ops.len(),
        |i: int|
            match ops[i] {
                OpV::Put { key, value } => ChangeV::Put { key, value },
                OpV::Delete { key } => ChangeV::Delete { key },
                _ => ChangeV::Delete { key: Seq::empty() },
            },
    )
}

/// What is put at a location is read there: once the writes of `d` are
/// committed, the location gives `d`, a record as a map of its fields; and what
/// lies outside the location is as it was.
pub proof fn law_put_is_read(
    f: Seq<FactV>,
    s: Seq<RowV>,
    schema: ShapeV,
    ns: Option<Seq<char>>,
    navs: Seq<NavV>,
    d: DataV,
)
    requires
        ascending_keys(s),
        place_of(schema, ns, navs) is Ok,
        fits(place_of(schema, ns, navs)->Ok_0.1, d),
    ensures
        put_of(schema, ns, navs, d) is Ok,
        ({
            let (prefix, shape) = place_of(schema, ns, navs)->Ok_0;
            let ops = put_of(schema, ns, navs, d)->Ok_0;
            let r = committed(f, s, batch_of(ops, ops.len() as int));
            &&& r is Ok
            &&& materialized(r->Ok_0, prefix, shape) == Ok::<DataV, ErrorV>(held(shape, d))
            &&& only_under(s, r->Ok_0, prefix)
        }),
{
    let (prefix, shape) = place_of(schema, ns, navs)->Ok_0;
    lemma_put(s, prefix, shape, d);
    let ops = put_of(schema, ns, navs, d)->Ok_0;
    let n = ops.len() as int;
    lemma_puts_commit(f, s, ops, n);
    let cs = put_changes(ops);
    let b = batch_of(ops, n);
    assert(cs.take(n) =~= cs);
    assert(append_changes(s, b.appends, 0) == Ok::<Seq<ChangeV>, ErrorV>(Seq::empty()));
    assert(b.changes + clear_changes(s, b.clears, 0) + Seq::<ChangeV>::empty() =~= cs);
}

/// Where a key leads into a list, it is an index that is written as one.
pub open spec fn indices_plain(schema: ShapeV, ns: Option<Seq<char>>, navs: Seq<NavV>) -> bool {
    forall|i: int|
        0 <= i < navs.len() ==> match (located(schema, ns, navs, i), #[trigger] navs[i]) {
            (Ok((_, ShapeV::List { of })), NavV::Key(k)) => k is UInt,
            _ => true,
        }
}

proof fn lemma_one_step(f: Seq<FactV>, s: Seq<RowV>, prefix: Seq<u8>, shape: ShapeV, nav: NavV)
    requires
        located_step(prefix, shape, nav) is Ok,
        shape is List && nav is Key ==> nav->Key_0 is UInt,
    ensures
        ({
            let (next, of) = located_step(prefix, shape, nav)->Ok_0;
            db_step(f, s, prefix, shape, nav) == Ok::<Seq<FocusV>, ErrorV>(
                seq![FocusV::Db { prefix: next, shape: of }],
            )
        }),
        !collecting(nav),
{
    match nav {
        NavV::Field(_) => {},
        NavV::Key(k) => {
            if let ShapeV::List { of } = shape {
                assert(as_u64_of(k) == Some(k->UInt_0));
            }
        },
        NavV::Index(_) => {},
        _ => {},
    }
}

proof fn lemma_led(f: Seq<FactV>, s: Seq<RowV>, schema: ShapeV, q: QueryV, n: int)
    requires
        0 <= n <= q.navs.len(),
        located(schema, q.namespace, q.navs, n) is Ok,
        indices_plain(schema, q.namespace, q.navs),
    ensures
        ({
            let (prefix, shape) = located(schema, q.namespace, q.navs, n)->Ok_0;
            focus_steps(f, s, seq![root_of(schema, q)], q.navs, n) == Ok::<Seq<FocusV>, ErrorV>(
                seq![FocusV::Db { prefix, shape }],
            )
        }),
        forall|i: int| 0 <= i < n ==> !collecting(#[trigger] q.navs[i]),
    decreases n,
{
    if n > 0 {
        assert(located(schema, q.namespace, q.navs, n - 1) is Ok);
        lemma_led(f, s, schema, q, n - 1);
        let (prefix, shape) = located(schema, q.namespace, q.navs, n - 1)->Ok_0;
        let nav = q.navs[n - 1];
        let here = seq![FocusV::Db { prefix, shape }];
        assert(located(schema, q.namespace, q.navs, n) == located_step(prefix, shape, nav));
        lemma_one_step(f, s, prefix, shape, nav);
        let (next, of) = located_step(prefix, shape, nav)->Ok_0;
        let there = seq![FocusV::Db { prefix: next, shape: of }];
        assert(focus_step(f, s, here[0], nav) == Ok::<Seq<FocusV>, ErrorV>(there));
        assert(focus_spread(f, s, here, nav, 0) == Ok::<Seq<FocusV>, ErrorV>(Seq::empty()));
        assert(Seq::<FocusV>::empty() + there =~= there);
        assert(focus_spread(f, s, here, nav, 1) == Ok::<Seq<FocusV>, ErrorV>(there));
    }
}

/// A path that can be written to is read at the same place, and there only.
pub proof fn law_paths_lead_alike(f: Seq<FactV>, s: Seq<RowV>, schema: ShapeV, q: QueryV)
    requires
        place_of(schema, q.namespace, q.navs) is Ok,
        indices_plain(schema, q.namespace, q.navs),
    ensures
        ({
            let (prefix, shape) = place_of(schema, q.namespace, q.navs)->Ok_0;
            &&& found(f, s, schema, q) == Ok::<Seq<FocusV>, ErrorV>(
                seq![FocusV::Db { prefix, shape }],
            )
            &&& subtree_of(f, s, schema, q) == materialized(s, prefix, shape)
        }),
{
    lemma_led(f, s, schema, q, q.navs.len() as int);
    assert(!query_collects(q));
}

/// What is put where a path leads is what the path reads.
pub proof fn law_put_is_what_the_path_reads(
    f: Seq<FactV>,
    s: Seq<RowV>,
    schema: ShapeV,
    q: QueryV,
    d: DataV,
)
    requires
        ascending_keys(s),
        place_of(schema, q.namespace, q.navs) is Ok,
        fits(place_of(schema, q.namespace, q.navs)->Ok_0.1, d),
        indices_plain(schema, q.namespace, q.navs),
    ensures
        put_of(schema, q.namespace, q.navs, d) is Ok,
        ({
            let shape = place_of(schema, q.namespace, q.navs)->Ok_0.1;
            let ops = put_of(schema, q.namespace, q.navs, d)->Ok_0;
            let r = committed(f, s, batch_of(ops, ops.len() as int));
            r is Ok && subtree_of(f, r->Ok_0, schema, q) == Ok::<DataV, ErrorV>(held(shape, d))
        }),
{
    law_put_is_read(f, s, schema, q.namespace, q.navs, d);
    let ops = put_of(schema, q.namespace, q.navs, d)->Ok_0;
    let r = committed(f, s, batch_of(ops, ops.len() as int));
    law_paths_lead_alike(f, r->Ok_0, schema, q);
}

} // verus!
