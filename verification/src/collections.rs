//! What the collections of a store are to their readers: a leaf is a cell, a
//! list a vector, a deque a double-ended queue, a map an ordered map and a sum a
//! number; and none of them sees what is written beside it.

use crate::bytes::{
    from_le, le, lemma_le_len, lemma_le_roundtrip, lemma_lex_irreflexive, lemma_pow256_8, lex_lt,
    starts_with,
};
use crate::codec::{
    child_of, law_children_and_metadata_apart, law_order_roundtrip, law_segment_roundtrip,
    law_segments_self_delimiting, law_siblings_disjoint, meta_of, ordered_i64, ordered_u64, segment,
    segment_at, upper_bound, DATA,
};
use crate::data::{cbor_read, reads_as, DataV};
use crate::db::{
    ascending_keys, cleared, law_clear, law_delete, law_put, law_scan, lemma_found, lookup,
    row_place, scan_of, with_row, without_row, RowV,
};
use crate::error::ErrorV;
use crate::float::FactV;
use crate::op::{
    append_changes, batch_of, changed_all, clear_changes, committed, deque_puts, empty_batch,
    goes_to, group_changes, head_name, index_bytes, len_name, list_len, list_puts, one_clear,
    recorded, resolved, tail_name, values_for, AppendV, BatchV, ChangeV, End, OpV,
};
use crate::path::{
    bounds_of, child_rows, deque_at, deque_items, deque_key, keys_at, keys_in, leaf_at, leaf_pairs,
    leaf_pairs_at, list_at, list_items, list_key, range_deleted, sum_at, taken,
};
use crate::schema::{law_sum_roundtrip, merged, signed, sum_bytes, total, twos};
use crate::value::TryV;
use vstd::prelude::*;

verus! {

/// What is written to a leaf is read there, and no other leaf changes.
pub proof fn law_leaf_reads_what_was_set(s: Seq<RowV>, k: Seq<u8>, b: Seq<u8>, d: DataV)
    requires
        ascending_keys(s),
        reads_as(b, d),
    ensures
        leaf_at(with_row(s, k, b), k) == Ok::<Option<DataV>, ErrorV>(Some(d)),
        leaf_at(without_row(s, k), k) == Ok::<Option<DataV>, ErrorV>(None),
        forall|j: Seq<u8>|
            j != k ==> #[trigger] leaf_at(with_row(s, k, b), j) == leaf_at(s, j),
        forall|j: Seq<u8>| j != k ==> #[trigger] leaf_at(without_row(s, k), j) == leaf_at(s, j),
{
    law_put(s, k, b);
    law_delete(s, k);
    assert(lookup(with_row(s, k, b), k) == Some(b));
    assert(lookup(without_row(s, k), k) is None);
    assert forall|j: Seq<u8>| j != k implies #[trigger] leaf_at(with_row(s, k, b), j) == leaf_at(
        s,
        j,
    ) by {
        assert(lookup(with_row(s, k, b), j) == lookup(s, j));
    }
    assert forall|j: Seq<u8>| j != k implies #[trigger] leaf_at(without_row(s, k), j) == leaf_at(
        s,
        j,
    ) by {
        assert(lookup(without_row(s, k), j) == lookup(s, j));
    }
}

/// The rows `s` and `t` are the same under `prefix`.
pub open spec fn same_under(s: Seq<RowV>, t: Seq<RowV>, prefix: Seq<u8>) -> bool {
    forall|k: Seq<u8>| starts_with(k, prefix) ==> #[trigger] lookup(s, k) == lookup(t, k)
}

pub proof fn lemma_list_items(s: Seq<RowV>, prefix: Seq<u8>, n: int, xs: Seq<DataV>)
    requires
        0 <= n,
    ensures
        list_items(s, prefix, n) == Ok::<Seq<DataV>, ErrorV>(xs) <==> (xs.len() == n && forall|i: int|
            0 <= i < n ==> leaf_at(s, #[trigger] list_key(prefix, i)) == Ok::<
                Option<DataV>,
                ErrorV,
            >(Some(xs[i]))),
    decreases n,
{
    if n > 0 {
        lemma_list_items(s, prefix, n - 1, xs.drop_last());
        let want = xs.len() == n && forall|i: int|
            0 <= i < n ==> leaf_at(s, #[trigger] list_key(prefix, i)) == Ok::<
                Option<DataV>,
                ErrorV,
            >(Some(xs[i]));
        if want {
            assert(leaf_at(s, list_key(prefix, n - 1)) == Ok::<Option<DataV>, ErrorV>(
                Some(xs[n - 1]),
            ));
            assert forall|i: int| 0 <= i < n - 1 implies leaf_at(s, #[trigger] list_key(prefix, i))
                == Ok::<Option<DataV>, ErrorV>(Some(xs.drop_last()[i])) by {}
            assert(xs.drop_last().push(xs[n - 1]) =~= xs);
        }
        if list_items(s, prefix, n) == Ok::<Seq<DataV>, ErrorV>(xs) {
            let ys = list_items(s, prefix, n - 1)->Ok_0;
            assert(xs.drop_last() =~= ys);
            assert forall|i: int| 0 <= i < n implies leaf_at(s, #[trigger] list_key(prefix, i))
                == Ok::<Option<DataV>, ErrorV>(Some(xs[i])) by {
                if i < n - 1 {
                    assert(xs.drop_last()[i] == xs[i]);
                }
            }
        }
    } else {
        assert(xs.len() == 0 ==> xs =~= Seq::<DataV>::empty());
    }
}

pub proof fn lemma_deque_items(s: Seq<RowV>, prefix: Seq<u8>, head: int, to: int, xs: Seq<DataV>)
    requires
        head <= to,
    ensures
        deque_items(s, prefix, head, to) == Ok::<Seq<DataV>, ErrorV>(xs) <==> (xs.len() == to - head
            && forall|i: int|
            head <= i < to ==> leaf_at(s, #[trigger] deque_key(prefix, i)) == Ok::<
                Option<DataV>,
                ErrorV,
            >(Some(xs[i - head]))),
    decreases to - head,
{
    if to > head {
        lemma_deque_items(s, prefix, head, to - 1, xs.drop_last());
        let want = xs.len() == to - head && forall|i: int|
            head <= i < to ==> leaf_at(s, #[trigger] deque_key(prefix, i)) == Ok::<
                Option<DataV>,
                ErrorV,
            >(Some(xs[i - head]));
        if want {
            assert(leaf_at(s, deque_key(prefix, to - 1)) == Ok::<Option<DataV>, ErrorV>(
                Some(xs[to - 1 - head]),
            ));
            assert forall|i: int| head <= i < to - 1 implies leaf_at(
                s,
                #[trigger] deque_key(prefix, i),
            ) == Ok::<Option<DataV>, ErrorV>(Some(xs.drop_last()[i - head])) by {}
            assert(xs.drop_last().push(xs[to - 1 - head]) =~= xs);
        }
        if deque_items(s, prefix, head, to) == Ok::<Seq<DataV>, ErrorV>(xs) {
            let ys = deque_items(s, prefix, head, to - 1)->Ok_0;
            assert(xs.drop_last() =~= ys);
            assert forall|i: int| head <= i < to implies leaf_at(s, #[trigger] deque_key(prefix, i))
                == Ok::<Option<DataV>, ErrorV>(Some(xs[i - head])) by {
                if i < to - 1 {
                    assert(xs.drop_last()[i - head] == xs[i - head]);
                }
            }
        }
    } else {
        assert(xs.len() == 0 ==> xs =~= Seq::<DataV>::empty());
    }
}

proof fn lemma_list_keys(prefix: Seq<u8>, i: int, j: int)
    requires
        0 <= i <= u64::MAX,
        0 <= j <= u64::MAX,
        list_key(prefix, i) == list_key(prefix, j),
    ensures
        i == j,
{
    law_order_roundtrip(0, i as u64);
    law_order_roundtrip(0, j as u64);
    lemma_self(list_key(prefix, i));
    law_siblings_disjoint(prefix, ordered_u64(i), ordered_u64(j), list_key(prefix, i));
}

proof fn lemma_deque_keys(prefix: Seq<u8>, i: int, j: int)
    requires
        i64::MIN <= i <= i64::MAX,
        i64::MIN <= j <= i64::MAX,
        deque_key(prefix, i) == deque_key(prefix, j),
    ensures
        i == j,
{
    law_order_roundtrip(i as i64, 0);
    law_order_roundtrip(j as i64, 0);
    lemma_self(deque_key(prefix, i));
    law_siblings_disjoint(prefix, ordered_i64(i), ordered_i64(j), deque_key(prefix, i));
}

proof fn lemma_self(k: Seq<u8>)
    ensures
        starts_with(k, k),
{
    assert(k.take(k.len() as int) =~= k);
}

/// A child is no metadata.
proof fn lemma_apart(prefix: Seq<u8>, seg: Seq<u8>, name: Seq<u8>)
    ensures
        child_of(prefix, seg) != meta_of(prefix, name),
        starts_with(child_of(prefix, seg), prefix),
        starts_with(meta_of(prefix, name), prefix),
{
    law_children_and_metadata_apart(prefix, seg, name);
    lemma_self(child_of(prefix, seg));
}

proof fn lemma_bounds_apart(prefix: Seq<u8>)
    ensures
        meta_of(prefix, head_name()) != meta_of(prefix, tail_name()),
{
    if meta_of(prefix, head_name()) == meta_of(prefix, tail_name()) {
        let n = prefix.len() as int + 1;
        assert(meta_of(prefix, head_name()).skip(n) =~= segment(head_name()));
        assert(meta_of(prefix, tail_name()).skip(n) =~= segment(tail_name()));
        assert(segment(head_name()) + Seq::<u8>::empty() =~= segment(tail_name()) + Seq::<
            u8,
        >::empty());
        law_segments_self_delimiting(
            head_name(),
            Seq::<u8>::empty(),
            tail_name(),
            Seq::<u8>::empty(),
        );
        assert(head_name()[0] == tail_name()[0]);
    }
}

proof fn lemma_count(n: int)
    requires
        0 <= n <= u64::MAX,
    ensures
        le(n, 8).len() == 8,
        from_le(le(n, 8)) == n,
{
    lemma_pow256_8();
    lemma_le_len(n, 8);
    lemma_le_roundtrip(n, 8);
}

proof fn lemma_index(i: int)
    requires
        i64::MIN <= i <= i64::MAX,
    ensures
        index_bytes(i).len() == 8,
        signed(from_le(index_bytes(i)) as u64) == i,
{
    lemma_count(twos(i) as int);
}

/// The batch of the first `n` appends to one collection.
proof fn lemma_push_batch(prefix: Seq<u8>, ends: Seq<End>, values: Seq<Seq<u8>>, n: int)
    requires
        0 <= n <= values.len(),
        ends.len() == values.len(),
    ensures
        batch_of(push_ops(prefix, ends, values), n).changes == Seq::<ChangeV>::empty(),
        batch_of(push_ops(prefix, ends, values), n).clears == Seq::<Seq<u8>>::empty(),
        batch_of(push_ops(prefix, ends, values), n).appends == pushed_to(
            prefix,
            ends,
            values,
        ).take(n),
    decreases n,
{
    let all = pushed_to(prefix, ends, values);
    if n > 0 {
        lemma_push_batch(prefix, ends, values, n - 1);
        assert(push_ops(prefix, ends, values)[n - 1] == push_op(
            prefix,
            ends[n - 1],
            values[n - 1],
        ));
        assert(all.take(n) =~= all.take(n - 1).push(
            AppendV { prefix, end: ends[n - 1], value: values[n - 1] },
        ));
    } else {
        assert(all.take(0) =~= Seq::<AppendV>::empty());
    }
}

/// The operation that appends to an end of a collection.
pub open spec fn push_op(prefix: Seq<u8>, end: End, value: Seq<u8>) -> OpV {
    match end {
        End::ListBack => OpV::ListPush { prefix, value },
        End::DequeBack => OpV::DequePushBack { prefix, value },
        End::DequeFront => OpV::DequePushFront { prefix, value },
    }
}

/// The operations that append each of `values` to its end of a collection.
pub open spec fn push_ops(prefix: Seq<u8>, ends: Seq<End>, values: Seq<Seq<u8>>) -> Seq<OpV> {
    Seq::new(values.len(), |i: int| push_op(prefix, ends[i], values[i]))
}

/// The appends of each of `values` to its end of a collection.
pub open spec fn pushed_to(prefix: Seq<u8>, ends: Seq<End>, values: Seq<Seq<u8>>) -> Seq<AppendV> {
    Seq::new(values.len(), |i: int| AppendV { prefix, end: ends[i], value: values[i] })
}

/// The one end of a list, `n` times.
pub open spec fn list_ends(n: nat) -> Seq<End> {
    Seq::new(n, |i: int| End::ListBack)
}

/// No end is that of a list.
pub open spec fn deque_ends(ends: Seq<End>) -> bool {
    forall|i: int| 0 <= i < ends.len() ==> #[trigger] ends[i] != End::ListBack
}

/// Those of the first `n` of `xs` that go to `end`.
pub open spec fn to_end<T>(ends: Seq<End>, end: End, xs: Seq<T>, n: int) -> Seq<T>
    decreases n,
{
    if n <= 0 || n > xs.len() {
        Seq::empty()
    } else {
        let rest = to_end(ends, end, xs, n - 1);
        if ends[n - 1] == end {
            rest.push(xs[n - 1])
        } else {
            rest
        }
    }
}

proof fn lemma_values_for(
    prefix: Seq<u8>,
    ends: Seq<End>,
    end: End,
    values: Seq<Seq<u8>>,
    n: int,
)
    requires
        0 <= n <= values.len(),
    ensures
        values_for(pushed_to(prefix, ends, values), prefix, end, n) == to_end(ends, end, values, n),
    decreases n,
{
    if n > 0 {
        lemma_values_for(prefix, ends, end, values, n - 1);
    }
}

proof fn lemma_to_list(values: Seq<Seq<u8>>, n: int)
    requires
        0 <= n <= values.len(),
    ensures
        to_end(list_ends(values.len()), End::ListBack, values, n) == values.take(n),
    decreases n,
{
    if n > 0 {
        lemma_to_list(values, n - 1);
        assert(values.take(n) =~= values.take(n - 1).push(values[n - 1]));
    } else {
        assert(values.take(0) =~= Seq::<Seq<u8>>::empty());
    }
}

/// What goes to an end reads as the items that go there.
proof fn lemma_to_end_reads(
    ends: Seq<End>,
    end: End,
    values: Seq<Seq<u8>>,
    ds: Seq<DataV>,
    n: int,
)
    requires
        0 <= n <= values.len(),
        all_read(values, ds),
    ensures
        all_read(to_end(ends, end, values, n), to_end(ends, end, ds, n)),
    decreases n,
{
    if n > 0 {
        lemma_to_end_reads(ends, end, values, ds, n - 1);
        assert(reads_as(values[n - 1], ds[n - 1]));
    }
}

/// Appends that all go to one collection make one group.
proof fn lemma_append_changes(
    s: Seq<RowV>,
    prefix: Seq<u8>,
    ends: Seq<End>,
    values: Seq<Seq<u8>>,
    n: int,
)
    requires
        0 < n <= values.len(),
        ends == list_ends(values.len()) || ends.len() == values.len() && deque_ends(ends),
        group_changes(s, prefix, ends[0], pushed_to(prefix, ends, values)) is Ok,
    ensures
        append_changes(s, pushed_to(prefix, ends, values), n) == group_changes(
            s,
            prefix,
            ends[0],
            pushed_to(prefix, ends, values),
        ),
    decreases n,
{
    let a = pushed_to(prefix, ends, values);
    assert(a[n - 1] == (AppendV { prefix, end: ends[n - 1], value: values[n - 1] }));
    let cs = group_changes(s, prefix, ends[0], a)->Ok_0;
    if n > 1 {
        lemma_append_changes(s, prefix, ends, values, n - 1);
        assert(ends[n - 1] == End::ListBack <==> ends[0] == End::ListBack);
        assert(goes_to(a[0], prefix, ends[n - 1]));
    } else {
        assert(append_changes(s, a, 0) == Ok::<Seq<ChangeV>, ErrorV>(Seq::empty()));
        assert(Seq::<ChangeV>::empty() + cs =~= cs);
    }
}

/// The rows once a batch is committed that appends each of `values` to its end
/// of one collection.
pub open spec fn extended(
    s: Seq<RowV>,
    prefix: Seq<u8>,
    ends: Seq<End>,
    values: Seq<Seq<u8>>,
) -> Result<Seq<RowV>, ErrorV> {
    committed(
        Seq::empty(),
        s,
        batch_of(push_ops(prefix, ends, values), values.len() as int),
    )
}

proof fn lemma_extended(s: Seq<RowV>, prefix: Seq<u8>, ends: Seq<End>, values: Seq<Seq<u8>>)
    requires
        values.len() > 0,
        ends == list_ends(values.len()) || ends.len() == values.len() && deque_ends(ends),
        group_changes(s, prefix, ends[0], pushed_to(prefix, ends, values)) is Ok,
    ensures
        ({
            let cs = group_changes(s, prefix, ends[0], pushed_to(prefix, ends, values))->Ok_0;
            let n = values.len() as int;
            resolved(s, batch_of(push_ops(prefix, ends, values), n)) == Ok::<Seq<ChangeV>, ErrorV>(
                cs,
            )
        }),
{
    let ops = push_ops(prefix, ends, values);
    let n = values.len() as int;
    lemma_push_batch(prefix, ends, values, n);
    let all = pushed_to(prefix, ends, values);
    assert(all.take(n) =~= all);
    lemma_append_changes(s, prefix, ends, values, n);
    let cs = group_changes(s, prefix, ends[0], all)->Ok_0;
    let b = batch_of(ops, n);
    assert(b.changes + clear_changes(s, b.clears, 0) + cs =~= cs);
}

proof fn lemma_list_puts_at(prefix: Seq<u8>, len: int, values: Seq<Seq<u8>>, n: int)
    requires
        0 <= n <= values.len(),
    ensures
        list_puts(prefix, len, values, n).len() == n,
        forall|i: int|
            0 <= i < n ==> #[trigger] list_puts(prefix, len, values, n)[i] == (ChangeV::Put {
                key: list_key(prefix, len + i),
                value: values[i],
            }),
    decreases n,
{
    if n > 0 {
        lemma_list_puts_at(prefix, len, values, n - 1);
    }
}

proof fn lemma_deque_puts_at(prefix: Seq<u8>, at: int, back: bool, values: Seq<Seq<u8>>, n: int)
    requires
        0 <= n <= values.len(),
    ensures
        deque_puts(prefix, at, back, values, n).len() == n,
        forall|i: int|
            0 <= i < n ==> #[trigger] deque_puts(prefix, at, back, values, n)[i] == (ChangeV::Put {
                key: deque_key(prefix, slot(at, back, i)),
                value: values[i],
            }),
    decreases n,
{
    if n > 0 {
        lemma_deque_puts_at(prefix, at, back, values, n - 1);
    }
}

/// The index of the value `i` that is pushed to an end of a deque.
pub open spec fn slot(at: int, back: bool, i: int) -> int {
    if back {
        at + i
    } else {
        at - i - 1
    }
}

/// The keys that changes put values at.
pub open spec fn all_puts(cs: Seq<ChangeV>, ks: Seq<Seq<u8>>, vs: Seq<Seq<u8>>) -> bool {
    &&& cs.len() == ks.len() == vs.len()
    &&& forall|i: int|
        0 <= i < cs.len() ==> #[trigger] cs[i] == (ChangeV::Put { key: ks[i], value: vs[i] })
}

proof fn lemma_puts(s: Seq<RowV>, cs: Seq<ChangeV>, ks: Seq<Seq<u8>>, vs: Seq<Seq<u8>>, n: int)
    requires
        ascending_keys(s),
        all_puts(cs, ks, vs),
        0 <= n <= cs.len(),
        forall|i: int, j: int| 0 <= i < j < ks.len() ==> #[trigger] ks[i] != #[trigger] ks[j],
    ensures
        changed_all(Seq::<FactV>::empty(), s, cs, n) is Done,
        ({
            let t = changed_all(Seq::<FactV>::empty(), s, cs, n)->Done_0;
            &&& ascending_keys(t)
            &&& forall|i: int| 0 <= i < n ==> lookup(t, #[trigger] ks[i]) == Some(vs[i])
            &&& forall|k: Seq<u8>|
                (forall|i: int| 0 <= i < n ==> #[trigger] ks[i] != k) ==> #[trigger] lookup(t, k)
                    == lookup(s, k)
        }),
    decreases n,
{
    if n > 0 {
        lemma_puts(s, cs, ks, vs, n - 1);
        let f = Seq::<FactV>::empty();
        let t0 = changed_all(f, s, cs, n - 1)->Done_0;
        assert(cs[n - 1] == (ChangeV::Put { key: ks[n - 1], value: vs[n - 1] }));
        law_put(t0, ks[n - 1], vs[n - 1]);
        let t = with_row(t0, ks[n - 1], vs[n - 1]);
        assert(changed_all(f, s, cs, n) == TryV::Done(t));
        assert forall|i: int| 0 <= i < n implies lookup(t, #[trigger] ks[i]) == Some(vs[i]) by {
            if i < n - 1 {
                assert(ks[i] != ks[n - 1]);
                assert(lookup(t0, ks[i]) == Some(vs[i]));
            }
        }
        assert forall|k: Seq<u8>|
            (forall|i: int| 0 <= i < n ==> #[trigger] ks[i] != k) implies #[trigger] lookup(t, k)
            == lookup(s, k) by {
            assert(ks[n - 1] != k);
            assert(lookup(t0, k) == lookup(s, k));
        }
    }
}

/// The rows differ at the keys `ks` only.
pub open spec fn changes_only(s: Seq<RowV>, t: Seq<RowV>, ks: Seq<Seq<u8>>) -> bool {
    forall|k: Seq<u8>| !ks.contains(k) ==> #[trigger] lookup(t, k) == lookup(s, k)
}

/// The keys of the list elements from `from` on, and that of the length.
pub open spec fn list_span(prefix: Seq<u8>, from: int, n: nat) -> Seq<Seq<u8>> {
    Seq::new(n, |i: int| list_key(prefix, from + i)).push(meta_of(prefix, len_name()))
}

/// The keys of `b` elements from `t` on and of `f` elements down from `h`, and
/// those of the bounds.
pub open spec fn deque_span(prefix: Seq<u8>, h: int, t: int, f: nat, b: nat) -> Seq<Seq<u8>> {
    (Seq::new(b, |i: int| deque_key(prefix, t + i)) + Seq::new(
        f,
        |i: int| deque_key(prefix, h - i - 1),
    )).push(meta_of(prefix, head_name())).push(meta_of(prefix, tail_name()))
}

/// The values are the stored forms of the items.
pub open spec fn all_read(values: Seq<Seq<u8>>, ds: Seq<DataV>) -> bool {
    &&& values.len() == ds.len()
    &&& forall|i: int| 0 <= i < ds.len() ==> reads_as(#[trigger] values[i], ds[i])
}

proof fn lemma_changes_only(s: Seq<RowV>, t: Seq<RowV>, ks: Seq<Seq<u8>>)
    requires
        forall|k: Seq<u8>|
            (forall|i: int| 0 <= i < ks.len() ==> #[trigger] ks[i] != k) ==> #[trigger] lookup(t, k)
                == lookup(s, k),
    ensures
        changes_only(s, t, ks),
{
    assert forall|k: Seq<u8>| !ks.contains(k) implies #[trigger] lookup(t, k) == lookup(s, k) by {
        assert forall|i: int| 0 <= i < ks.len() implies #[trigger] ks[i] != k by {}
    }
}

/// A list is a vector: what is pushed comes behind what was there, at the
/// indices that follow one another, whether it is pushed one by one or in a
/// batch; and nothing outside the list changes.
pub proof fn law_list_push(
    s: Seq<RowV>,
    prefix: Seq<u8>,
    xs: Seq<DataV>,
    values: Seq<Seq<u8>>,
    ds: Seq<DataV>,
)
    requires
        ascending_keys(s),
        list_at(s, prefix) == Ok::<Seq<DataV>, ErrorV>(xs),
        all_read(values, ds),
        0 < values.len(),
        xs.len() + values.len() <= u64::MAX,
    ensures
        extended(s, prefix, list_ends(values.len()), values) is Ok,
        ({
            let t = extended(s, prefix, list_ends(values.len()), values)->Ok_0;
            &&& ascending_keys(t)
            &&& list_at(t, prefix) == Ok::<Seq<DataV>, ErrorV>(xs + ds)
            &&& list_len(t, prefix) == Ok::<u64, ErrorV>((xs.len() + ds.len()) as u64)
            &&& changes_only(s, t, list_span(prefix, xs.len() as int, values.len()))
            &&& forall|k: Seq<u8>|
                !starts_with(k, prefix) ==> #[trigger] lookup(t, k) == lookup(s, k)
        }),
{
    let n = values.len() as int;
    let len = list_len(s, prefix)->Ok_0 as int;
    lemma_list_items(s, prefix, len, xs);
    let mk = meta_of(prefix, len_name());
    let mv = le(len + n, 8);
    let puts = list_puts(prefix, len, values, n);
    let cs = puts.push(ChangeV::Put { key: mk, value: mv });
    let ks = Seq::new(n as nat, |i: int| list_key(prefix, len + i)).push(mk);
    let vs = values.push(mv);
    lemma_list_puts_at(prefix, len, values, n);
    let ends = list_ends(values.len());
    lemma_values_for(prefix, ends, End::ListBack, values, n);
    lemma_to_list(values, n);
    assert(values.take(n) =~= values);
    assert(ends[0] == End::ListBack);
    lemma_extended(s, prefix, ends, values);
    assert forall|i: int, j: int| 0 <= i < j < ks.len() implies #[trigger] ks[i] != #[trigger] ks[j] by {
        lemma_apart(prefix, ordered_u64(len + i), len_name());
        if j < n && ks[i] == ks[j] {
            lemma_list_keys(prefix, len + i, len + j);
        }
    }
    assert forall|i: int| 0 <= i < cs.len() implies #[trigger] cs[i] == (ChangeV::Put {
        key: ks[i],
        value: vs[i],
    }) by {
        if i < n {
            assert(cs[i] == puts[i]);
        }
    }
    lemma_puts(s, cs, ks, vs, n + 1);
    let t = changed_all(Seq::<FactV>::empty(), s, cs, n + 1)->Done_0;
    assert(extended(s, prefix, list_ends(values.len()), values) == Ok::<Seq<RowV>, ErrorV>(t));
    lemma_count(len + n);
    assert(ks[n] == mk);
    assert(lookup(t, mk) == Some(mv));
    let ys = xs + ds;
    assert forall|i: int| 0 <= i < len + n implies leaf_at(t, #[trigger] list_key(prefix, i))
        == Ok::<Option<DataV>, ErrorV>(Some(ys[i])) by {
        let k = list_key(prefix, i);
        if i < len {
            assert forall|j: int| 0 <= j < n + 1 implies #[trigger] ks[j] != k by {
                lemma_apart(prefix, ordered_u64(i), len_name());
                if j < n && ks[j] == k {
                    lemma_list_keys(prefix, len + j, i);
                }
            }
            assert(lookup(t, k) == lookup(s, k));
            assert(leaf_at(s, k) == Ok::<Option<DataV>, ErrorV>(Some(xs[i])));
        } else {
            assert(ks[i - len] == k);
            assert(lookup(t, k) == Some(values[i - len]));
            assert(reads_as(values[i - len], ds[i - len]));
        }
    }
    lemma_list_items(t, prefix, len + n, ys);
    assert(ks =~= list_span(prefix, len, n as nat));
    lemma_changes_only(s, t, ks);
    assert forall|k: Seq<u8>| !starts_with(k, prefix) implies #[trigger] lookup(t, k) == lookup(
        s,
        k,
    ) by {
        assert forall|j: int| 0 <= j < n + 1 implies #[trigger] ks[j] != k by {
            lemma_apart(prefix, ordered_u64(len + j), len_name());
        }
    }
}

/// A pop takes the last element of a list, and leaves the others.
pub proof fn law_list_pop(s: Seq<RowV>, prefix: Seq<u8>, xs: Seq<DataV>)
    requires
        ascending_keys(s),
        list_at(s, prefix) == Ok::<Seq<DataV>, ErrorV>(xs),
        xs.len() > 0,
    ensures
        ({
            let n = xs.len() as int;
            let t = taken(
                s,
                list_key(prefix, n - 1),
                meta_of(prefix, len_name()),
                le(n - 1, 8),
            );
            &&& list_len(s, prefix) == Ok::<u64, ErrorV>(n as u64)
            &&& leaf_at(s, list_key(prefix, n - 1)) == Ok::<Option<DataV>, ErrorV>(Some(xs.last()))
            &&& list_at(t, prefix) == Ok::<Seq<DataV>, ErrorV>(xs.drop_last())
            &&& ascending_keys(t)
            &&& lookup(t, list_key(prefix, n - 1)) is None
            &&& changes_only(s, t, list_span(prefix, n - 1, 1))
            &&& forall|k: Seq<u8>|
                !starts_with(k, prefix) ==> #[trigger] lookup(t, k) == lookup(s, k)
        }),
{
    let n = list_len(s, prefix)->Ok_0 as int;
    lemma_list_items(s, prefix, n, xs);
    let key = list_key(prefix, n - 1);
    let mk = meta_of(prefix, len_name());
    lemma_apart(prefix, ordered_u64(n - 1), len_name());
    assert(leaf_at(s, list_key(prefix, n - 1)) == Ok::<Option<DataV>, ErrorV>(Some(xs[n - 1])));
    let u = without_row(s, key);
    law_delete(s, key);
    law_put(u, mk, le(n - 1, 8));
    let t = taken(s, key, mk, le(n - 1, 8));
    lemma_count(n - 1);
    assert(lookup(t, mk) == Some(le(n - 1, 8)));
    assert forall|i: int| 0 <= i < n - 1 implies leaf_at(t, #[trigger] list_key(prefix, i)) == Ok::<
        Option<DataV>,
        ErrorV,
    >(Some(xs.drop_last()[i])) by {
        let k = list_key(prefix, i);
        lemma_apart(prefix, ordered_u64(i), len_name());
        if k == key {
            lemma_list_keys(prefix, i, n - 1);
        }
        assert(lookup(t, k) == lookup(u, k));
        assert(lookup(u, k) == lookup(s, k));
        assert(leaf_at(s, k) == Ok::<Option<DataV>, ErrorV>(Some(xs[i])));
    }
    lemma_list_items(t, prefix, n - 1, xs.drop_last());
    assert(lookup(t, key) == lookup(u, key));
    assert forall|k: Seq<u8>| !list_span(prefix, n - 1, 1).contains(k) implies #[trigger] lookup(
        t,
        k,
    ) == lookup(s, k) by {
        let ks = list_span(prefix, n - 1, 1);
        assert(ks[0] == key && ks[1] == mk);
        assert(lookup(t, k) == lookup(u, k));
        assert(lookup(u, k) == lookup(s, k));
    }
    assert forall|k: Seq<u8>| !starts_with(k, prefix) implies #[trigger] lookup(t, k) == lookup(
        s,
        k,
    ) by {
        assert(lookup(t, k) == lookup(u, k));
        assert(lookup(u, k) == lookup(s, k));
    }
}

/// The deque at `prefix` has the bounds `h` and `t`, which are in order, and the
/// elements `xs`.
pub open spec fn deque_is(s: Seq<RowV>, prefix: Seq<u8>, h: int, t: int, xs: Seq<DataV>) -> bool {
    &&& h <= t
    &&& bounds_of(s, prefix) == Ok::<(i64, i64), ErrorV>((h as i64, t as i64))
    &&& i64::MIN <= h
    &&& t <= i64::MAX
    &&& deque_at(s, prefix) == Ok::<Seq<DataV>, ErrorV>(xs)
}

/// What a deque of `xs` holds once each of `ds` is pushed to its end: what went
/// to the front, the last first, then what was there, then what went to the back.
pub open spec fn joined(xs: Seq<DataV>, ends: Seq<End>, ds: Seq<DataV>) -> Seq<DataV> {
    let n = ds.len() as int;
    to_end(ends, End::DequeFront, ds, n).reverse() + xs + to_end(ends, End::DequeBack, ds, n)
}

/// The keys of a deque that grows at both ends are distinct.
proof fn lemma_span_distinct(prefix: Seq<u8>, h: int, t: int, f: nat, b: nat)
    requires
        h <= t,
        i64::MIN <= h - f,
        t + b <= i64::MAX,
    ensures
        ({
            let ks = deque_span(prefix, h, t, f, b);
            forall|i: int, j: int| 0 <= i < j < ks.len() ==> #[trigger] ks[i] != #[trigger] ks[j]
        }),
        forall|k: int|
            h <= k < t ==> !deque_span(prefix, h, t, f, b).contains(#[trigger] deque_key(prefix, k)),
        forall|k: Seq<u8>|
            !starts_with(k, prefix) ==> !(#[trigger] deque_span(prefix, h, t, f, b).contains(k)),
{
    let ks = deque_span(prefix, h, t, f, b);
    let at = |i: int| if i < b { t + i } else { h - (i - b) - 1 };
    let n = (b + f) as int;
    lemma_bounds_apart(prefix);
    assert forall|i: int| 0 <= i < n implies #[trigger] ks[i] == deque_key(prefix, at(i)) && ks[i]
        != ks[n] && ks[i] != ks[n + 1] by {
        lemma_apart(prefix, ordered_i64(at(i)), head_name());
        lemma_apart(prefix, ordered_i64(at(i)), tail_name());
    }
    assert forall|i: int, j: int| 0 <= i < j < ks.len() implies #[trigger] ks[i] != #[trigger] ks[j] by {
        if j < n && ks[i] == ks[j] {
            lemma_deque_keys(prefix, at(i), at(j));
        }
    }
    assert forall|k: int| h <= k < t implies !ks.contains(#[trigger] deque_key(prefix, k)) by {
        lemma_apart(prefix, ordered_i64(k), head_name());
        lemma_apart(prefix, ordered_i64(k), tail_name());
        assert forall|i: int| 0 <= i < ks.len() implies #[trigger] ks[i] != deque_key(prefix, k) by {
            if i < n && ks[i] == deque_key(prefix, k) {
                lemma_deque_keys(prefix, at(i), k);
            }
        }
    }
    assert forall|k: Seq<u8>| !starts_with(k, prefix) implies !(#[trigger] ks.contains(k)) by {
        assert forall|i: int| 0 <= i < ks.len() implies #[trigger] ks[i] != k by {
            lemma_apart(prefix, ordered_i64(at(i)), head_name());
            lemma_apart(prefix, ordered_i64(at(i)), tail_name());
        }
    }
}

/// A deque is a double-ended queue: what is pushed to its back comes behind what
/// was there, and what is pushed to its front, one after the other, before it,
/// whether it is pushed one by one or in a batch, to one end or to both in turn;
/// and nothing outside the deque changes.
#[verifier::spinoff_prover]
#[verifier::rlimit(60)]
pub proof fn law_deque_push(
    s: Seq<RowV>,
    prefix: Seq<u8>,
    h: int,
    t: int,
    xs: Seq<DataV>,
    ends: Seq<End>,
    values: Seq<Seq<u8>>,
    ds: Seq<DataV>,
)
    requires
        ascending_keys(s),
        deque_is(s, prefix, h, t, xs),
        all_read(values, ds),
        ends.len() == values.len(),
        deque_ends(ends),
        0 < values.len(),
        t + to_end(ends, End::DequeBack, values, values.len() as int).len() <= i64::MAX,
        i64::MIN <= h - to_end(ends, End::DequeFront, values, values.len() as int).len(),
    ensures
        extended(s, prefix, ends, values) is Ok,
        ({
            let b = to_end(ends, End::DequeBack, values, values.len() as int).len();
            let f = to_end(ends, End::DequeFront, values, values.len() as int).len();
            let u = extended(s, prefix, ends, values)->Ok_0;
            &&& ascending_keys(u)
            &&& deque_is(u, prefix, h - f, t + b, joined(xs, ends, ds))
            &&& changes_only(s, u, deque_span(prefix, h, t, f, b))
            &&& forall|k: Seq<u8>|
                !starts_with(k, prefix) ==> #[trigger] lookup(u, k) == lookup(s, k)
        }),
{
    let n = values.len() as int;
    let bv = to_end(ends, End::DequeBack, values, n);
    let fv = to_end(ends, End::DequeFront, values, n);
    let bd = to_end(ends, End::DequeBack, ds, n);
    let fd = to_end(ends, End::DequeFront, ds, n);
    let b = bv.len();
    let f = fv.len();
    let h2 = h - f;
    let t2 = t + b;
    lemma_to_end_reads(ends, End::DequeBack, values, ds, n);
    lemma_to_end_reads(ends, End::DequeFront, values, ds, n);
    lemma_deque_items(s, prefix, h, t, xs);
    let hk = meta_of(prefix, head_name());
    let tk = meta_of(prefix, tail_name());
    let hv = index_bytes(h2);
    let tv = index_bytes(t2);
    let back_puts = deque_puts(prefix, t, true, bv, b as int);
    let front_puts = deque_puts(prefix, h, false, fv, f as int);
    let cs = (back_puts + front_puts).push(ChangeV::Put { key: hk, value: hv }).push(
        ChangeV::Put { key: tk, value: tv },
    );
    let ks = deque_span(prefix, h, t, f, b);
    let vs = (bv + fv).push(hv).push(tv);
    lemma_deque_puts_at(prefix, t, true, bv, b as int);
    lemma_deque_puts_at(prefix, h, false, fv, f as int);
    lemma_values_for(prefix, ends, End::DequeBack, values, n);
    lemma_values_for(prefix, ends, End::DequeFront, values, n);
    assert(ends[0] != End::ListBack);
    lemma_extended(s, prefix, ends, values);
    lemma_span_distinct(prefix, h, t, f, b);
    let m = (b + f) as int;
    assert forall|i: int| 0 <= i < cs.len() implies #[trigger] cs[i] == (ChangeV::Put {
        key: ks[i],
        value: vs[i],
    }) by {
        if i < b {
            assert(cs[i] == back_puts[i]);
        } else if i < m {
            assert(cs[i] == front_puts[i - b]);
        }
    }
    lemma_puts(s, cs, ks, vs, m + 2);
    let u = changed_all(Seq::<FactV>::empty(), s, cs, m + 2)->Done_0;
    assert(extended(s, prefix, ends, values) == Ok::<Seq<RowV>, ErrorV>(u));
    lemma_index(h2);
    lemma_index(t2);
    assert(ks[m] == hk);
    assert(ks[m + 1] == tk);
    assert(lookup(u, hk) == Some(hv));
    assert(lookup(u, tk) == Some(tv));
    lemma_changes_only(s, u, ks);
    let ys = joined(xs, ends, ds);
    assert forall|i: int| h2 <= i < t2 implies leaf_at(u, #[trigger] deque_key(prefix, i)) == Ok::<
        Option<DataV>,
        ErrorV,
    >(Some(ys[i - h2])) by {
        let k = deque_key(prefix, i);
        if h <= i < t {
            assert(lookup(u, k) == lookup(s, k));
            assert(leaf_at(s, k) == Ok::<Option<DataV>, ErrorV>(Some(xs[i - h])));
            assert(ys[i - h2] == xs[i - h]);
        } else if i >= t {
            assert(ks[i - t] == k);
            assert(lookup(u, k) == Some(bv[i - t]));
            assert(reads_as(bv[i - t], bd[i - t]));
            assert(ys[i - h2] == bd[i - t]);
        } else {
            let j = h - 1 - i;
            assert(ks[b + j] == k);
            assert(lookup(u, k) == Some(fv[j]));
            assert(reads_as(fv[j], fd[j]));
            assert(ys[i - h2] == fd[j]);
        }
    }
    lemma_deque_items(u, prefix, h2, t2, ys);
}

/// A pop takes the first or the last element of a deque, and leaves the others.
pub proof fn law_deque_pop(
    s: Seq<RowV>,
    prefix: Seq<u8>,
    h: int,
    t: int,
    xs: Seq<DataV>,
    back: bool,
)
    requires
        ascending_keys(s),
        deque_is(s, prefix, h, t, xs),
        h < t,
    ensures
        ({
            let at = if back { t - 1 } else { h };
            let name = if back { tail_name() } else { head_name() };
            let bound = if back { t - 1 } else { h + 1 };
            let u = taken(s, deque_key(prefix, at), meta_of(prefix, name), index_bytes(bound));
            &&& leaf_at(s, deque_key(prefix, at)) == Ok::<Option<DataV>, ErrorV>(
                Some(if back { xs.last() } else { xs[0] }),
            )
            &&& deque_is(
                u,
                prefix,
                if back { h } else { h + 1 },
                if back { t - 1 } else { t },
                if back { xs.drop_last() } else { xs.skip(1) },
            )
            &&& ascending_keys(u)
            &&& lookup(u, deque_key(prefix, at)) is None
            &&& changes_only(s, u, seq![deque_key(prefix, at), meta_of(prefix, name)])
            &&& forall|k: Seq<u8>|
                !starts_with(k, prefix) ==> #[trigger] lookup(u, k) == lookup(s, k)
        }),
{
    let at = if back { t - 1 } else { h };
    let name = if back { tail_name() } else { head_name() };
    let other = if back { head_name() } else { tail_name() };
    let bound = if back { t - 1 } else { h + 1 };
    let h2 = if back { h } else { h + 1 };
    let t2 = if back { t - 1 } else { t };
    let ys = if back { xs.drop_last() } else { xs.skip(1) };
    let key = deque_key(prefix, at);
    let mk = meta_of(prefix, name);
    lemma_deque_items(s, prefix, h, t, xs);
    lemma_bounds_apart(prefix);
    lemma_apart(prefix, ordered_i64(at), name);
    lemma_apart(prefix, ordered_i64(at), other);
    assert(leaf_at(s, deque_key(prefix, at)) == Ok::<Option<DataV>, ErrorV>(Some(xs[at - h])));
    let w = without_row(s, key);
    law_delete(s, key);
    law_put(w, mk, index_bytes(bound));
    let u = taken(s, key, mk, index_bytes(bound));
    lemma_index(bound);
    assert(lookup(u, mk) == Some(index_bytes(bound)));
    assert(lookup(u, meta_of(prefix, other)) == lookup(w, meta_of(prefix, other)));
    assert(lookup(w, meta_of(prefix, other)) == lookup(s, meta_of(prefix, other)));
    assert forall|i: int| h2 <= i < t2 implies leaf_at(u, #[trigger] deque_key(prefix, i)) == Ok::<
        Option<DataV>,
        ErrorV,
    >(Some(ys[i - h2])) by {
        let k = deque_key(prefix, i);
        lemma_apart(prefix, ordered_i64(i), name);
        if k == key {
            lemma_deque_keys(prefix, i, at);
        }
        assert(lookup(u, k) == lookup(w, k));
        assert(lookup(w, k) == lookup(s, k));
        assert(leaf_at(s, k) == Ok::<Option<DataV>, ErrorV>(Some(xs[i - h])));
    }
    lemma_deque_items(u, prefix, h2, t2, ys);
    assert(lookup(u, key) == lookup(w, key));
    let span = seq![key, mk];
    assert forall|k: Seq<u8>| !span.contains(k) implies #[trigger] lookup(u, k) == lookup(s, k) by {
        assert(span[0] == key && span[1] == mk);
        assert(lookup(u, k) == lookup(w, k));
        assert(lookup(w, k) == lookup(s, k));
    }
    assert forall|k: Seq<u8>| !starts_with(k, prefix) implies #[trigger] lookup(u, k) == lookup(
        s,
        k,
    ) by {
        assert(lookup(u, k) == lookup(w, k));
        assert(lookup(w, k) == lookup(s, k));
    }
}

proof fn lemma_range_deleted(s: Seq<RowV>, prefix: Seq<u8>, from: int, to: int)
    requires
        ascending_keys(s),
        i64::MIN <= from,
        to <= i64::MAX,
    ensures
        ascending_keys(range_deleted(s, prefix, from, to)),
        forall|k: Seq<u8>|
            (forall|i: int| from <= i < to ==> #[trigger] deque_key(prefix, i) != k)
                ==> #[trigger] lookup(range_deleted(s, prefix, from, to), k) == lookup(s, k),
    decreases to - from,
{
    if from < to {
        lemma_range_deleted(s, prefix, from, to - 1);
        let w = range_deleted(s, prefix, from, to - 1);
        let key = deque_key(prefix, to - 1);
        law_delete(w, key);
        assert forall|k: Seq<u8>|
            (forall|i: int| from <= i < to ==> #[trigger] deque_key(prefix, i) != k)
            implies #[trigger] lookup(range_deleted(s, prefix, from, to), k) == lookup(s, k) by {
            assert(deque_key(prefix, to - 1) != k);
            assert(lookup(without_row(w, key), k) == lookup(w, k));
            assert(lookup(w, k) == lookup(s, k));
        }
    }
}

/// Truncating a deque from the back leaves its first elements.
pub proof fn law_deque_truncate(
    s: Seq<RowV>,
    prefix: Seq<u8>,
    h: int,
    t: int,
    xs: Seq<DataV>,
    max: int,
)
    requires
        ascending_keys(s),
        deque_is(s, prefix, h, t, xs),
        0 <= max < t - h,
    ensures
        deque_is(
            with_row(
                range_deleted(s, prefix, h + max, t),
                meta_of(prefix, tail_name()),
                index_bytes(h + max),
            ),
            prefix,
            h,
            h + max,
            xs.take(max),
        ),
{
    let hk = meta_of(prefix, head_name());
    let tk = meta_of(prefix, tail_name());
    let w = range_deleted(s, prefix, h + max, t);
    let u = with_row(w, tk, index_bytes(h + max));
    lemma_deque_items(s, prefix, h, t, xs);
    lemma_range_deleted(s, prefix, h + max, t);
    law_put(w, tk, index_bytes(h + max));
    lemma_bounds_apart(prefix);
    lemma_index(h + max);
    assert forall|i: int| h + max <= i < t implies #[trigger] deque_key(prefix, i) != hk by {
        lemma_apart(prefix, ordered_i64(i), head_name());
    }
    assert(lookup(u, tk) == Some(index_bytes(h + max)));
    assert(lookup(u, hk) == lookup(w, hk));
    assert(lookup(w, hk) == lookup(s, hk));
    let ys = xs.take(max);
    assert forall|i: int| h <= i < h + max implies leaf_at(u, #[trigger] deque_key(prefix, i))
        == Ok::<Option<DataV>, ErrorV>(Some(ys[i - h])) by {
        let k = deque_key(prefix, i);
        lemma_apart(prefix, ordered_i64(i), tail_name());
        assert forall|j: int| h + max <= j < t implies #[trigger] deque_key(prefix, j) != k by {
            if deque_key(prefix, j) == k {
                lemma_deque_keys(prefix, i, j);
            }
        }
        assert(lookup(u, k) == lookup(w, k));
        assert(lookup(w, k) == lookup(s, k));
        assert(leaf_at(s, k) == Ok::<Option<DataV>, ErrorV>(Some(xs[i - h])));
    }
    lemma_deque_items(u, prefix, h, h + max, ys);
}

/// What is not there reads as an empty list and an empty deque; clearing a
/// collection leaves it so.
pub proof fn law_cleared_is_empty(s: Seq<RowV>, prefix: Seq<u8>)
    requires
        ascending_keys(s),
    ensures
        list_at(cleared(s, prefix), prefix) == Ok::<Seq<DataV>, ErrorV>(Seq::empty()),
        deque_is(cleared(s, prefix), prefix, 0, 0, Seq::empty()),
        child_rows(cleared(s, prefix), prefix).len() == 0,
{
    let t = cleared(s, prefix);
    law_clear(s, prefix);
    lemma_apart(prefix, Seq::empty(), len_name());
    lemma_apart(prefix, Seq::empty(), head_name());
    lemma_apart(prefix, Seq::empty(), tail_name());
    assert(lookup(t, meta_of(prefix, len_name())) is None);
    assert(lookup(t, meta_of(prefix, head_name())) is None);
    assert(lookup(t, meta_of(prefix, tail_name())) is None);
    let p = prefix.push(DATA);
    let rows = child_rows(t, prefix);
    law_scan(t, p);
    if rows.len() > 0 {
        lemma_found(rows, 0);
        assert(lookup(rows, rows[0].0) is Some);
        assert(starts_with(rows[0].0, p));
        assert(rows[0].0.take(prefix.len() as int) =~= rows[0].0.take(p.len() as int).take(
            prefix.len() as int,
        ));
        assert(p.take(prefix.len() as int) =~= prefix);
        assert(starts_with(rows[0].0, prefix));
        assert(lookup(t, rows[0].0) is None);
    }
}

proof fn lemma_deletes(f: Seq<FactV>, s: Seq<RowV>, rows: Seq<RowV>, n: int)
    requires
        ascending_keys(s),
        0 <= n <= rows.len(),
    ensures
        ({
            let cs = rows.map_values(|r: RowV| ChangeV::Delete { key: r.0 });
            let t = changed_all(f, s, cs, n)->Done_0;
            &&& changed_all(f, s, cs, n) is Done
            &&& ascending_keys(t)
            &&& forall|j: Seq<u8>|
                #[trigger] lookup(t, j) == (if exists|i: int|
                    0 <= i < n && (#[trigger] rows[i]).0 == j {
                    None
                } else {
                    lookup(s, j)
                })
        }),
    decreases n,
{
    if n > 0 {
        lemma_deletes(f, s, rows, n - 1);
        let cs = rows.map_values(|r: RowV| ChangeV::Delete { key: r.0 });
        let u = changed_all(f, s, cs, n - 1)->Done_0;
        let t = changed_all(f, s, cs, n)->Done_0;
        assert(cs[n - 1] == (ChangeV::Delete { key: rows[n - 1].0 }));
        law_delete(u, rows[n - 1].0);
        assert forall|j: Seq<u8>|
            #[trigger] lookup(t, j) == (if exists|i: int|
                0 <= i < n && (#[trigger] rows[i]).0 == j {
                None
            } else {
                lookup(s, j)
            }) by {
            assert(lookup(t, j) == if j == rows[n - 1].0 {
                None
            } else {
                lookup(u, j)
            });
            if exists|i: int| 0 <= i < n - 1 && (#[trigger] rows[i]).0 == j {
                let i = choose|i: int| 0 <= i < n - 1 && (#[trigger] rows[i]).0 == j;
                assert(rows[i].0 == j);
            }
        }
    }
}

/// Committing the delete of a subtree deletes its committed keys, the root leaf
/// among them, and no others, whether its range has an end or not.
pub proof fn law_clear_commits(f: Seq<FactV>, s: Seq<RowV>, prefix: Seq<u8>)
    requires
        ascending_keys(s),
    ensures
        ({
            let b = recorded(empty_batch(), OpV::DeletePrefix { prefix });
            let t = committed(f, s, b)->Ok_0;
            &&& committed(f, s, b) is Ok
            &&& ascending_keys(t)
            &&& forall|j: Seq<u8>|
                #[trigger] lookup(t, j) == (if starts_with(j, prefix) {
                    None
                } else {
                    lookup(s, j)
                })
        }),
{
    let b = recorded(empty_batch(), OpV::DeletePrefix { prefix });
    let cs = one_clear(s, prefix);
    assert(b.clears =~= seq![prefix]);
    assert(append_changes(s, b.appends, 0) == Ok::<Seq<ChangeV>, ErrorV>(Seq::empty()));
    assert(clear_changes(s, b.clears, 1) =~= cs) by {
        assert(clear_changes(s, b.clears, 0) =~= Seq::<ChangeV>::empty());
    }
    assert(b.changes + clear_changes(s, b.clears, 1) + Seq::<ChangeV>::empty() =~= cs);
    if upper_bound(prefix) is Some {
        law_clear(s, prefix);
        assert(changed_all(f, s, cs, 0) == TryV::Done(s));
        assert(cs[0] == (ChangeV::DeletePrefix { prefix }));
        assert(changed_all(f, s, cs, 1) == TryV::Done(cleared(s, prefix)));
    } else {
        let rows = scan_of(s, prefix);
        law_scan(s, prefix);
        lemma_deletes(f, s, rows, rows.len() as int);
        let t = changed_all(f, s, cs, cs.len() as int)->Done_0;
        assert forall|j: Seq<u8>| #[trigger] lookup(t, j) == (if starts_with(j, prefix) {
            None
        } else {
            lookup(s, j)
        }) by {
            if lookup(rows, j) is Some {
                assert(rows[row_place(rows, j, 0)].0 == j);
                crate::db::lemma_place(rows, j, 0);
            }
            if exists|i: int| 0 <= i < rows.len() && (#[trigger] rows[i]).0 == j {
                let i = choose|i: int| 0 <= i < rows.len() && (#[trigger] rows[i]).0 == j;
                lemma_found(rows, i);
                assert(lookup(rows, j) is Some);
            }
        }
    }
}

/// A collection depends on nothing outside its location.
pub proof fn law_reads_are_local(s: Seq<RowV>, t: Seq<RowV>, prefix: Seq<u8>)
    requires
        same_under(s, t, prefix),
    ensures
        leaf_at(s, prefix) == leaf_at(t, prefix),
        list_at(s, prefix) == list_at(t, prefix),
        deque_at(s, prefix) == deque_at(t, prefix),
{
    lemma_self(prefix);
    assert(lookup(s, prefix) == lookup(t, prefix));
    lemma_apart(prefix, Seq::empty(), len_name());
    lemma_apart(prefix, Seq::empty(), head_name());
    lemma_apart(prefix, Seq::empty(), tail_name());
    let mk = meta_of(prefix, len_name());
    let hk = meta_of(prefix, head_name());
    let tk = meta_of(prefix, tail_name());
    assert(lookup(s, mk) == lookup(t, mk));
    assert(lookup(s, hk) == lookup(t, hk));
    assert(lookup(s, tk) == lookup(t, tk));
    if let Ok(n) = list_len(s, prefix) {
        lemma_same_list(s, t, prefix, n as int);
    }
    if let Ok((h, to)) = bounds_of(s, prefix) {
        lemma_same_deque(s, t, prefix, h as int, to as int);
    }
}

proof fn lemma_same_list(s: Seq<RowV>, t: Seq<RowV>, prefix: Seq<u8>, n: int)
    requires
        same_under(s, t, prefix),
    ensures
        list_items(s, prefix, n) == list_items(t, prefix, n),
    decreases n,
{
    if n > 0 {
        lemma_same_list(s, t, prefix, n - 1);
        lemma_apart(prefix, ordered_u64(n - 1), len_name());
        let k = list_key(prefix, n - 1);
        assert(lookup(s, k) == lookup(t, k));
    }
}

proof fn lemma_same_deque(s: Seq<RowV>, t: Seq<RowV>, prefix: Seq<u8>, h: int, to: int)
    requires
        same_under(s, t, prefix),
    ensures
        deque_items(s, prefix, h, to) == deque_items(t, prefix, h, to),
    decreases to - h,
{
    if to > h {
        lemma_same_deque(s, t, prefix, h, to - 1);
        lemma_apart(prefix, ordered_i64(to - 1), head_name());
        let k = deque_key(prefix, to - 1);
        assert(lookup(s, k) == lookup(t, k));
    }
}

/// Two namespaces share no key.
pub proof fn law_namespaces_are_disjoint(a: Seq<u8>, b: Seq<u8>, key: Seq<u8>)
    requires
        a.len() <= u64::MAX,
        b.len() <= u64::MAX,
        starts_with(key, segment(a)),
        starts_with(key, segment(b)),
    ensures
        a == b,
{
    let x = key.skip(segment(a).len() as int);
    let y = key.skip(segment(b).len() as int);
    assert(key =~= segment(a) + x);
    assert(key =~= segment(b) + y);
    law_segments_self_delimiting(a, x, b, y);
}

/// The leaf-valued map at `prefix` holds `m`, by the stored forms of its keys.
pub open spec fn map_is(s: Seq<RowV>, prefix: Seq<u8>, m: Map<Seq<u8>, DataV>) -> bool {
    &&& ascending_keys(s)
    &&& forall|key: Seq<u8>|
        starts_with(key, prefix.push(DATA)) && #[trigger] lookup(s, key) is Some ==> is_entry(
            prefix,
            m,
            key,
        )
    &&& forall|k: Seq<u8>| #[trigger]
        m.contains_key(k) ==> holds_entry(s, child_of(prefix, k), k, m[k])
}

/// The key is that of an entry of `m`.
pub open spec fn is_entry(prefix: Seq<u8>, m: Map<Seq<u8>, DataV>, key: Seq<u8>) -> bool {
    exists|k: Seq<u8>| #[trigger] m.contains_key(k) && key == child_of(prefix, k)
}

/// The row at `key` holds the item `d`, under a map key with the stored form `k`.
pub open spec fn holds_entry(s: Seq<RowV>, key: Seq<u8>, k: Seq<u8>, d: DataV) -> bool {
    &&& key_form(k)
    &&& match lookup(s, key) {
        Some(b) => reads_as(b, d),
        None => false,
    }
}

/// The bytes are the stored form of a map key.
pub open spec fn key_form(k: Seq<u8>) -> bool {
    k.len() <= u64::MAX && cbor_read(k) is Ok
}

proof fn lemma_entry_key(prefix: Seq<u8>, a: Seq<u8>, b: Seq<u8>)
    requires
        a.len() <= u64::MAX,
        b.len() <= u64::MAX,
        child_of(prefix, a) == child_of(prefix, b),
    ensures
        a == b,
{
    lemma_self(child_of(prefix, a));
    law_siblings_disjoint(prefix, a, b, child_of(prefix, a));
}

proof fn lemma_entry_under(prefix: Seq<u8>, k: Seq<u8>)
    ensures
        starts_with(child_of(prefix, k), prefix.push(DATA)),
        child_of(prefix, k).skip(prefix.len() as int + 1) == segment(k),
{
    let p = prefix.push(DATA);
    assert(child_of(prefix, k).take(p.len() as int) =~= p);
    assert(child_of(prefix, k).skip(p.len() as int) =~= segment(k));
}

/// Setting a key of a map is an insert.
pub proof fn law_map_set(
    s: Seq<RowV>,
    prefix: Seq<u8>,
    m: Map<Seq<u8>, DataV>,
    k: Seq<u8>,
    b: Seq<u8>,
    d: DataV,
)
    requires
        map_is(s, prefix, m),
        key_form(k),
        reads_as(b, d),
    ensures
        map_is(with_row(s, child_of(prefix, k), b), prefix, m.insert(k, d)),
{
    let at = child_of(prefix, k);
    let t = with_row(s, at, b);
    let n = m.insert(k, d);
    law_put(s, at, b);
    assert forall|key: Seq<u8>|
        starts_with(key, prefix.push(DATA)) && #[trigger] lookup(t, key) is Some implies is_entry(
        prefix,
        n,
        key,
    ) by {
        if key == at {
            assert(n.contains_key(k));
        } else {
            assert(lookup(s, key) is Some);
            let j = choose|j: Seq<u8>| #[trigger] m.contains_key(j) && key == child_of(prefix, j);
            assert(n.contains_key(j));
        }
    }
    assert forall|j: Seq<u8>| #[trigger] n.contains_key(j) implies holds_entry(
        t,
        child_of(prefix, j),
        j,
        n[j],
    ) by {
        if j == k {
            assert(lookup(t, at) == Some(b));
        } else {
            assert(m.contains_key(j));
            if child_of(prefix, j) == at {
                lemma_entry_key(prefix, j, k);
            }
            assert(lookup(t, child_of(prefix, j)) == lookup(s, child_of(prefix, j)));
        }
    }
}

/// Deleting a key of a map is a removal.
pub proof fn law_map_delete(s: Seq<RowV>, prefix: Seq<u8>, m: Map<Seq<u8>, DataV>, k: Seq<u8>)
    requires
        map_is(s, prefix, m),
        key_form(k),
    ensures
        map_is(without_row(s, child_of(prefix, k)), prefix, m.remove(k)),
{
    let at = child_of(prefix, k);
    let t = without_row(s, at);
    let n = m.remove(k);
    law_delete(s, at);
    assert forall|key: Seq<u8>|
        starts_with(key, prefix.push(DATA)) && #[trigger] lookup(t, key) is Some implies is_entry(
        prefix,
        n,
        key,
    ) by {
        assert(key != at);
        assert(lookup(s, key) is Some);
        let j = choose|j: Seq<u8>| #[trigger] m.contains_key(j) && key == child_of(prefix, j);
        assert(n.contains_key(j));
    }
    assert forall|j: Seq<u8>| #[trigger] n.contains_key(j) implies holds_entry(
        t,
        child_of(prefix, j),
        j,
        n[j],
    ) by {
        assert(m.contains_key(j));
        if child_of(prefix, j) == at {
            lemma_entry_key(prefix, j, k);
        }
        assert(lookup(t, child_of(prefix, j)) == lookup(s, child_of(prefix, j)));
    }
}

/// A map is read by its keys: a key that it has gives its item, another nothing.
pub proof fn law_map_get(s: Seq<RowV>, prefix: Seq<u8>, m: Map<Seq<u8>, DataV>, k: Seq<u8>)
    requires
        map_is(s, prefix, m),
        key_form(k),
    ensures
        leaf_at(s, child_of(prefix, k)) == Ok::<Option<DataV>, ErrorV>(
            if m.contains_key(k) {
                Some(m[k])
            } else {
                None
            },
        ),
{
    let key = child_of(prefix, k);
    lemma_entry_under(prefix, k);
    if m.contains_key(k) {
        assert(holds_entry(s, key, k, m[k]));
    } else if lookup(s, key) is Some {
        assert(is_entry(prefix, m, key));
        let j = choose|j: Seq<u8>| #[trigger] m.contains_key(j) && key == child_of(prefix, j);
        assert(holds_entry(s, child_of(prefix, j), j, m[j]));
        lemma_entry_key(prefix, j, k);
    }
}

/// The stored forms of the keys of the map at `prefix`, in stored order.
pub open spec fn forms_at(s: Seq<RowV>, prefix: Seq<u8>) -> Seq<Seq<u8>> {
    child_rows(s, prefix).map_values(
        |r: RowV|
            match segment_at(r.0.skip(prefix.len() as int + 1)) {
                Some((seg, _)) => seg,
                None => Seq::empty(),
            },
    )
}

/// The key with the stored form `k`.
pub open spec fn key_of_form(k: Seq<u8>) -> DataV {
    cbor_read(k)->Ok_0
}

proof fn lemma_map_row(s: Seq<RowV>, prefix: Seq<u8>, m: Map<Seq<u8>, DataV>, i: int)
    requires
        map_is(s, prefix, m),
        0 <= i < child_rows(s, prefix).len(),
    ensures
        ({
            let r = child_rows(s, prefix)[i];
            let k = forms_at(s, prefix)[i];
            &&& m.contains_key(k)
            &&& key_form(k)
            &&& r.0 == child_of(prefix, k)
            &&& segment_at(r.0.skip(prefix.len() as int + 1)) == Some(
                (k, r.0.skip(prefix.len() as int + 1).len()),
            )
            &&& reads_as(r.1, m[k])
        }),
{
    let p = prefix.push(DATA);
    let rows = child_rows(s, prefix);
    law_scan(s, p);
    lemma_found(rows, i);
    assert(lookup(rows, rows[i].0) == Some(rows[i].1));
    assert(starts_with(rows[i].0, p));
    assert(lookup(s, rows[i].0) == Some(rows[i].1));
    assert(is_entry(prefix, m, rows[i].0));
    let j = choose|j: Seq<u8>| #[trigger] m.contains_key(j) && rows[i].0 == child_of(prefix, j);
    assert(holds_entry(s, child_of(prefix, j), j, m[j]));
    lemma_entry_under(prefix, j);
    law_segment_roundtrip(j, Seq::empty());
    assert(segment(j) + Seq::<u8>::empty() =~= segment(j));
}

proof fn lemma_map_pairs(s: Seq<RowV>, prefix: Seq<u8>, m: Map<Seq<u8>, DataV>, n: int)
    requires
        map_is(s, prefix, m),
        0 <= n <= child_rows(s, prefix).len(),
    ensures
        ({
            let rows = child_rows(s, prefix);
            let fs = forms_at(s, prefix);
            let skip = prefix.len() as int + 1;
            &&& leaf_pairs(rows, skip, n) == Ok::<Seq<(DataV, DataV)>, ErrorV>(
                Seq::new(n as nat, |i: int| (key_of_form(fs[i]), m[fs[i]])),
            )
            &&& keys_in(rows, skip, n) == Ok::<(Seq<DataV>, Option<Seq<u8>>), ErrorV>(
                (
                    Seq::new(n as nat, |i: int| key_of_form(fs[i])),
                    if n > 0 {
                        Some(fs[n - 1])
                    } else {
                        None
                    },
                ),
            )
        }),
    decreases n,
{
    let rows = child_rows(s, prefix);
    let fs = forms_at(s, prefix);
    if n > 0 {
        lemma_map_pairs(s, prefix, m, n - 1);
        lemma_map_row(s, prefix, m, n - 1);
        law_scan(s, prefix.push(DATA));
        if n > 1 {
            lemma_map_row(s, prefix, m, n - 2);
            assert(lex_lt(rows[n - 2].0, rows[n - 1].0));
            lemma_lex_irreflexive(rows[n - 1].0);
            assert(fs[n - 2] != fs[n - 1]);
        }
        assert(Seq::new(n as nat, |i: int| (key_of_form(fs[i]), m[fs[i]])) =~= Seq::new(
            (n - 1) as nat,
            |i: int| (key_of_form(fs[i]), m[fs[i]]),
        ).push((key_of_form(fs[n - 1]), m[fs[n - 1]])));
        assert(Seq::new(n as nat, |i: int| key_of_form(fs[i])) =~= Seq::new(
            (n - 1) as nat,
            |i: int| key_of_form(fs[i]),
        ).push(key_of_form(fs[n - 1])));
    } else {
        assert(Seq::new(0, |i: int| (key_of_form(fs[i]), m[fs[i]])) =~= Seq::<
            (DataV, DataV),
        >::empty());
        assert(Seq::new(0, |i: int| key_of_form(fs[i])) =~= Seq::<DataV>::empty());
    }
}

/// A map is walked key by key: each key that it has comes once, with its item,
/// in ascending order of the rows; and its length is the number of its keys.
pub proof fn law_map_walk(s: Seq<RowV>, prefix: Seq<u8>, m: Map<Seq<u8>, DataV>)
    requires
        map_is(s, prefix, m),
    ensures
        ({
            let fs = forms_at(s, prefix);
            &&& fs.no_duplicates()
            &&& fs.to_set() == m.dom()
            &&& fs.len() == m.dom().len()
            &&& forall|i: int, j: int|
                0 <= i < j < fs.len() ==> lex_lt(
                    child_of(prefix, #[trigger] fs[i]),
                    child_of(prefix, #[trigger] fs[j]),
                )
            &&& leaf_pairs_at(s, prefix) == Ok::<Seq<(DataV, DataV)>, ErrorV>(
                Seq::new(fs.len(), |i: int| (key_of_form(fs[i]), m[fs[i]])),
            )
            &&& keys_at(s, prefix) == Ok::<Seq<DataV>, ErrorV>(
                Seq::new(fs.len(), |i: int| key_of_form(fs[i])),
            )
        }),
{
    let p = prefix.push(DATA);
    let rows = child_rows(s, prefix);
    let fs = forms_at(s, prefix);
    lemma_map_pairs(s, prefix, m, rows.len() as int);
    law_scan(s, p);
    assert forall|i: int, j: int| 0 <= i < j < fs.len() implies lex_lt(
        child_of(prefix, #[trigger] fs[i]),
        child_of(prefix, #[trigger] fs[j]),
    ) by {
        lemma_map_row(s, prefix, m, i);
        lemma_map_row(s, prefix, m, j);
        assert(lex_lt(rows[i].0, rows[j].0));
    }
    assert forall|i: int, j: int| 0 <= i < fs.len() && 0 <= j < fs.len() && i != j implies fs[i]
        != fs[j] by {
        if fs[i] == fs[j] {
            lemma_lex_irreflexive(child_of(prefix, fs[i]));
            if i < j {
                assert(lex_lt(child_of(prefix, fs[i]), child_of(prefix, fs[j])));
            } else {
                assert(lex_lt(child_of(prefix, fs[j]), child_of(prefix, fs[i])));
            }
        }
    }
    assert forall|k: Seq<u8>| #[trigger] fs.to_set().contains(k) <==> m.dom().contains(k) by {
        if fs.to_set().contains(k) {
            let i = choose|i: int| 0 <= i < fs.len() && fs[i] == k;
            lemma_map_row(s, prefix, m, i);
        }
        if m.dom().contains(k) {
            assert(m.contains_key(k));
            let key = child_of(prefix, k);
            assert(holds_entry(s, key, k, m[k]));
            lemma_entry_under(prefix, k);
            assert(lookup(rows, key) == lookup(s, key));
            let i = crate::db::row_place(rows, key, 0);
            crate::db::lemma_place(rows, key, 0);
            assert(rows[i].0 == key);
            lemma_map_row(s, prefix, m, i);
            lemma_entry_key(prefix, fs[i], k);
            assert(fs[i] == k);
        }
    }
    assert(fs.to_set() =~= m.dom());
    fs.unique_seq_to_set();
}

/// Rows without any under the map hold the empty map.
pub proof fn law_map_starts_empty(s: Seq<RowV>, prefix: Seq<u8>)
    requires
        ascending_keys(s),
        child_rows(s, prefix).len() == 0,
    ensures
        map_is(s, prefix, Map::empty()),
{
    let p = prefix.push(DATA);
    law_scan(s, p);
    assert forall|key: Seq<u8>|
        starts_with(key, p) && #[trigger] lookup(s, key) is Some implies is_entry(
        prefix,
        Map::empty(),
        key,
    ) by {
        assert(lookup(child_rows(s, prefix), key) == lookup(s, key));
        crate::db::lemma_place(child_rows(s, prefix), key, 0);
    }
}

/// The operations that add `deltas` to the sum at `key`.
pub open spec fn add_ops(key: Seq<u8>, deltas: Seq<i64>) -> Seq<OpV> {
    Seq::new(
        deltas.len(),
        |i: int| OpV::Merge { key, value: sum_bytes(1, twos(deltas[i] as int)) },
    )
}

proof fn lemma_add_batch(key: Seq<u8>, deltas: Seq<i64>, n: int)
    requires
        0 <= n <= deltas.len(),
    ensures
        batch_of(add_ops(key, deltas), n) == (BatchV {
            changes: add_changes(key, deltas).take(n),
            clears: Seq::empty(),
            appends: Seq::empty(),
        }),
    decreases n,
{
    let cs = add_changes(key, deltas);
    if n > 0 {
        lemma_add_batch(key, deltas, n - 1);
        assert(cs.take(n) =~= cs.take(n - 1).push(cs[n - 1]));
    } else {
        assert(cs.take(0) =~= Seq::<ChangeV>::empty());
    }
}

/// The changes that add `deltas` to the sum at `key`.
pub open spec fn add_changes(key: Seq<u8>, deltas: Seq<i64>) -> Seq<ChangeV> {
    Seq::new(
        deltas.len(),
        |i: int| ChangeV::Merge { key, value: sum_bytes(1, twos(deltas[i] as int)) },
    )
}

proof fn lemma_adds(f: Seq<FactV>, s: Seq<RowV>, key: Seq<u8>, base: int, deltas: Seq<i64>, n: int)
    requires
        ascending_keys(s),
        sum_at(s, 1, key) == Ok::<u64, ErrorV>(wrapped(base)),
        0 <= n <= deltas.len(),
    ensures
        ({
            let r = changed_all(f, s, add_changes(key, deltas), n);
            &&& r is Done
            &&& ascending_keys(r->Done_0)
            &&& sum_at(r->Done_0, 1, key) == Ok::<u64, ErrorV>(wrapped(base + total(deltas, n)))
            &&& forall|k: Seq<u8>|
                k != key ==> #[trigger] lookup(r->Done_0, k) == lookup(s, k)
        }),
    decreases n,
{
    let cs = add_changes(key, deltas);
    if n > 0 {
        lemma_adds(f, s, key, base, deltas, n - 1);
        let t = changed_all(f, s, cs, n - 1)->Done_0;
        let d = deltas[n - 1] as int;
        let b = sum_bytes(1, twos(d));
        law_sum_roundtrip(1, twos(d));
        let before = base + total(deltas, n - 1);
        let m: int = 0x1_0000_0000_0000_0000;
        assert(twos(d) == d % m) by {
            if d < 0 {
                vstd::arithmetic::div_mod::lemma_fundamental_div_mod_converse(d, m, -1, d + m);
            } else {
                vstd::arithmetic::div_mod::lemma_small_mod(d as nat, m as nat);
            }
        }
        vstd::arithmetic::div_mod::lemma_add_mod_noop(before, d, m);
        assert((before % m + d % m) % m == (before + d) % m);
        let now = wrapped(before + d);
        let c = sum_bytes(1, now);
        law_sum_roundtrip(1, now);
        assert(merged(f, lookup(t, key), b) == TryV::Done(Some(c))) by {
            if lookup(t, key) is None {
                assert(wrapped(before) == 0);
                assert(before % m == 0);
                assert(now == twos(d));
            }
        }
        law_put(t, key, c);
        let u = with_row(t, key, c);
        assert(cs[n - 1] == (ChangeV::Merge { key, value: b }));
        assert(changed_all(f, s, cs, n) == TryV::Done(u));
        assert(lookup(u, key) == Some(c));
        assert forall|k: Seq<u8>| k != key implies #[trigger] lookup(u, k) == lookup(s, k) by {
            assert(lookup(u, k) == lookup(t, k));
        }
    }
}

/// The 64 bits of an integer.
pub open spec fn wrapped(i: int) -> u64 {
    (i % 0x1_0000_0000_0000_0000) as u64
}

/// A sum of integers is a number: what is added to it in a batch is added to
/// what it was, as far as 64 bits hold it; and nothing else changes.
pub proof fn law_sum_adds(f: Seq<FactV>, s: Seq<RowV>, key: Seq<u8>, base: int, deltas: Seq<i64>)
    requires
        ascending_keys(s),
        sum_at(s, 1, key) == Ok::<u64, ErrorV>(wrapped(base)),
    ensures
        ({
            let n = deltas.len() as int;
            let r = committed(f, s, batch_of(add_ops(key, deltas), n));
            &&& r is Ok
            &&& ascending_keys(r->Ok_0)
            &&& sum_at(r->Ok_0, 1, key) == Ok::<u64, ErrorV>(wrapped(base + total(deltas, n)))
            &&& forall|k: Seq<u8>| k != key ==> #[trigger] lookup(r->Ok_0, k) == lookup(s, k)
        }),
{
    let n = deltas.len() as int;
    let cs = add_changes(key, deltas);
    let b = batch_of(add_ops(key, deltas), n);
    lemma_add_batch(key, deltas, n);
    lemma_adds(f, s, key, base, deltas, n);
    assert(cs.take(n) =~= cs);
    assert(b.changes + clear_changes(s, b.clears, 0) + Seq::<ChangeV>::empty() =~= cs);
    assert(append_changes(s, b.appends, 0) == Ok::<Seq<ChangeV>, ErrorV>(Seq::empty()));
}

} // verus!
