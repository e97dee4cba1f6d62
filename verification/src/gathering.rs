//! What queries see of collections: a list or a deque as the sequence that it is.

use crate::bytes::{
    lemma_lex_asymmetric, lemma_lex_common_front, lemma_lex_irreflexive, lex_lt, starts_with,
};
use crate::codec::{
    child_of, law_order_i64_monotone, law_order_roundtrip, law_order_u64_monotone,
    law_segment_roundtrip, meta_of, ordered_i64, ordered_u64, segment, segment_at, uvarint, DATA,
    META,
};
use crate::collections::{
    changes_only, deque_is, deque_span, lemma_deque_items, lemma_list_items, list_span,
};
use crate::data::{reads_as, DataV};
use crate::db::{ascending_keys, law_scan, lemma_found, lemma_place, lookup, row_place, RowV};
use crate::error::ErrorV;
use crate::op::{head_name, list_len, tail_name};
use crate::path::{child_rows, deque_key, leaf_at, list_at, list_key};
use crate::reading::{child_key_of, direct_children, leaf_children, materialized, seconds, ChildKey};
use crate::shape::ShapeV;
use vstd::prelude::*;

verus! {

/// The rows of the children of `prefix` are those at the keys `ks`, and no others.
pub open spec fn children_at(s: Seq<RowV>, prefix: Seq<u8>, ks: Seq<Seq<u8>>) -> bool {
    forall|k: Seq<u8>|
        starts_with(k, prefix.push(DATA)) && #[trigger] lookup(s, k) is Some ==> ks.contains(k)
}

/// The keys ascend.
pub open spec fn ascending(ks: Seq<Seq<u8>>) -> bool {
    forall|i: int, j: int| 0 <= i < j < ks.len() ==> lex_lt(#[trigger] ks[i], #[trigger] ks[j])
}

/// Every key has a row.
pub open spec fn all_there(rows: Seq<RowV>, ks: Seq<Seq<u8>>) -> bool {
    forall|i: int| 0 <= i < ks.len() ==> lookup(rows, #[trigger] ks[i]) is Some
}

proof fn lemma_row_of(rows: Seq<RowV>, ks: Seq<Seq<u8>>, i: int)
    requires
        ascending_keys(rows),
        ascending(ks),
        all_there(rows, ks),
        forall|j: int| 0 <= j < rows.len() ==> ks.contains((#[trigger] rows[j]).0),
        0 <= i,
        forall|j: int| 0 <= j < i && j < rows.len() && j < ks.len() ==> (#[trigger] rows[j]).0
            == ks[j],
        i <= rows.len(),
        i <= ks.len(),
    ensures
        i < rows.len() <==> i < ks.len(),
        i < rows.len() ==> rows[i].0 == ks[i],
{
    if i < ks.len() {
        // The key has a row, and it is not among those before.
        lemma_place(rows, ks[i], 0);
        assert(lookup(rows, ks[i]) is Some);
        let p = row_place(rows, ks[i], 0);
        assert(rows[p].0 == ks[i]);
        if p < i {
            assert(rows[p].0 == ks[p]);
            assert(lex_lt(ks[p], ks[i]));
            lemma_lex_irreflexive(ks[i]);
        }
        assert(i <= p);
        let j = choose|j: int| 0 <= j < ks.len() && ks[j] == rows[i].0;
        assert(ks.contains(rows[i].0));
        if j < i {
            assert(rows[j].0 == ks[j]);
            assert(lex_lt(rows[j].0, rows[i].0));
            lemma_lex_irreflexive(rows[i].0);
        }
        if i < j {
            assert(lex_lt(ks[i], ks[j]));
            if i < p {
                assert(lex_lt(rows[i].0, rows[p].0));
                lemma_lex_asymmetric(ks[i], ks[j]);
            } else {
                lemma_lex_irreflexive(ks[i]);
            }
        }
    } else if i < rows.len() {
        assert(ks.contains(rows[i].0));
        let j = choose|j: int| 0 <= j < ks.len() && ks[j] == rows[i].0;
        assert(rows[j].0 == ks[j]);
        assert(lex_lt(rows[j].0, rows[i].0));
        lemma_lex_irreflexive(rows[i].0);
    }
}

proof fn lemma_rows_are(rows: Seq<RowV>, ks: Seq<Seq<u8>>, n: int)
    requires
        ascending_keys(rows),
        ascending(ks),
        all_there(rows, ks),
        forall|j: int| 0 <= j < rows.len() ==> ks.contains((#[trigger] rows[j]).0),
        0 <= n,
    ensures
        n <= rows.len() <==> n <= ks.len(),
        forall|j: int| 0 <= j < n && j < rows.len() && j < ks.len() ==> (#[trigger] rows[j]).0
            == ks[j],
    decreases n,
{
    if n > 0 {
        lemma_rows_are(rows, ks, n - 1);
        if n - 1 <= rows.len() && n - 1 <= ks.len() {
            lemma_row_of(rows, ks, n - 1);
        }
    }
}

proof fn lemma_child_order(prefix: Seq<u8>, a: Seq<u8>, b: Seq<u8>)
    requires
        a.len() == b.len(),
    ensures
        lex_lt(child_of(prefix, a), child_of(prefix, b)) == lex_lt(a, b),
{
    let p = prefix.push(DATA) + uvarint(a.len());
    assert(child_of(prefix, a) =~= p + a);
    assert(child_of(prefix, b) =~= p + b);
    lemma_lex_common_front(p, a, b);
}

proof fn lemma_child(prefix: Seq<u8>, seg: Seq<u8>)
    requires
        seg.len() <= u64::MAX,
    ensures
        starts_with(child_of(prefix, seg), prefix.push(DATA)),
        ({
            let rest = child_of(prefix, seg).skip(prefix.len() as int + 1);
            segment_at(rest) == Some((seg, rest.len()))
        }),
{
    let p = prefix.push(DATA);
    assert(child_of(prefix, seg).take(p.len() as int) =~= p);
    let rest = child_of(prefix, seg).skip(p.len() as int);
    assert(rest =~= segment(seg));
    law_segment_roundtrip(seg, Seq::empty());
    assert(segment(seg) + Seq::<u8>::empty() =~= segment(seg));
}

/// The children with the segments `segs` and the items `xs`.
proof fn lemma_children(
    s: Seq<RowV>,
    prefix: Seq<u8>,
    kind: ChildKey,
    segs: Seq<Seq<u8>>,
    ns: Seq<u64>,
    xs: Seq<DataV>,
    n: int,
)
    requires
        segs.len() == xs.len() == ns.len() == child_rows(s, prefix).len(),
        forall|i: int| 0 <= i < segs.len() ==> {
            &&& (#[trigger] segs[i]).len() <= u64::MAX
            &&& child_key_of(kind, segs[i], i as nat) == Ok::<DataV, ErrorV>(DataV::UInt(ns[i]))
            &&& child_rows(s, prefix)[i].0 == child_of(prefix, segs[i])
            &&& reads_as(child_rows(s, prefix)[i].1, xs[i])
        },
        0 <= n <= xs.len(),
    ensures
        direct_children(child_rows(s, prefix), prefix.len() as int + 1, kind, n) == Ok::<
            Seq<(DataV, DataV)>,
            ErrorV,
        >(Seq::new(n as nat, |i: int| (DataV::UInt(ns[i]), xs[i]))),
    decreases n,
{
    let want = Seq::new(n as nat, |i: int| (DataV::UInt(ns[i]), xs[i]));
    if n > 0 {
        lemma_children(s, prefix, kind, segs, ns, xs, n - 1);
        let before = Seq::new((n - 1) as nat, |i: int| (DataV::UInt(ns[i]), xs[i]));
        let g = segs[n - 1];
        lemma_child(prefix, g);
        assert(want =~= before.push((DataV::UInt(ns[n - 1]), xs[n - 1])));
    } else {
        assert(want =~= Seq::<(DataV, DataV)>::empty());
    }
}

/// The keys of a list of `n` elements.
pub open spec fn list_keys(prefix: Seq<u8>, n: nat) -> Seq<Seq<u8>> {
    Seq::new(n, |i: int| list_key(prefix, i))
}

/// The keys of a deque from `h` up to `t`.
pub open spec fn deque_keys(prefix: Seq<u8>, h: int, t: int) -> Seq<Seq<u8>> {
    Seq::new(
        if h <= t {
            (t - h) as nat
        } else {
            0
        },
        |i: int| deque_key(prefix, h + i),
    )
}

/// The items of `xs` with their places.
pub open spec fn numbered(xs: Seq<DataV>) -> Seq<(DataV, DataV)> {
    Seq::new(xs.len(), |i: int| (DataV::UInt(i as u64), xs[i]))
}

/// A query sees a list as the sequence that it is: its elements in their order,
/// by their indices.
pub proof fn law_list_is_gathered(s: Seq<RowV>, prefix: Seq<u8>, xs: Seq<DataV>)
    requires
        ascending_keys(s),
        list_at(s, prefix) == Ok::<Seq<DataV>, ErrorV>(xs),
        children_at(s, prefix, list_keys(prefix, xs.len())),
    ensures
        leaf_children(s, prefix, ChildKey::List) == Ok::<Seq<(DataV, DataV)>, ErrorV>(
            numbered(xs),
        ),
        materialized(s, prefix, ShapeV::List { of: Box::new(ShapeV::Leaf) }) == Ok::<
            DataV,
            ErrorV,
        >(DataV::Array(xs)),
{
    let n = list_len(s, prefix)->Ok_0 as int;
    lemma_list_items(s, prefix, n, xs);
    let ks = list_keys(prefix, xs.len());
    let segs = Seq::new(xs.len(), |i: int| ordered_u64(i));
    assert forall|i: int, j: int| 0 <= i < j < ks.len() implies lex_lt(
        #[trigger] ks[i],
        #[trigger] ks[j],
    ) by {
        law_order_u64_monotone(i as u64, j as u64);
        law_order_roundtrip(0, i as u64);
        law_order_roundtrip(0, j as u64);
        lemma_child_order(prefix, ordered_u64(i), ordered_u64(j));
    }
    assert forall|i: int| 0 <= i < ks.len() implies starts_with(
        #[trigger] ks[i],
        prefix.push(DATA),
    ) && leaf_at(s, ks[i]) == Ok::<Option<DataV>, ErrorV>(Some(xs[i])) by {
        law_order_roundtrip(0, i as u64);
        lemma_child(prefix, ordered_u64(i));
        assert(leaf_at(s, list_key(prefix, i)) == Ok::<Option<DataV>, ErrorV>(Some(xs[i])));
    }
    lemma_gathered(s, prefix, ks, xs);
    let rows = child_rows(s, prefix);
    let ns = Seq::new(xs.len(), |i: int| i as u64);
    assert forall|i: int| 0 <= i < segs.len() implies {
        &&& (#[trigger] segs[i]).len() <= u64::MAX
        &&& child_key_of(ChildKey::List, segs[i], i as nat) == Ok::<DataV, ErrorV>(
            DataV::UInt(ns[i]),
        )
        &&& rows[i].0 == child_of(prefix, segs[i])
        &&& reads_as(rows[i].1, xs[i])
    } by {
        law_order_roundtrip(0, i as u64);
        assert(rows[i].0 == ks[i]);
    }
    lemma_children(s, prefix, ChildKey::List, segs, ns, xs, xs.len() as int);
    assert(Seq::new(xs.len(), |i: int| (DataV::UInt(ns[i]), xs[i])) =~= numbered(xs));
    assert(seconds(numbered(xs)) =~= xs);
}

/// A query sees a deque as the sequence that it is: its elements from front to
/// back, counted from the front.
pub proof fn law_deque_is_gathered(s: Seq<RowV>, prefix: Seq<u8>, h: int, t: int, xs: Seq<DataV>)
    requires
        ascending_keys(s),
        deque_is(s, prefix, h, t, xs),
        children_at(s, prefix, deque_keys(prefix, h, t)),
    ensures
        leaf_children(s, prefix, ChildKey::Deque) == Ok::<Seq<(DataV, DataV)>, ErrorV>(
            numbered(xs),
        ),
        materialized(s, prefix, ShapeV::Deque { of: Box::new(ShapeV::Leaf) }) == Ok::<
            DataV,
            ErrorV,
        >(DataV::Array(xs)),
{
    lemma_deque_items(s, prefix, h, t, xs);
    let ks = deque_keys(prefix, h, t);
    let segs = Seq::new(xs.len(), |i: int| ordered_i64(h + i));
    assert forall|i: int, j: int| 0 <= i < j < ks.len() implies lex_lt(
        #[trigger] ks[i],
        #[trigger] ks[j],
    ) by {
        law_order_i64_monotone((h + i) as i64, (h + j) as i64);
        law_order_roundtrip((h + i) as i64, 0);
        law_order_roundtrip((h + j) as i64, 0);
        lemma_child_order(prefix, ordered_i64(h + i), ordered_i64(h + j));
    }
    assert forall|i: int| 0 <= i < ks.len() implies starts_with(
        #[trigger] ks[i],
        prefix.push(DATA),
    ) && leaf_at(s, ks[i]) == Ok::<Option<DataV>, ErrorV>(Some(xs[i])) by {
        law_order_roundtrip((h + i) as i64, 0);
        lemma_child(prefix, ordered_i64(h + i));
        assert(leaf_at(s, deque_key(prefix, h + i)) == Ok::<Option<DataV>, ErrorV>(
            Some(xs[h + i - h]),
        ));
    }
    lemma_gathered(s, prefix, ks, xs);
    let rows = child_rows(s, prefix);
    let ns = Seq::new(xs.len(), |i: int| i as u64);
    assert forall|i: int| 0 <= i < segs.len() implies {
        &&& (#[trigger] segs[i]).len() <= u64::MAX
        &&& child_key_of(ChildKey::Deque, segs[i], i as nat) == Ok::<DataV, ErrorV>(
            DataV::UInt(ns[i]),
        )
        &&& rows[i].0 == child_of(prefix, segs[i])
        &&& reads_as(rows[i].1, xs[i])
    } by {
        law_order_roundtrip((h + i) as i64, 0);
        assert(rows[i].0 == ks[i]);
    }
    lemma_children(s, prefix, ChildKey::Deque, segs, ns, xs, xs.len() as int);
    assert(Seq::new(xs.len(), |i: int| (DataV::UInt(ns[i]), xs[i])) =~= numbered(xs));
    assert(seconds(numbered(xs)) =~= xs);
}

/// The rows of the children are those at `ks`, in order, with the items `xs`.
proof fn lemma_gathered(s: Seq<RowV>, prefix: Seq<u8>, ks: Seq<Seq<u8>>, xs: Seq<DataV>)
    requires
        ascending_keys(s),
        ascending(ks),
        ks.len() == xs.len(),
        children_at(s, prefix, ks),
        forall|i: int|
            0 <= i < ks.len() ==> starts_with(#[trigger] ks[i], prefix.push(DATA)) && leaf_at(
                s,
                ks[i],
            ) == Ok::<Option<DataV>, ErrorV>(Some(xs[i])),
    ensures
        child_rows(s, prefix).len() == xs.len(),
        forall|i: int|
            0 <= i < xs.len() ==> (#[trigger] child_rows(s, prefix)[i]).0 == ks[i] && reads_as(
                child_rows(s, prefix)[i].1,
                xs[i],
            ),
{
    let p = prefix.push(DATA);
    let rows = child_rows(s, prefix);
    law_scan(s, p);
    assert forall|i: int| 0 <= i < ks.len() implies lookup(rows, #[trigger] ks[i]) is Some by {
        assert(lookup(rows, ks[i]) == lookup(s, ks[i]));
    }
    assert forall|j: int| 0 <= j < rows.len() implies ks.contains((#[trigger] rows[j]).0) by {
        lemma_found(rows, j);
        assert(lookup(rows, rows[j].0) is Some);
        assert(starts_with(rows[j].0, p));
        assert(lookup(s, rows[j].0) is Some);
    }
    let m = if rows.len() > ks.len() {
        rows.len() as int
    } else {
        ks.len() as int
    };
    lemma_rows_are(rows, ks, m);
    assert forall|i: int| 0 <= i < xs.len() implies (#[trigger] rows[i]).0 == ks[i] && reads_as(
        rows[i].1,
        xs[i],
    ) by {
        lemma_found(rows, i);
        assert(lookup(rows, rows[i].0) == Some(rows[i].1));
        assert(lookup(s, ks[i]) == Some(rows[i].1));
    }
}

/// Pushing to a list and popping from it leave no rows beside those of its
/// elements, so that queries go on to see it as it is.
pub proof fn law_list_stays_whole(
    s: Seq<RowV>,
    t: Seq<RowV>,
    prefix: Seq<u8>,
    n: int,
    m: int,
)
    requires
        children_at(s, prefix, list_keys(prefix, n as nat)),
        0 <= n,
        n <= m && changes_only(s, t, list_span(prefix, n, (m - n) as nat)) || n == m + 1 && 0 <= m
            && changes_only(s, t, list_span(prefix, m, 1)) && lookup(t, list_key(prefix, m)) is None,
    ensures
        children_at(t, prefix, list_keys(prefix, m as nat)),
{
    let old_keys = list_keys(prefix, n as nat);
    let new_keys = list_keys(prefix, m as nat);
    assert forall|k: Seq<u8>|
        starts_with(k, prefix.push(DATA)) && #[trigger] lookup(t, k) is Some implies new_keys.contains(
        k,
    ) by {
        let span = if n <= m {
            list_span(prefix, n, (m - n) as nat)
        } else {
            list_span(prefix, m, 1)
        };
        if span.contains(k) {
            let i = choose|i: int| 0 <= i < span.len() && span[i] == k;
            if i == span.len() - 1 {
                lemma_meta_apart(prefix, crate::op::len_name(), k);
            } else if n <= m {
                assert(new_keys[n + i] == k);
            } else {
                assert(k == list_key(prefix, m));
            }
        } else {
            assert(lookup(s, k) is Some);
            let i = choose|i: int| 0 <= i < old_keys.len() && old_keys[i] == k;
            if i < m {
                assert(new_keys[i] == k);
            } else {
                assert(span[0] == k);
            }
        }
    }
}

proof fn lemma_meta_apart(prefix: Seq<u8>, name: Seq<u8>, k: Seq<u8>)
    requires
        starts_with(k, prefix.push(DATA)),
    ensures
        k != meta_of(prefix, name),
{
    let p = prefix.push(DATA);
    let n = prefix.len() as int;
    assert(k.take(p.len() as int)[n] == DATA);
    assert(meta_of(prefix, name)[n] == META);
}

/// Pushing `f` elements to the front and `b` to the back of a deque leaves no
/// rows beside those of its elements, so that queries go on to see it as it is.
pub proof fn law_deque_stays_whole(
    s: Seq<RowV>,
    u: Seq<RowV>,
    prefix: Seq<u8>,
    h: int,
    t: int,
    f: nat,
    b: nat,
)
    requires
        children_at(s, prefix, deque_keys(prefix, h, t)),
        h <= t,
        changes_only(s, u, deque_span(prefix, h, t, f, b)),
    ensures
        children_at(u, prefix, deque_keys(prefix, h - f, t + b)),
{
    let old_keys = deque_keys(prefix, h, t);
    let new_keys = deque_keys(prefix, h - f, t + b);
    let span = deque_span(prefix, h, t, f, b);
    assert forall|k: Seq<u8>|
        starts_with(k, prefix.push(DATA)) && #[trigger] lookup(u, k) is Some implies new_keys.contains(
        k,
    ) by {
        if span.contains(k) {
            let i = choose|i: int| 0 <= i < span.len() && span[i] == k;
            if i < b {
                assert(new_keys[t + i - (h - f)] == k);
            } else if i < b + f {
                assert(new_keys[f - 1 - (i - b)] == k);
            } else if i == b + f {
                lemma_meta_apart(prefix, head_name(), k);
            } else {
                lemma_meta_apart(prefix, tail_name(), k);
            }
        } else {
            assert(lookup(s, k) is Some);
            let i = choose|i: int| 0 <= i < old_keys.len() && old_keys[i] == k;
            assert(new_keys[f + i] == k);
        }
    }
}

/// Popping from an end of a deque leaves no rows beside those of its elements.
pub proof fn law_deque_whole_after_pop(
    s: Seq<RowV>,
    u: Seq<RowV>,
    prefix: Seq<u8>,
    h: int,
    t: int,
    back: bool,
)
    requires
        children_at(s, prefix, deque_keys(prefix, h, t)),
        h < t,
        ({
            let at = if back {
                t - 1
            } else {
                h
            };
            let name = if back {
                tail_name()
            } else {
                head_name()
            };
            &&& changes_only(s, u, seq![deque_key(prefix, at), meta_of(prefix, name)])
            &&& lookup(u, deque_key(prefix, at)) is None
        }),
    ensures
        children_at(
            u,
            prefix,
            deque_keys(
                prefix,
                if back {
                    h
                } else {
                    h + 1
                },
                if back {
                    t - 1
                } else {
                    t
                },
            ),
        ),
{
    let h2 = if back {
        h
    } else {
        h + 1
    };
    let t2 = if back {
        t - 1
    } else {
        t
    };
    let at = if back {
        t - 1
    } else {
        h
    };
    let name = if back {
        tail_name()
    } else {
        head_name()
    };
    let old_keys = deque_keys(prefix, h, t);
    let new_keys = deque_keys(prefix, h2, t2);
    let span = seq![deque_key(prefix, at), meta_of(prefix, name)];
    assert forall|k: Seq<u8>|
        starts_with(k, prefix.push(DATA)) && #[trigger] lookup(u, k) is Some implies new_keys.contains(
        k,
    ) by {
        if span.contains(k) {
            let i = choose|i: int| 0 <= i < span.len() && span[i] == k;
            if i == 1 {
                lemma_meta_apart(prefix, name, k);
            }
        } else {
            assert(lookup(s, k) is Some);
            let i = choose|i: int| 0 <= i < old_keys.len() && old_keys[i] == k;
            if h2 <= h + i < t2 {
                assert(new_keys[h + i - h2] == k);
            } else {
                assert(span[0] == k);
            }
        }
    }
}

} // verus!
