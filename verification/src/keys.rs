//! Map keys: their order, and what maps are because of it.

use crate::bytes::{
    lemma_lex_asymmetric, lemma_lex_irreflexive, lemma_lex_total, lemma_lex_transitive,
};
use crate::crossing::{number, tidy_entries};
use crate::text::{lemma_before_irreflexive, lemma_before_total, lemma_before_transitive};
use crate::value::{
    bytes_at, compare, entry_del, entry_get, entry_place, entry_put, has_entry, is_scalar, key_rel,
    rank_of, rel_bytes, rel_text, scalar, str_at, tagged_at, CellV, Rel, Value,
};
use vstd::prelude::*;

verus! {

/// How `b` stands to `a`, where `a` stands so to `b`.
pub open spec fn flipped(r: Rel) -> Rel {
    match r {
        Rel::Less => Rel::Greater,
        Rel::Equal => Rel::Equal,
        Rel::Greater => Rel::Less,
    }
}

/// Where `x` stands so to `y`, and `y` to `z`, `x` may stand so to `z`.
pub open spec fn follows(x: Rel, y: Rel, z: Rel) -> bool {
    &&& x != Rel::Greater && y != Rel::Greater ==> z != Rel::Greater
    &&& x == Rel::Less && y != Rel::Greater ==> z == Rel::Less
    &&& x != Rel::Greater && y == Rel::Less ==> z == Rel::Less
}

pub(crate) proof fn lemma_text_flip(a: Seq<char>, b: Seq<char>)
    ensures
        rel_text(b, a) == flipped(rel_text(a, b)),
{
    lemma_before_total(a, b);
    lemma_before_irreflexive(a);
    if crate::text::text_before(a, b) && crate::text::text_before(b, a) {
        lemma_before_transitive(a, b, a);
    }
}

pub(crate) proof fn lemma_text_follows(a: Seq<char>, b: Seq<char>, c: Seq<char>)
    ensures
        follows(rel_text(a, b), rel_text(b, c), rel_text(a, c)),
{
    lemma_before_total(a, b);
    lemma_before_total(b, c);
    lemma_before_total(a, c);
    lemma_before_irreflexive(a);
    if crate::text::text_before(a, b) && crate::text::text_before(b, c) {
        lemma_before_transitive(a, b, c);
    }
}

pub(crate) proof fn lemma_bytes_flip(a: Seq<u8>, b: Seq<u8>)
    ensures
        rel_bytes(b, a) == flipped(rel_bytes(a, b)),
{
    lemma_lex_total(a, b);
    lemma_lex_irreflexive(a);
    if crate::bytes::lex_lt(a, b) {
        lemma_lex_asymmetric(a, b);
    }
}

pub(crate) proof fn lemma_bytes_follows(a: Seq<u8>, b: Seq<u8>, c: Seq<u8>)
    ensures
        follows(rel_bytes(a, b), rel_bytes(b, c), rel_bytes(a, c)),
{
    lemma_lex_total(a, b);
    lemma_lex_total(b, c);
    lemma_lex_total(a, c);
    lemma_lex_irreflexive(a);
    if crate::bytes::lex_lt(a, b) && crate::bytes::lex_lt(b, c) {
        lemma_lex_transitive(a, b, c);
    }
}

pub proof fn lemma_flip(h: Seq<CellV>, d: nat, a: Value, b: Value)
    requires
        scalar(h, d, a),
        scalar(h, d, b),
    ensures
        compare(h, d, a, b) is Some,
        compare(h, d, b, a) == Some(flipped(compare(h, d, a, b)->Some_0)),
    decreases d,
{
    if rank_of(a) == rank_of(b) {
        match (a, b) {
            (Value::Str(x), Value::Str(y)) => {
                lemma_text_flip(str_at(h, x), str_at(h, y));
            },
            (Value::Bytes(x), Value::Bytes(y)) => {
                lemma_bytes_flip(bytes_at(h, x), bytes_at(h, y));
            },
            (Value::Tagged(x), Value::Tagged(y)) => {
                lemma_text_flip(tagged_at(h, x).0, tagged_at(h, y).0);
                lemma_flip(h, (d - 1) as nat, tagged_at(h, x).1, tagged_at(h, y).1);
            },
            _ => {},
        }
    }
}

proof fn lemma_follows(h: Seq<CellV>, d: nat, a: Value, b: Value, c: Value)
    requires
        scalar(h, d, a),
        scalar(h, d, b),
        scalar(h, d, c),
    ensures
        compare(h, d, a, b) is Some,
        compare(h, d, b, c) is Some,
        compare(h, d, a, c) is Some,
        follows(
            compare(h, d, a, b)->Some_0,
            compare(h, d, b, c)->Some_0,
            compare(h, d, a, c)->Some_0,
        ),
    decreases d,
{
    lemma_flip(h, d, a, b);
    lemma_flip(h, d, b, c);
    lemma_flip(h, d, a, c);
    if rank_of(a) == rank_of(b) && rank_of(b) == rank_of(c) {
        match (a, b, c) {
            (Value::Str(x), Value::Str(y), Value::Str(z)) => {
                lemma_text_follows(str_at(h, x), str_at(h, y), str_at(h, z));
            },
            (Value::Bytes(x), Value::Bytes(y), Value::Bytes(z)) => {
                lemma_bytes_follows(bytes_at(h, x), bytes_at(h, y), bytes_at(h, z));
            },
            (Value::Tagged(x), Value::Tagged(y), Value::Tagged(z)) => {
                let (t, p) = tagged_at(h, x);
                let (u, q) = tagged_at(h, y);
                let (w, r) = tagged_at(h, z);
                lemma_text_follows(t, u, w);
                lemma_follows(h, (d - 1) as nat, p, q, r);
            },
            _ => {},
        }
    }
}

/// The keys of maps are in a total order: of two, one comes first or they are
/// the same key, and what comes before something comes before what follows it.
pub proof fn law_keys_are_ordered(h: Seq<CellV>, a: Value, b: Value, c: Value)
    requires
        is_scalar(h, a),
        is_scalar(h, b),
        is_scalar(h, c),
    ensures
        key_rel(h, b, a) == flipped(key_rel(h, a, b)),
        follows(key_rel(h, a, b), key_rel(h, b, c), key_rel(h, a, c)),
{
    lemma_flip(h, h.len(), a, b);
    lemma_follows(h, h.len(), a, b, c);
}

pub proof fn lemma_place(h: Seq<CellV>, m: Seq<(Value, Value)>, k: Value, i: int)
    requires
        0 <= i <= m.len(),
    ensures
        i <= entry_place(h, m, k, i) <= m.len(),
        forall|j: int|
            i <= j < entry_place(h, m, k, i) ==> key_rel(h, #[trigger] m[j].0, k) == Rel::Less,
        entry_place(h, m, k, i) < m.len() ==> key_rel(h, m[entry_place(h, m, k, i)].0, k)
            != Rel::Less,
    decreases m.len() - i,
{
    if i < m.len() && key_rel(h, m[i].0, k) == Rel::Less {
        lemma_place(h, m, k, i + 1);
    }
}

/// Where the keys before `i` come before `k`, and that at `i` does not, the
/// search ends at `i`.
proof fn lemma_place_is(h: Seq<CellV>, m: Seq<(Value, Value)>, k: Value, from: int, i: int)
    requires
        0 <= from <= i <= m.len(),
        forall|j: int| from <= j < i ==> key_rel(h, #[trigger] m[j].0, k) == Rel::Less,
        i < m.len() ==> key_rel(h, m[i].0, k) != Rel::Less,
    ensures
        entry_place(h, m, k, from) == i,
    decreases i - from,
{
    if from < i {
        assert(key_rel(h, m[from].0, k) == Rel::Less);
        lemma_place_is(h, m, k, from + 1, i);
    }
}

/// What is known of the keys of a map on both sides of the place of `k`.
proof fn lemma_around(h: Seq<CellV>, m: Seq<(Value, Value)>, k: Value)
    requires
        tidy_entries(h, m),
        is_scalar(h, k),
    ensures
        ({
            let i = entry_place(h, m, k, 0);
            let had = has_entry(h, m, k);
            &&& 0 <= i <= m.len()
            &&& forall|j: int| 0 <= j < i ==> key_rel(h, #[trigger] m[j].0, k) == Rel::Less
            &&& forall|j: int|
                i < j < m.len() || (i == j && j < m.len() && !had) ==> key_rel(
                    h,
                    k,
                    #[trigger] m[j].0,
                ) == Rel::Less
        }),
{
    lemma_place(h, m, k, 0);
    let i = entry_place(h, m, k, 0);
    let had = has_entry(h, m, k);
    assert forall|j: int|
        i < j < m.len() || (i == j && j < m.len() && !had) implies key_rel(
        h,
        k,
        #[trigger] m[j].0,
    ) == Rel::Less by {
        assert(is_scalar(h, m[i].0));
        assert(is_scalar(h, m[j].0));
        law_keys_are_ordered(h, m[i].0, k, m[j].0);
        law_keys_are_ordered(h, k, m[i].0, m[j].0);
        if i < j {
            assert(key_rel(h, m[i].0, m[j].0) == Rel::Less);
        }
    }
}

/// A map gives what was last put for a key, keeps what it has for others, and
/// keeps its keys in order, none of them twice.
pub proof fn law_map_put(h: Seq<CellV>, m: Seq<(Value, Value)>, k: Value, v: Value, other: Value)
    requires
        tidy_entries(h, m),
        is_scalar(h, k),
        is_scalar(h, other),
        number(k),
        number(v),
    ensures
        tidy_entries(h, entry_put(h, m, k, v)),
        entry_get(h, entry_put(h, m, k, v), other) == if key_rel(h, other, k) == Rel::Equal {
            v
        } else {
            entry_get(h, m, other)
        },
{
    let n = entry_put(h, m, k, v);
    lemma_put_tidy(h, m, k, v);
    lemma_put_get(h, m, k, v, other);
}

pub proof fn lemma_put_tidy(h: Seq<CellV>, m: Seq<(Value, Value)>, k: Value, v: Value)
    requires
        tidy_entries(h, m),
        is_scalar(h, k),
        number(k),
        number(v),
    ensures
        tidy_entries(h, entry_put(h, m, k, v)),
{
    let n = entry_put(h, m, k, v);
    let i = entry_place(h, m, k, 0);
    lemma_around(h, m, k);
    if has_entry(h, m, k) {
        assert forall|a: int, b: int| 0 <= a < b < n.len() implies key_rel(
            h,
            #[trigger] n[a].0,
            #[trigger] n[b].0,
        ) == Rel::Less by {
            assert(n[a].0 == m[a].0 && n[b].0 == m[b].0);
        }
        assert forall|a: int| 0 <= a < n.len() implies is_scalar(h, (#[trigger] n[a]).0) && number(
            n[a].0,
        ) && number(n[a].1) by {
            assert(is_scalar(h, m[a].0) && number(m[a].0) && number(m[a].1));
        }
    } else {
        assert forall|a: int, b: int| 0 <= a < b < n.len() implies key_rel(
            h,
            #[trigger] n[a].0,
            #[trigger] n[b].0,
        ) == Rel::Less by {
            let x = if a < i { a } else { a - 1 };
            let y = if b < i { b } else { b - 1 };
            if a == i {
                assert(n[b] == m[b - 1]);
            } else if b == i {
                assert(n[a] == m[a]);
            } else {
                assert(n[a] == m[x] && n[b] == m[y]);
                assert(key_rel(h, m[x].0, m[y].0) == Rel::Less);
            }
        }
        assert forall|a: int| 0 <= a < n.len() implies is_scalar(h, (#[trigger] n[a]).0) && number(
            n[a].0,
        ) && number(n[a].1) by {
            if a != i {
                let x = if a < i { a } else { a - 1 };
                assert(n[a] == m[x]);
                assert(is_scalar(h, m[x].0) && number(m[x].0) && number(m[x].1));
            }
        }
    }
}

/// The value for a key that `m` has at place `p`.
proof fn lemma_get_at(h: Seq<CellV>, m: Seq<(Value, Value)>, k: Value, p: int)
    requires
        tidy_entries(h, m),
        is_scalar(h, k),
        0 <= p < m.len(),
        key_rel(h, m[p].0, k) == Rel::Equal,
    ensures
        has_entry(h, m, k),
        entry_place(h, m, k, 0) == p,
        entry_get(h, m, k) == m[p].1,
{
    assert(is_scalar(h, m[p].0));
    assert forall|j: int| 0 <= j < p implies key_rel(h, #[trigger] m[j].0, k) == Rel::Less by {
        assert(key_rel(h, m[j].0, m[p].0) == Rel::Less);
        assert(is_scalar(h, m[j].0));
        law_keys_are_ordered(h, m[j].0, m[p].0, k);
    }
    lemma_place_is(h, m, k, 0, p);
}

proof fn lemma_put_get(h: Seq<CellV>, m: Seq<(Value, Value)>, k: Value, v: Value, other: Value)
    requires
        tidy_entries(h, m),
        is_scalar(h, k),
        is_scalar(h, other),
        number(k),
        number(v),
    ensures
        entry_get(h, entry_put(h, m, k, v), other) == if key_rel(h, other, k) == Rel::Equal {
            v
        } else {
            entry_get(h, m, other)
        },
{
    let n = entry_put(h, m, k, v);
    let i = entry_place(h, m, k, 0);
    let had = has_entry(h, m, k);
    lemma_around(h, m, k);
    lemma_put_tidy(h, m, k, v);
    law_keys_are_ordered(h, other, k, other);
    if had {
        assert(is_scalar(h, m[i].0));
        law_keys_are_ordered(h, m[i].0, k, other);
        law_keys_are_ordered(h, k, m[i].0, other);
    } else {
        assert(n[i] == (k, v));
    }
    if key_rel(h, other, k) == Rel::Equal {
        assert(key_rel(h, n[i].0, other) == Rel::Equal);
        lemma_get_at(h, n, other, i);
    } else if has_entry(h, m, other) {
        let p = entry_place(h, m, other, 0);
        lemma_place(h, m, other, 0);
        let q = if had || p < i { p } else { p + 1 };
        if had && p == i {
            lemma_two_at_once(h, m, k, other);
        }
        assert(n[q] == m[p]);
        lemma_get_at(h, n, other, q);
    } else if has_entry(h, n, other) {
        let q = entry_place(h, n, other, 0);
        lemma_place(h, n, other, 0);
        if had {
            assert(n[q].0 == m[q].0);
            lemma_get_at(h, m, other, q);
        } else if q == i {
            law_keys_are_ordered(h, k, other, k);
        } else {
            let p = if q < i { q } else { q - 1 };
            assert(n[q] == m[p]);
            lemma_get_at(h, m, other, p);
        }
    }
}

proof fn lemma_equals(h: Seq<CellV>, a: Value, b: Value, c: Value)
    requires
        is_scalar(h, a),
        is_scalar(h, b),
        is_scalar(h, c),
        key_rel(h, a, b) == Rel::Equal,
        key_rel(h, b, c) == Rel::Equal,
    ensures
        key_rel(h, a, c) == Rel::Equal,
{
    law_keys_are_ordered(h, a, b, c);
    law_keys_are_ordered(h, c, b, a);
    law_keys_are_ordered(h, b, c, a);
    law_keys_are_ordered(h, a, c, b);
}

#[verifier::spinoff_prover]
#[verifier::rlimit(60)]
pub proof fn lemma_del_tidy(h: Seq<CellV>, m: Seq<(Value, Value)>, k: Value)
    requires
        tidy_entries(h, m),
    ensures
        tidy_entries(h, entry_del(h, m, k)),
{
    let n = entry_del(h, m, k);
    let i = entry_place(h, m, k, 0);
    lemma_place(h, m, k, 0);
    if has_entry(h, m, k) {
        assert forall|a: int, b: int| 0 <= a < b < n.len() implies key_rel(
            h,
            #[trigger] n[a].0,
            #[trigger] n[b].0,
        ) == Rel::Less by {
            let x = if a < i { a } else { a + 1 };
            let y = if b < i { b } else { b + 1 };
            assert(n[a] == m[x] && n[b] == m[y]);
            assert(key_rel(h, m[x].0, m[y].0) == Rel::Less);
        }
        assert forall|a: int| 0 <= a < n.len() implies is_scalar(h, (#[trigger] n[a]).0) && number(
            n[a].0,
        ) && number(n[a].1) by {
            let x = if a < i { a } else { a + 1 };
            assert(n[a] == m[x]);
            assert(is_scalar(h, m[x].0) && number(m[x].0) && number(m[x].1));
        }
    }
}

/// What `n` has at `q`, `m` has too.
proof fn lemma_get_same(
    h: Seq<CellV>,
    m: Seq<(Value, Value)>,
    n: Seq<(Value, Value)>,
    k: Value,
    p: int,
    q: int,
)
    requires
        tidy_entries(h, m),
        tidy_entries(h, n),
        is_scalar(h, k),
        0 <= p < m.len(),
        0 <= q < n.len(),
        m[p] == n[q],
        key_rel(h, m[p].0, k) == Rel::Equal,
    ensures
        entry_get(h, m, k) == entry_get(h, n, k),
{
    lemma_get_at(h, m, k, p);
    lemma_get_at(h, n, k, q);
}

proof fn lemma_del_kept(h: Seq<CellV>, m: Seq<(Value, Value)>, k: Value, other: Value)
    requires
        tidy_entries(h, m),
        is_scalar(h, k),
        is_scalar(h, other),
        has_entry(h, m, k),
        key_rel(h, other, k) != Rel::Equal,
    ensures
        entry_get(h, entry_del(h, m, k), other) == entry_get(h, m, other),
{
    let n = entry_del(h, m, k);
    let i = entry_place(h, m, k, 0);
    lemma_place(h, m, k, 0);
    lemma_del_tidy(h, m, k);
    if has_entry(h, n, other) {
        let q = entry_place(h, n, other, 0);
        lemma_place(h, n, other, 0);
        let p = if q < i { q } else { q + 1 };
        assert(n[q] == m[p]);
        lemma_get_same(h, m, n, other, p, q);
    } else if has_entry(h, m, other) {
        let p = entry_place(h, m, other, 0);
        lemma_place(h, m, other, 0);
        if p == i {
            lemma_two_at_once(h, m, k, other);
        } else {
            let q = if p < i { p } else { p - 1 };
            assert(n[q] == m[p]);
            lemma_get_same(h, m, n, other, p, q);
        }
    }
}

/// Keys that a map finds at one place are the same.
proof fn lemma_two_at_once(h: Seq<CellV>, m: Seq<(Value, Value)>, k: Value, other: Value)
    requires
        tidy_entries(h, m),
        is_scalar(h, k),
        is_scalar(h, other),
        has_entry(h, m, k),
        has_entry(h, m, other),
        entry_place(h, m, k, 0) == entry_place(h, m, other, 0),
    ensures
        key_rel(h, other, k) == Rel::Equal,
{
    let i = entry_place(h, m, k, 0);
    lemma_place(h, m, k, 0);
    assert(is_scalar(h, m[i].0));
    law_keys_are_ordered(h, m[i].0, other, k);
    lemma_equals(h, other, m[i].0, k);
}

proof fn lemma_del_gone(h: Seq<CellV>, m: Seq<(Value, Value)>, k: Value, other: Value)
    requires
        tidy_entries(h, m),
        is_scalar(h, k),
        is_scalar(h, other),
        key_rel(h, other, k) == Rel::Equal,
    ensures
        !has_entry(h, entry_del(h, m, k), other),
{
    let n = entry_del(h, m, k);
    let i = entry_place(h, m, k, 0);
    lemma_place(h, m, k, 0);
    lemma_del_tidy(h, m, k);
    if has_entry(h, n, other) {
        let q = entry_place(h, n, other, 0);
        lemma_place(h, n, other, 0);
        let had = has_entry(h, m, k);
        let p = if !had || q < i { q } else { q + 1 };
        assert(n[q] == m[p]);
        assert(is_scalar(h, m[p].0));
        lemma_equals(h, m[p].0, other, k);
        lemma_get_at(h, m, k, p);
    }
}

/// A map has nothing for a key that was deleted, keeps what it has for others,
/// and keeps its keys in order.
pub proof fn law_map_del(h: Seq<CellV>, m: Seq<(Value, Value)>, k: Value, other: Value)
    requires
        tidy_entries(h, m),
        is_scalar(h, k),
        is_scalar(h, other),
    ensures
        tidy_entries(h, entry_del(h, m, k)),
        entry_get(h, entry_del(h, m, k), other) == if key_rel(h, other, k) == Rel::Equal {
            Value::Nil
        } else {
            entry_get(h, m, other)
        },
{
    lemma_del_tidy(h, m, k);
    if key_rel(h, other, k) == Rel::Equal {
        lemma_del_gone(h, m, k, other);
    } else if has_entry(h, m, k) {
        lemma_del_kept(h, m, k, other);
    }
}

} // verus!
