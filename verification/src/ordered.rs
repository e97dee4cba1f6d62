//! Maps from texts, kept as lists in ascending order of the keys.

use crate::text::{
    lemma_before_irreflexive, lemma_before_total, lemma_before_transitive, text_before, text_eq,
    text_lt,
};
use vstd::prelude::*;

verus! {

/// The keys of the list with their values.
pub open spec fn keyed<V>(s: Seq<(String, V)>) -> Seq<(Seq<char>, V)> {
    Seq::new(s.len(), |i: int| (s[i].0@, s[i].1))
}

/// Where the key `k` belongs from `i` on.
pub open spec fn key_place<V>(m: Seq<(Seq<char>, V)>, k: Seq<char>, i: int) -> int
    decreases m.len() - i,
{
    if i < 0 || i >= m.len() || !text_before(m[i].0, k) {
        i
    } else {
        key_place(m, k, i + 1)
    }
}

/// The list has the key `k`.
pub open spec fn has_key<V>(m: Seq<(Seq<char>, V)>, k: Seq<char>) -> bool {
    let p = key_place(m, k, 0);
    p < m.len() && m[p].0 == k
}

/// The value of the key `k`.
pub open spec fn at_key<V>(m: Seq<(Seq<char>, V)>, k: Seq<char>) -> V {
    m[key_place(m, k, 0)].1
}

/// The list with `k` set to `v`.
pub open spec fn with_key<V>(m: Seq<(Seq<char>, V)>, k: Seq<char>, v: V) -> Seq<(Seq<char>, V)> {
    let p = key_place(m, k, 0);
    if has_key(m, k) {
        m.update(p, (k, v))
    } else {
        m.insert(p, (k, v))
    }
}

/// The list without `k`.
pub open spec fn without_key<V>(m: Seq<(Seq<char>, V)>, k: Seq<char>) -> Seq<(Seq<char>, V)> {
    if has_key(m, k) {
        m.remove(key_place(m, k, 0))
    } else {
        m
    }
}

pub proof fn lemma_key_place<V>(m: Seq<(Seq<char>, V)>, k: Seq<char>, i: int)
    requires
        0 <= i <= m.len(),
    ensures
        i <= key_place(m, k, i) <= m.len(),
    decreases m.len() - i,
{
    if i < m.len() && text_before(m[i].0, k) {
        lemma_key_place(m, k, i + 1);
    }
}

/// Where the key `k` belongs.
pub fn find_key<V>(m: &Vec<(String, V)>, k: &str) -> (r: (usize, bool))
    ensures
        r.0 == key_place(keyed(m@), k@, 0),
        r.1 == has_key(keyed(m@), k@),
        r.0 <= m@.len(),
{
    let ghost mv = keyed(m@);
    let mut i: usize = 0;
    while i < m.len() && text_lt(m[i].0.as_str(), k)
        invariant
            i <= m@.len(),
            mv == keyed(m@),
            key_place(mv, k@, 0) == key_place(mv, k@, i as int),
        decreases m@.len() - i,
    {
        i = i + 1;
    }
    let found: bool = i < m.len() && text_eq(m[i].0.as_str(), k);
    (i, found)
}

/// Sets the key `k` to `v`.
pub fn set_key<V>(m: &mut Vec<(String, V)>, k: &str, v: V)
    ensures
        keyed(final(m)@) == with_key(keyed(old(m)@), k@, v),
{
    let ghost before = m@;
    let (i, found) = find_key(m, k);
    if found {
        m.set(i, (k.to_owned(), v));
        assert(keyed(m@) =~= keyed(before).update(i as int, (k@, v)));
    } else {
        m.insert(i, (k.to_owned(), v));
        assert(keyed(m@) =~= keyed(before).insert(i as int, (k@, v)));
    }
}

/// Removes the key `k`.
pub fn remove_key<V>(m: &mut Vec<(String, V)>, k: &str)
    ensures
        keyed(final(m)@) == without_key(keyed(old(m)@), k@),
{
    let ghost before = m@;
    let (i, found) = find_key(m, k);
    if found {
        m.remove(i);
        assert(keyed(m@) =~= keyed(before).remove(i as int));
    }
}

/// The values of the list, each turned by `f`.
pub open spec fn mapped<V, W>(m: Seq<(Seq<char>, V)>, f: spec_fn(V) -> W) -> Seq<(Seq<char>, W)> {
    Seq::new(m.len(), |i: int| (m[i].0, f(m[i].1)))
}

proof fn lemma_mapped_place<V, W>(
    m: Seq<(Seq<char>, V)>,
    f: spec_fn(V) -> W,
    k: Seq<char>,
    i: int,
)
    ensures
        key_place(mapped(m, f), k, i) == key_place(m, k, i),
    decreases m.len() - i,
{
    if 0 <= i && i < m.len() && text_before(m[i].0, k) {
        lemma_mapped_place(m, f, k, i + 1);
    }
}

/// Keys and values of a list keep their places where the values are turned.
pub proof fn lemma_mapped<V, W>(m: Seq<(Seq<char>, V)>, f: spec_fn(V) -> W, k: Seq<char>, v: V)
    ensures
        has_key(mapped(m, f), k) == has_key(m, k),
        has_key(m, k) ==> at_key(mapped(m, f), k) == f(at_key(m, k)),
        mapped(with_key(m, k, v), f) == with_key(mapped(m, f), k, f(v)),
        mapped(without_key(m, k), f) == without_key(mapped(m, f), k),
{
    lemma_mapped_place(m, f, k, 0);
    lemma_key_place(m, k, 0);
    assert(mapped(with_key(m, k, v), f) =~= with_key(mapped(m, f), k, f(v)));
    assert(mapped(without_key(m, k), f) =~= without_key(mapped(m, f), k));
}

/// The keys ascend, so that each occurs once.
pub open spec fn sorted_keys<V>(m: Seq<(Seq<char>, V)>) -> bool {
    forall|i: int, j: int| 0 <= i < j < m.len() ==> #[trigger] text_before(m[i].0, m[j].0)
}

/// In a list in order the lesser keys come before the place of a key, and the
/// greater ones behind it.
proof fn lemma_place_splits<V>(m: Seq<(Seq<char>, V)>, k: Seq<char>, i: int)
    requires
        sorted_keys(m),
        0 <= i <= m.len(),
        forall|j: int| 0 <= j < i ==> text_before((#[trigger] m[j]).0, k),
    ensures
        ({
            let p = key_place(m, k, i);
            &&& i <= p <= m.len()
            &&& forall|j: int| 0 <= j < p ==> text_before((#[trigger] m[j]).0, k)
            &&& forall|j: int|
                p <= j < m.len() ==> (#[trigger] m[j]).0 == k && j == p || text_before(k, m[j].0)
        }),
    decreases m.len() - i,
{
    if i < m.len() && text_before(m[i].0, k) {
        lemma_place_splits(m, k, i + 1);
    } else if i < m.len() {
        lemma_before_total(m[i].0, k);
        assert forall|j: int| i <= j < m.len() implies (#[trigger] m[j]).0 == k && j == i
            || text_before(k, m[j].0) by {
            if i < j {
                assert(text_before(m[i].0, m[j].0));
                if m[i].0 != k {
                    lemma_before_transitive(k, m[i].0, m[j].0);
                }
            }
        }
    }
}

/// Setting a key keeps the list in order; it then holds the new entry and the
/// entries of the other keys, and nothing else.
pub proof fn law_set_key<V>(m: Seq<(Seq<char>, V)>, k: Seq<char>, v: V)
    requires
        sorted_keys(m),
    ensures
        sorted_keys(with_key(m, k, v)),
        with_key(m, k, v).contains((k, v)),
        forall|e: (Seq<char>, V)|
            e.0 != k ==> (#[trigger] with_key(m, k, v).contains(e) <==> m.contains(e)),
        forall|e: (Seq<char>, V)| #[trigger] with_key(m, k, v).contains(e) && e.0 == k ==> e.1 == v,
{
    let p = key_place(m, k, 0);
    let w = with_key(m, k, v);
    lemma_place_splits(m, k, 0);
    lemma_before_irreflexive(k);
    let new = !has_key(m, k);
    assert(w[p] == (k, v));
    assert forall|i: int| 0 <= i < w.len() && i != p implies #[trigger] w[i] == m[if new && i > p {
        i - 1
    } else {
        i
    }] by {}
    assert forall|i: int, j: int| 0 <= i < j < w.len() implies #[trigger] text_before(
        w[i].0,
        w[j].0,
    ) by {
        let a = if new && i > p { i - 1 } else { i };
        let b = if new && j > p { j - 1 } else { j };
        assert(i != p ==> w[i] == m[a]);
        assert(j != p ==> w[j] == m[b]);
        if i == p {
            assert(m[b].0 == k && b == p || text_before(k, m[b].0));
        } else if j == p {
            assert(text_before(m[a].0, k));
        } else {
            assert(text_before(m[a].0, m[b].0));
        }
    }
    assert forall|e: (Seq<char>, V)| e.0 != k implies (#[trigger] w.contains(e) <==> m.contains(
        e,
    )) by {
        if w.contains(e) {
            let i = choose|i: int| 0 <= i < w.len() && w[i] == e;
            assert(m[if new && i > p { i - 1 } else { i }] == e);
        }
        if m.contains(e) {
            let i = choose|i: int| 0 <= i < m.len() && m[i] == e;
            if new && i >= p {
                assert(w[i + 1] == e);
            } else {
                assert(w[i] == e);
            }
        }
    }
    assert forall|e: (Seq<char>, V)| #[trigger] w.contains(e) && e.0 == k implies e.1 == v by {
        let i = choose|i: int| 0 <= i < w.len() && w[i] == e;
        if i < p {
            assert(text_before(w[i].0, w[p].0));
        } else if i > p {
            assert(text_before(w[p].0, w[i].0));
        }
    }
}

/// Removing a key keeps the list in order; it then holds the entries of the
/// other keys, and nothing else.
pub proof fn law_remove_key<V>(m: Seq<(Seq<char>, V)>, k: Seq<char>)
    requires
        sorted_keys(m),
    ensures
        sorted_keys(without_key(m, k)),
        forall|e: (Seq<char>, V)|
            #[trigger] without_key(m, k).contains(e) <==> m.contains(e) && e.0 != k,
{
    let p = key_place(m, k, 0);
    let w = without_key(m, k);
    lemma_place_splits(m, k, 0);
    lemma_before_irreflexive(k);
    let gone = has_key(m, k);
    assert forall|i: int| 0 <= i < w.len() implies #[trigger] w[i] == m[if gone && i >= p {
        i + 1
    } else {
        i
    }] by {}
    assert forall|i: int, j: int| 0 <= i < j < w.len() implies #[trigger] text_before(
        w[i].0,
        w[j].0,
    ) by {
        let a = if gone && i >= p { i + 1 } else { i };
        let b = if gone && j >= p { j + 1 } else { j };
        assert(w[i] == m[a] && w[j] == m[b]);
        assert(text_before(m[a].0, m[b].0));
    }
    assert forall|e: (Seq<char>, V)| #[trigger] w.contains(e) <==> m.contains(e) && e.0 != k by {
        if w.contains(e) {
            let i = choose|i: int| 0 <= i < w.len() && w[i] == e;
            let a = if gone && i >= p { i + 1 } else { i };
            assert(m[a] == e);
            if a >= p {
                assert(m[a].0 == k && a == p || text_before(k, m[a].0));
            } else {
                assert(text_before(m[a].0, k));
            }
        }
        if m.contains(e) && e.0 != k {
            let i = choose|i: int| 0 <= i < m.len() && m[i] == e;
            if gone && i > p {
                assert(w[i - 1] == e);
            } else {
                assert(w[i] == e);
            }
        }
    }
}

/// What is read of a key is an entry of the list.
pub proof fn law_read_key<V>(m: Seq<(Seq<char>, V)>, k: Seq<char>)
    requires
        sorted_keys(m),
    ensures
        has_key(m, k) ==> m.contains((k, at_key(m, k))),
        forall|v: V| #[trigger] m.contains((k, v)) ==> has_key(m, k) && at_key(m, k) == v,
{
    let p = key_place(m, k, 0);
    lemma_place_splits(m, k, 0);
    lemma_before_irreflexive(k);
    if has_key(m, k) {
        assert(m[p] == (k, at_key(m, k)));
    }
    assert forall|v: V| #[trigger] m.contains((k, v)) implies has_key(m, k) && at_key(m, k) == v by {
        let i = choose|i: int| 0 <= i < m.len() && m[i] == (k, v);
        if i < p {
            assert(text_before(m[i].0, k));
        } else {
            assert(m[i].0 == k && i == p || text_before(k, m[i].0));
        }
    }
}

} // verus!
