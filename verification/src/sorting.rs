//! The order of values, and what a sort by it is.

use crate::keys::{
    flipped, lemma_bytes_flip, lemma_bytes_follows, lemma_text_flip, lemma_text_follows,
};
use crate::machine::{rel_by, sort_place, sort_rel, sorted};
use crate::value::{
    array_at, bytes_at, compare, compare_entries, compare_items, field_of, lib_name, map_at,
    native_name, rank_of, str_at, tagged_at, CellV, Rel, Value,
};
use vstd::prelude::*;

verus! {

/// How the first of three stands to the last, where none stands above the next.
pub open spec fn after(x: Rel, y: Rel) -> Rel {
    if x == Rel::Less || y == Rel::Less {
        Rel::Less
    } else {
        Rel::Equal
    }
}

/// The one is known to stand not above the other.
pub open spec fn not_above(r: Option<Rel>) -> bool {
    r == Some(Rel::Less) || r == Some(Rel::Equal)
}

/// Two values that can be compared can be compared the other way round, with
/// the opposite result.
pub proof fn law_values_flip(h: Seq<CellV>, d: nat, a: Value, b: Value)
    requires
        compare(h, d, a, b) is Some,
    ensures
        compare(h, d, b, a) == Some(flipped(compare(h, d, a, b)->Some_0)),
    decreases d, 0int, 0int,
{
    if rank_of(a) == rank_of(b) {
        match (a, b) {
            (Value::Str(x), Value::Str(y)) => {
                lemma_text_flip(str_at(h, x), str_at(h, y));
            },
            (Value::Bytes(x), Value::Bytes(y)) => {
                lemma_bytes_flip(bytes_at(h, x), bytes_at(h, y));
            },
            (Value::Array(x), Value::Array(y)) => {
                if x != y {
                    lemma_items_flip(h, (d - 1) as nat, array_at(h, x), array_at(h, y), 0);
                }
            },
            (Value::Dict(x), Value::Dict(y)) => {
                if x != y {
                    lemma_entries_flip(h, (d - 1) as nat, map_at(h, x), map_at(h, y), 0);
                }
            },
            (Value::Tagged(x), Value::Tagged(y)) => {
                lemma_text_flip(tagged_at(h, x).0, tagged_at(h, y).0);
                if tagged_at(h, x).0 == tagged_at(h, y).0 {
                    law_values_flip(h, (d - 1) as nat, tagged_at(h, x).1, tagged_at(h, y).1);
                }
            },
            (Value::Native(x), Value::Native(y)) => {
                lemma_text_flip(native_name(x), native_name(y));
            },
            (Value::Lib(x), Value::Lib(y)) => {
                lemma_text_flip(lib_name(x), lib_name(y));
            },
            _ => {},
        }
    }
}

proof fn lemma_items_flip(h: Seq<CellV>, d: nat, xs: Seq<Value>, ys: Seq<Value>, i: int)
    requires
        0 <= i,
        compare_items(h, d, xs, ys, i) is Some,
    ensures
        compare_items(h, d, ys, xs, i) == Some(flipped(compare_items(h, d, xs, ys, i)->Some_0)),
    decreases d, 1int, xs.len() - i,
{
    if i < xs.len() && i < ys.len() {
        law_values_flip(h, d, xs[i], ys[i]);
        if compare(h, d, xs[i], ys[i]) == Some(Rel::Equal) {
            lemma_items_flip(h, d, xs, ys, i + 1);
        }
    }
}

proof fn lemma_entries_flip(
    h: Seq<CellV>,
    d: nat,
    xs: Seq<(Value, Value)>,
    ys: Seq<(Value, Value)>,
    i: int,
)
    requires
        0 <= i,
        compare_entries(h, d, xs, ys, i) is Some,
    ensures
        compare_entries(h, d, ys, xs, i) == Some(
            flipped(compare_entries(h, d, xs, ys, i)->Some_0),
        ),
    decreases d, 1int, xs.len() - i,
{
    if i < xs.len() && i < ys.len() {
        law_values_flip(h, d, xs[i].0, ys[i].0);
        if compare(h, d, xs[i].0, ys[i].0) == Some(Rel::Equal) {
            law_values_flip(h, d, xs[i].1, ys[i].1);
            if compare(h, d, xs[i].1, ys[i].1) == Some(Rel::Equal) {
                lemma_entries_flip(h, d, xs, ys, i + 1);
            }
        }
    }
}

/// The order of values is transitive, on arrays, maps and tagged values too: of
/// three of which none stands above the next, the first can be compared with
/// the last and stands below it, unless all three are equal.
pub proof fn law_values_are_ordered(h: Seq<CellV>, d: nat, a: Value, b: Value, c: Value)
    requires
        not_above(compare(h, d, a, b)),
        not_above(compare(h, d, b, c)),
    ensures
        compare(h, d, a, c) == Some(
            after(compare(h, d, a, b)->Some_0, compare(h, d, b, c)->Some_0),
        ),
    decreases d, 0int, 0int,
{
    if rank_of(a) == rank_of(b) && rank_of(b) == rank_of(c) {
        match (a, b, c) {
            (Value::Str(x), Value::Str(y), Value::Str(z)) => {
                lemma_text_after(str_at(h, x), str_at(h, y), str_at(h, z));
            },
            (Value::Bytes(x), Value::Bytes(y), Value::Bytes(z)) => {
                let (p, q, r) = (bytes_at(h, x), bytes_at(h, y), bytes_at(h, z));
                lemma_bytes_follows(p, q, r);
                lemma_bytes_flip(p, q);
                lemma_bytes_flip(q, r);
                lemma_bytes_flip(p, r);
                lemma_bytes_follows(r, q, p);
            },
            (Value::Array(x), Value::Array(y), Value::Array(z)) => {
                if x == z {
                    law_values_flip(h, d, a, b);
                } else if x != y && y != z {
                    lemma_items_ordered(
                        h,
                        (d - 1) as nat,
                        array_at(h, x),
                        array_at(h, y),
                        array_at(h, z),
                        0,
                    );
                }
            },
            (Value::Dict(x), Value::Dict(y), Value::Dict(z)) => {
                if x == z {
                    law_values_flip(h, d, a, b);
                } else if x != y && y != z {
                    lemma_entries_ordered(
                        h,
                        (d - 1) as nat,
                        map_at(h, x),
                        map_at(h, y),
                        map_at(h, z),
                        0,
                    );
                }
            },
            (Value::Tagged(x), Value::Tagged(y), Value::Tagged(z)) => {
                let (t, p) = tagged_at(h, x);
                let (u, q) = tagged_at(h, y);
                let (w, r) = tagged_at(h, z);
                lemma_text_after(t, u, w);
                if t == u && u == w {
                    law_values_are_ordered(h, (d - 1) as nat, p, q, r);
                } else if t != u && u != w {
                    lemma_text_flip(t, u);
                }
            },
            (Value::Native(x), Value::Native(y), Value::Native(z)) => {
                lemma_text_after(native_name(x), native_name(y), native_name(z));
            },
            (Value::Lib(x), Value::Lib(y), Value::Lib(z)) => {
                lemma_text_after(lib_name(x), lib_name(y), lib_name(z));
            },
            _ => {},
        }
    }
}

proof fn lemma_text_after(a: Seq<char>, b: Seq<char>, c: Seq<char>)
    ensures
        ({
            let x = crate::value::rel_text(a, b);
            let y = crate::value::rel_text(b, c);
            x != Rel::Greater && y != Rel::Greater ==> crate::value::rel_text(a, c) == after(x, y)
        }),
{
    lemma_text_follows(a, b, c);
    lemma_text_flip(a, b);
    lemma_text_flip(b, c);
    lemma_text_flip(a, c);
    lemma_text_follows(c, b, a);
}

proof fn lemma_items_ordered(
    h: Seq<CellV>,
    d: nat,
    xs: Seq<Value>,
    ys: Seq<Value>,
    zs: Seq<Value>,
    i: int,
)
    requires
        0 <= i <= xs.len(),
        i <= ys.len(),
        i <= zs.len(),
        not_above(compare_items(h, d, xs, ys, i)),
        not_above(compare_items(h, d, ys, zs, i)),
    ensures
        compare_items(h, d, xs, zs, i) == Some(
            after(
                compare_items(h, d, xs, ys, i)->Some_0,
                compare_items(h, d, ys, zs, i)->Some_0,
            ),
        ),
    decreases d, 1int, xs.len() - i,
{
    if i < xs.len() && i < ys.len() && i < zs.len() {
        law_values_are_ordered(h, d, xs[i], ys[i], zs[i]);
        if compare(h, d, xs[i], ys[i]) == Some(Rel::Equal) && compare(h, d, ys[i], zs[i]) == Some(
            Rel::Equal,
        ) {
            lemma_items_ordered(h, d, xs, ys, zs, i + 1);
        }
    }
}

proof fn lemma_entries_ordered(
    h: Seq<CellV>,
    d: nat,
    xs: Seq<(Value, Value)>,
    ys: Seq<(Value, Value)>,
    zs: Seq<(Value, Value)>,
    i: int,
)
    requires
        0 <= i <= xs.len(),
        i <= ys.len(),
        i <= zs.len(),
        not_above(compare_entries(h, d, xs, ys, i)),
        not_above(compare_entries(h, d, ys, zs, i)),
    ensures
        compare_entries(h, d, xs, zs, i) == Some(
            after(
                compare_entries(h, d, xs, ys, i)->Some_0,
                compare_entries(h, d, ys, zs, i)->Some_0,
            ),
        ),
    decreases d, 1int, xs.len() - i,
{
    if i < xs.len() && i < ys.len() && i < zs.len() {
        law_values_are_ordered(h, d, xs[i].0, ys[i].0, zs[i].0);
        if compare(h, d, xs[i].0, ys[i].0) == Some(Rel::Equal) && compare(h, d, ys[i].0, zs[i].0)
            == Some(Rel::Equal) {
            law_values_are_ordered(h, d, xs[i].1, ys[i].1, zs[i].1);
            if compare(h, d, xs[i].1, ys[i].1) == Some(Rel::Equal) && compare(
                h,
                d,
                ys[i].1,
                zs[i].1,
            ) == Some(Rel::Equal) {
                lemma_entries_ordered(h, d, xs, ys, zs, i + 1);
            }
        }
    }
}

proof fn lemma_by_ordered(
    h: Seq<CellV>,
    keys: Seq<Seq<char>>,
    x: Value,
    y: Value,
    z: Value,
    i: int,
)
    requires
        0 <= i,
        not_above(rel_by(h, keys, x, y, i)),
        not_above(rel_by(h, keys, y, z, i)),
    ensures
        rel_by(h, keys, x, z, i) == Some(
            after(rel_by(h, keys, x, y, i)->Some_0, rel_by(h, keys, y, z, i)->Some_0),
        ),
    decreases keys.len() - i,
{
    if i < keys.len() {
        let a = field_of(h, x, keys[i]);
        let b = field_of(h, y, keys[i]);
        let c = field_of(h, z, keys[i]);
        law_values_are_ordered(h, h.len(), a, b, c);
        if compare(h, h.len(), a, b) == Some(Rel::Equal) && compare(h, h.len(), b, c) == Some(
            Rel::Equal,
        ) {
            lemma_by_ordered(h, keys, x, y, z, i + 1);
        }
    }
}

proof fn lemma_by_flip(h: Seq<CellV>, keys: Seq<Seq<char>>, x: Value, y: Value, i: int)
    requires
        0 <= i,
        rel_by(h, keys, x, y, i) is Some,
    ensures
        rel_by(h, keys, y, x, i) == Some(flipped(rel_by(h, keys, x, y, i)->Some_0)),
    decreases keys.len() - i,
{
    if i < keys.len() {
        let a = field_of(h, x, keys[i]);
        let b = field_of(h, y, keys[i]);
        law_values_flip(h, h.len(), a, b);
        if compare(h, h.len(), a, b) == Some(Rel::Equal) {
            lemma_by_flip(h, keys, x, y, i + 1);
        }
    }
}

proof fn lemma_sort_ordered(h: Seq<CellV>, keys: Seq<Seq<char>>, x: Value, y: Value, z: Value)
    requires
        not_above(sort_rel(h, keys, x, y)),
        not_above(sort_rel(h, keys, y, z)),
    ensures
        sort_rel(h, keys, x, z) == Some(
            after(sort_rel(h, keys, x, y)->Some_0, sort_rel(h, keys, y, z)->Some_0),
        ),
{
    if keys.len() == 0 {
        law_values_are_ordered(h, h.len(), x, y, z);
    } else {
        lemma_by_ordered(h, keys, x, y, z, 0);
    }
}

proof fn lemma_sort_flip(h: Seq<CellV>, keys: Seq<Seq<char>>, x: Value, y: Value)
    requires
        sort_rel(h, keys, x, y) is Some,
    ensures
        sort_rel(h, keys, y, x) == Some(flipped(sort_rel(h, keys, x, y)->Some_0)),
{
    if keys.len() == 0 {
        law_values_flip(h, h.len(), x, y);
    } else {
        lemma_by_flip(h, keys, x, y, 0);
    }
}

/// `s` holds the first `order.len()` of `xs`, each at its place in `order`,
/// ascending; of two that are equal the one that came first comes first.
pub open spec fn sorts(
    h: Seq<CellV>,
    keys: Seq<Seq<char>>,
    xs: Seq<Value>,
    s: Seq<Value>,
    order: Seq<int>,
) -> bool {
    arranges(|x: Value, y: Value| sort_rel(h, keys, x, y), xs, s, order)
}

/// `s` holds the first `order.len()` of `xs`, each at its place in `order`,
/// ascending by `rel`; of two that are equal the one that came first comes
/// first.
pub open spec fn arranges(
    rel: spec_fn(Value, Value) -> Option<Rel>,
    xs: Seq<Value>,
    s: Seq<Value>,
    order: Seq<int>,
) -> bool {
    &&& s.len() == order.len() <= xs.len()
    &&& order.no_duplicates()
    &&& forall|i: int|
        0 <= i < order.len() ==> 0 <= (#[trigger] order[i]) < order.len() && s[i] == xs[order[i]]
    &&& forall|i: int, j: int| 0 <= i < j < s.len() ==> #[trigger] in_place(rel, s, order, i, j)
}

/// Of the items at the two places the first belongs before the second.
pub open spec fn in_place(
    rel: spec_fn(Value, Value) -> Option<Rel>,
    s: Seq<Value>,
    order: Seq<int>,
    i: int,
    j: int,
) -> bool {
    let r = rel(s[i], s[j]);
    r == Some(Rel::Less) || r == Some(Rel::Equal) && order[i] < order[j]
}

/// The next item put behind those that are not above it.
proof fn lemma_arranges_one_more(
    rel: spec_fn(Value, Value) -> Option<Rel>,
    xs: Seq<Value>,
    s: Seq<Value>,
    o: Seq<int>,
    p: int,
)
    requires
        arranges(rel, xs, s, o),
        s.len() < xs.len(),
        0 <= p <= s.len(),
        forall|i: int| 0 <= i < p ==> not_above(rel(#[trigger] s[i], xs[s.len() as int])),
        forall|i: int|
            p <= i < s.len() ==> rel(xs[s.len() as int], #[trigger] s[i]) == Some(Rel::Less),
    ensures
        arranges(rel, xs, s.insert(p, xs[s.len() as int]), o.insert(p, s.len() as int)),
{
    let n = s.len() as int;
    let x = xs[n];
    let order = o.insert(p, n);
    let t = s.insert(p, x);
    assert forall|i: int| 0 <= i < order.len() implies 0 <= (#[trigger] order[i]) < order.len()
        && t[i] == xs[order[i]] by {
        let k = if i > p { i - 1 } else { i };
        if i != p {
            assert(order[i] == o[k]);
        }
    }
    assert forall|i: int, j: int|
        0 <= i < order.len() && 0 <= j < order.len() && i != j implies order[i] != order[j] by {
        let a = if i > p { i - 1 } else { i };
        let b = if j > p { j - 1 } else { j };
        if i != p {
            assert(order[i] == o[a] && o[a] < n);
        }
        if j != p {
            assert(order[j] == o[b] && o[b] < n);
        }
    }
    assert forall|i: int, j: int| 0 <= i < j < t.len() implies #[trigger] in_place(
        rel,
        t,
        order,
        i,
        j,
    ) by {
        let a = if i > p { i - 1 } else { i };
        let b = if j > p { j - 1 } else { j };
        if i != p && j != p {
            assert(t[i] == s[a] && t[j] == s[b]);
            assert(order[i] == o[a] && order[j] == o[b]);
            assert(in_place(rel, s, o, a, b));
        } else if i == p {
            assert(t[j] == s[b]);
        } else {
            assert(t[i] == s[a]);
            assert(order[i] == o[a] && o[a] < n);
        }
    }
}

proof fn lemma_sort_place(
    h: Seq<CellV>,
    keys: Seq<Seq<char>>,
    xs: Seq<Value>,
    x: Value,
    n: int,
)
    requires
        0 <= n <= xs.len(),
        sort_place(h, keys, xs, x, n) is Some,
    ensures
        ({
            let p = sort_place(h, keys, xs, x, n)->Some_0;
            &&& 0 <= p <= n
            &&& p > 0 ==> not_above(sort_rel(h, keys, xs[p - 1], x))
            &&& forall|j: int|
                p <= j < n ==> sort_rel(h, keys, #[trigger] xs[j], x) == Some(Rel::Greater)
        }),
    decreases n,
{
    if n > 0 && sort_rel(h, keys, xs[n - 1], x) == Some(Rel::Greater) {
        lemma_sort_place(h, keys, xs, x, n - 1);
    }
}

/// A sort gives the items it was given, ascending, and keeps the order of equal
/// ones.
pub proof fn law_sort(h: Seq<CellV>, keys: Seq<Seq<char>>, xs: Seq<Value>, n: int) -> (order: Seq<
    int,
>)
    requires
        0 <= n <= xs.len(),
        sorted(h, keys, xs, n) is Some,
    ensures
        order.len() == n,
        sorts(h, keys, xs, sorted(h, keys, xs, n)->Some_0, order),
    decreases n,
{
    if n == 0 {
        Seq::empty()
    } else {
        let o = law_sort(h, keys, xs, n - 1);
        let s = sorted(h, keys, xs, n - 1)->Some_0;
        let x = xs[n - 1];
        lemma_sort_place(h, keys, s, x, s.len() as int);
        let p = sort_place(h, keys, s, x, s.len() as int)->Some_0;
        let rel = |x: Value, y: Value| sort_rel(h, keys, x, y);
        assert forall|i: int| 0 <= i < p implies not_above(rel(#[trigger] s[i], x)) by {
            if i < p - 1 {
                assert(in_place(rel, s, o, i, p - 1));
                lemma_sort_ordered(h, keys, s[i], s[p - 1], x);
            }
        }
        assert forall|i: int| p <= i < s.len() implies rel(x, #[trigger] s[i]) == Some(
            Rel::Less,
        ) by {
            assert(sort_rel(h, keys, s[i], x) == Some(Rel::Greater));
            lemma_sort_flip(h, keys, s[i], x);
        }
        lemma_arranges_one_more(rel, xs, s, o, p);
        o.insert(p, n - 1)
    }
}

proof fn lemma_first_difference_decides(
    h: Seq<CellV>,
    keys: Seq<Seq<char>>,
    x: Value,
    y: Value,
    i: int,
    k: int,
)
    requires
        0 <= i <= k < keys.len(),
        not_above(rel_by(h, keys, x, y, i)),
        forall|m: int|
            i <= m < k ==> compare(
                h,
                h.len(),
                field_of(h, x, #[trigger] keys[m]),
                field_of(h, y, keys[m]),
            ) == Some(Rel::Equal),
    ensures
        not_above(
            compare(h, h.len(), field_of(h, x, keys[k]), field_of(h, y, keys[k])),
        ),
    decreases k - i,
{
    if i < k {
        assert(compare(h, h.len(), field_of(h, x, keys[i]), field_of(h, y, keys[i])) == Some(
            Rel::Equal,
        ));
        lemma_first_difference_decides(h, keys, x, y, i + 1, k);
    }
}

proof fn lemma_all_fields_agree(h: Seq<CellV>, keys: Seq<Seq<char>>, x: Value, y: Value, i: int)
    requires
        0 <= i,
        forall|m: int|
            i <= m < keys.len() ==> compare(
                h,
                h.len(),
                field_of(h, x, #[trigger] keys[m]),
                field_of(h, y, keys[m]),
            ) == Some(Rel::Equal),
    ensures
        rel_by(h, keys, x, y, i) == Some(Rel::Equal),
    decreases keys.len() - i,
{
    if i < keys.len() {
        assert(compare(h, h.len(), field_of(h, x, keys[i]), field_of(h, y, keys[i])) == Some(
            Rel::Equal,
        ));
        lemma_all_fields_agree(h, keys, x, y, i + 1);
    }
}

/// A sort by fields is a sort by each of them in turn. Of two items of the
/// result that agree on the first `k` fields, the earlier one's next field is
/// not above the later one's, so it is below it where they differ. Two that
/// agree on all the fields stand as they stood before.
pub proof fn law_sort_by_fields_in_turn(
    h: Seq<CellV>,
    keys: Seq<Seq<char>>,
    xs: Seq<Value>,
    i: int,
    j: int,
    k: int,
) -> (order: Seq<int>)
    requires
        keys.len() > 0,
        sorted(h, keys, xs, xs.len() as int) is Some,
        0 <= i < j < xs.len(),
        0 <= k <= keys.len(),
        ({
            let s = sorted(h, keys, xs, xs.len() as int)->Some_0;
            forall|m: int|
                0 <= m < k ==> compare(
                    h,
                    h.len(),
                    field_of(h, s[i], #[trigger] keys[m]),
                    field_of(h, s[j], keys[m]),
                ) == Some(Rel::Equal)
        }),
    ensures
        ({
            let s = sorted(h, keys, xs, xs.len() as int)->Some_0;
            &&& s.len() == xs.len()
            &&& order.len() == xs.len()
            &&& order.no_duplicates()
            &&& forall|m: int|
                0 <= m < xs.len() ==> 0 <= (#[trigger] order[m]) < xs.len() && s[m] == xs[order[m]]
            &&& k < keys.len() ==> {
                let r = compare(
                    h,
                    h.len(),
                    field_of(h, s[i], keys[k]),
                    field_of(h, s[j], keys[k]),
                );
                r == Some(Rel::Less) || r == Some(Rel::Equal)
            }
            &&& k == keys.len() ==> order[i] < order[j]
        }),
{
    let n = xs.len() as int;
    let s = sorted(h, keys, xs, n)->Some_0;
    let order = law_sort(h, keys, xs, n);
    let rel = |x: Value, y: Value| sort_rel(h, keys, x, y);
    assert(in_place(rel, s, order, i, j));
    if k < keys.len() {
        lemma_first_difference_decides(h, keys, s[i], s[j], 0, k);
    } else {
        lemma_all_fields_agree(h, keys, s[i], s[j], 0);
    }
    order
}

/// A sort without fields is a sort by the values themselves: of two items of
/// the result the earlier one is not above the later one, and two that are
/// equal stand as they stood before.
pub proof fn law_sort_by_value(h: Seq<CellV>, xs: Seq<Value>, i: int, j: int) -> (order: Seq<int>)
    requires
        sorted(h, Seq::empty(), xs, xs.len() as int) is Some,
        0 <= i < j < xs.len(),
    ensures
        ({
            let s = sorted(h, Seq::empty(), xs, xs.len() as int)->Some_0;
            &&& s.len() == xs.len()
            &&& order.len() == xs.len()
            &&& order.no_duplicates()
            &&& forall|m: int|
                0 <= m < xs.len() ==> 0 <= (#[trigger] order[m]) < xs.len() && s[m] == xs[order[m]]
            &&& compare(h, h.len(), s[i], s[j]) == Some(Rel::Less) || compare(
                h,
                h.len(),
                s[i],
                s[j],
            ) == Some(Rel::Equal) && order[i] < order[j]
        }),
{
    let n = xs.len() as int;
    let keys = Seq::<Seq<char>>::empty();
    let s = sorted(h, keys, xs, n)->Some_0;
    let order = law_sort(h, keys, xs, n);
    let rel = |x: Value, y: Value| sort_rel(h, keys, x, y);
    assert(in_place(rel, s, order, i, j));
    order
}

} // verus!
