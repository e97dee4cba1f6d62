//! What holds of a ranking as a whole: who is in it, and what stands together.

use crate::ranking::{
    classes, components, flattened, group_place, isolates, items_of, joins, labels,
    law_classes_are_least, lemma_item_place, lemma_labels_are_roots, lemma_labels_bound, members,
    ranked_groups, ranked_subset, ranking_of, scores_of, score_at, top_score, touched, unscored,
    voted, with_group, ComparisonV, ItemV,
};
use crate::value::float_key;
use vstd::prelude::*;
use vstd::seq_lib::*;

verus! {

/// The names at the places.
spec fn names_at(ids: Seq<Seq<char>>, places: Seq<usize>) -> Seq<Seq<char>> {
    places.map_values(|i: usize| ids[i as int])
}

/// All places are below `n`.
spec fn in_bounds(places: Seq<usize>, n: int) -> bool {
    forall|i: int| 0 <= i < places.len() ==> (#[trigger] places[i]) < n
}

/// The first `n` lists, one behind the other.
spec fn chained(cs: Seq<Seq<usize>>, n: int) -> Seq<usize>
    decreases n,
{
    if n <= 0 || n > cs.len() {
        Seq::empty()
    } else {
        chained(cs, n - 1) + cs[n - 1]
    }
}

/// The places below `n`.
spec fn range(n: nat) -> Seq<usize> {
    Seq::new(n, |x: int| x as usize)
}

proof fn lemma_subset_items(ids: Seq<Seq<char>>, idxs: Seq<usize>, scores: Seq<u64>, n: int)
    requires
        0 <= n <= idxs.len(),
        in_bounds(idxs, ids.len() as int),
    ensures
        items_of(ranked_subset(ids, idxs, scores, n)).to_multiset() == names_at(
            ids,
            idxs.take(n),
        ).to_multiset(),
    decreases n,
{
    if n > 0 {
        lemma_subset_items(ids, idxs, scores, n - 1);
        let xs = ranked_subset(ids, idxs, scores, n - 1);
        let s = score_at(scores, n - 1);
        assert(idxs[n - 1] < ids.len());
        let x = ItemV { item: ids[idxs[n - 1] as int], score: s };
        lemma_item_place(xs, s, 0);
        let p = crate::ranking::item_place(xs, s, 0);
        assert(items_of(xs.insert(p, x)) =~= items_of(xs).insert(p, x.item));
        to_multiset_insert(items_of(xs), p, x.item);
        let before = names_at(ids, idxs.take(n - 1));
        assert(names_at(ids, idxs.take(n)) =~= before.push(x.item));
        to_multiset_build(before, x.item);
    } else {
        assert(items_of(ranked_subset(ids, idxs, scores, 0)) =~= names_at(ids, idxs.take(0)));
    }
}

proof fn lemma_group_place(gs: Seq<Seq<ItemV>>, score: u64, i: int)
    requires
        0 <= i <= gs.len(),
    ensures
        i <= group_place(gs, score, i) <= gs.len(),
        forall|j: int|
            i <= j < group_place(gs, score, i) ==> float_key(top_score(#[trigger] gs[j]))
                >= float_key(score),
        group_place(gs, score, i) < gs.len() ==> float_key(
            top_score(gs[group_place(gs, score, i)]),
        ) < float_key(score),
    decreases gs.len() - i,
{
    if i < gs.len() && float_key(top_score(gs[i])) >= float_key(score) {
        lemma_group_place(gs, score, i + 1);
    }
}

proof fn lemma_flattened_front(gs: Seq<Seq<ItemV>>, hs: Seq<Seq<ItemV>>, n: int)
    requires
        0 <= n <= gs.len(),
        n <= hs.len(),
        forall|i: int| 0 <= i < n ==> gs[i] == hs[i],
    ensures
        flattened(gs, n) == flattened(hs, n),
    decreases n,
{
    if n > 0 {
        lemma_flattened_front(gs, hs, n - 1);
    }
}

/// Wherever a group is put among others, its items come to theirs.
proof fn lemma_flattened_insert(gs: Seq<Seq<ItemV>>, p: int, g: Seq<ItemV>, m: int)
    requires
        0 <= p <= m <= gs.len(),
    ensures
        items_of(flattened(gs.insert(p, g), m + 1)).to_multiset() == items_of(
            flattened(gs, m),
        ).to_multiset().add(items_of(g).to_multiset()),
    decreases m,
{
    let hs = gs.insert(p, g);
    if m == p {
        lemma_flattened_front(hs, gs, p);
        let a = flattened(gs, p);
        assert(hs[p] == g);
        assert(items_of(a + g) =~= items_of(a) + items_of(g));
        lemma_multiset_commutative(items_of(a), items_of(g));
    } else {
        lemma_flattened_insert(gs, p, g, m - 1);
        let a = flattened(gs, m - 1);
        let b = flattened(hs, m);
        let x = gs[m - 1];
        assert(hs[m] == x);
        assert(flattened(hs, m + 1) == b + x);
        assert(flattened(gs, m) == a + x);
        assert(items_of(b + x) =~= items_of(b) + items_of(x));
        assert(items_of(a + x) =~= items_of(a) + items_of(x));
        lemma_multiset_commutative(items_of(a), items_of(x));
        lemma_multiset_commutative(items_of(b), items_of(x));
        assert(items_of(b + x).to_multiset() =~= items_of(a + x).to_multiset().add(
            items_of(g).to_multiset(),
        ));
    }
}

/// The ranked groups hold the names of the components' places.
proof fn lemma_groups_items(
    ids: Seq<Seq<char>>,
    comps: Seq<Seq<usize>>,
    scores: Seq<Seq<u64>>,
    n: int,
)
    requires
        0 <= n <= comps.len(),
        forall|k: int| 0 <= k < comps.len() ==> in_bounds(#[trigger] comps[k], ids.len() as int),
    ensures
        ranked_groups(ids, comps, scores, n).len() == n,
        items_of(flattened(ranked_groups(ids, comps, scores, n), n)).to_multiset() == names_at(
            ids,
            chained(comps, n),
        ).to_multiset(),
    decreases n,
{
    if n > 0 {
        lemma_groups_items(ids, comps, scores, n - 1);
        let gs = ranked_groups(ids, comps, scores, n - 1);
        let c = comps[n - 1];
        let g = ranked_subset(ids, c, scores_of(scores, n - 1), c.len() as int);
        assert(in_bounds(c, ids.len() as int));
        lemma_group_place(gs, top_score(g), 0);
        lemma_flattened_insert(gs, group_place(gs, top_score(g), 0), g, n - 1);
        lemma_subset_items(ids, c, scores_of(scores, n - 1), c.len() as int);
        assert(c.take(c.len() as int) =~= c);
        let before = chained(comps, n - 1);
        assert(names_at(ids, before + c) =~= names_at(ids, before) + names_at(ids, c));
        lemma_multiset_commutative(names_at(ids, before), names_at(ids, c));
    } else {
        assert(items_of(flattened(ranked_groups(ids, comps, scores, 0), 0)) =~= names_at(
            ids,
            chained(comps, 0),
        ));
    }
}

proof fn lemma_members_count(l: Seq<usize>, root: usize, m: int, x: usize)
    requires
        0 <= m <= l.len(),
        l.len() <= usize::MAX,
    ensures
        members(l, root, m).to_multiset().count(x) == (if x < m && l[x as int] == root {
            1nat
        } else {
            0
        }),
        in_bounds(members(l, root, m), m),
    decreases m,
{
    broadcast use vstd::multiset::group_multiset_axioms;

    if m > 0 {
        lemma_members_count(l, root, m - 1, x);
        to_multiset_build(members(l, root, m - 1), (m - 1) as usize);
    } else {
        to_multiset_contains(members(l, root, 0), x);
    }
}

proof fn lemma_isolates_count(n: nat, pairs: Seq<(usize, usize)>, m: int, x: usize)
    requires
        0 <= m <= n,
        n <= usize::MAX,
    ensures
        isolates(n, pairs, m).to_multiset().count(x) == (if x < m && !touched(n, pairs, x as int) {
            1nat
        } else {
            0
        }),
        in_bounds(isolates(n, pairs, m), m),
    decreases m,
{
    broadcast use vstd::multiset::group_multiset_axioms;

    if m > 0 {
        lemma_isolates_count(n, pairs, m - 1, x);
        to_multiset_build(isolates(n, pairs, m - 1), (m - 1) as usize);
    } else {
        to_multiset_contains(isolates(n, pairs, 0), x);
    }
}

/// A place that no pair joins is its own class, and one that some pair joins is
/// in a class whose label some pair joins.
proof fn lemma_touched_classes(n: nat, pairs: Seq<(usize, usize)>, x: int)
    requires
        n <= usize::MAX,
        0 <= x < n,
    ensures
        classes(n, pairs)[x] <= x,
        classes(n, pairs)[classes(n, pairs)[x] as int] == classes(n, pairs)[x],
        touched(n, pairs, x) == touched(n, pairs, classes(n, pairs)[x] as int),
        !touched(n, pairs, x) ==> classes(n, pairs)[x] == x,
{
    let l = classes(n, pairs);
    lemma_labels_bound(n, pairs, pairs.len() as int);
    lemma_labels_are_roots(n, pairs, pairs.len() as int);
    let g = |y: int| if touched(n, pairs, y) { -1int } else { y };
    assert forall|j: int| 0 <= j < pairs.len() && joins(n, #[trigger] pairs[j]) implies g(
        pairs[j].0 as int,
    ) == g(pairs[j].1 as int) by {
        assert(touched(n, pairs, pairs[j].0 as int));
        assert(touched(n, pairs, pairs[j].1 as int));
    }
    law_classes_are_least(n, pairs, pairs.len() as int, g);
    assert(g(x) == g(labels(n, pairs, pairs.len() as int)[x] as int));
    assert(l[x] <= x);
}

proof fn lemma_components_count(n: nat, pairs: Seq<(usize, usize)>, m: int, x: usize)
    requires
        0 <= m <= n,
        n <= usize::MAX,
    ensures
        ({
            let cs = components(n, pairs, m);
            &&& chained(cs, cs.len() as int).to_multiset().count(x) == (if x < n && touched(
                n,
                pairs,
                x as int,
            ) && classes(n, pairs)[x as int] < m {
                1nat
            } else {
                0
            })
            &&& forall|k: int| 0 <= k < cs.len() ==> in_bounds(#[trigger] cs[k], n as int)
        }),
    decreases m,
{
    broadcast use vstd::multiset::group_multiset_axioms;

    let cs = components(n, pairs, m);
    if m > 0 {
        lemma_components_count(n, pairs, m - 1, x);
        let l = classes(n, pairs);
        lemma_labels_bound(n, pairs, pairs.len() as int);
        let before = components(n, pairs, m - 1);
        if x < n {
            lemma_touched_classes(n, pairs, x as int);
        }
        if l[m - 1] == m - 1 && touched(n, pairs, m - 1) {
            let c = members(l, (m - 1) as usize, n as int);
            lemma_members_count(l, (m - 1) as usize, n as int, x);
            lemma_chained_push(before, c);
            let a = chained(before, before.len() as int);
            lemma_multiset_commutative(a, c);
            assert(cs == before.push(c));
            assert forall|k: int| 0 <= k < cs.len() implies in_bounds(#[trigger] cs[k], n as int) by {
                if k < before.len() {
                    assert(cs[k] == before[k]);
                }
            }
        }
    } else {
        to_multiset_contains(chained(cs, 0), x);
    }
}

proof fn lemma_chained_front(cs: Seq<Seq<usize>>, c: Seq<usize>, n: int)
    requires
        0 <= n <= cs.len(),
    ensures
        chained(cs.push(c), n) == chained(cs, n),
    decreases n,
{
    if n > 0 {
        lemma_chained_front(cs, c, n - 1);
    }
}

proof fn lemma_chained_push(cs: Seq<Seq<usize>>, c: Seq<usize>)
    ensures
        chained(cs.push(c), (cs.len() + 1) as int) == chained(cs, cs.len() as int) + c,
{
    lemma_chained_front(cs, c, cs.len() as int);
}

proof fn lemma_range_count(n: nat, x: usize)
    requires
        n <= usize::MAX,
    ensures
        range(n).to_multiset().count(x) == (if x < n {
            1nat
        } else {
            0
        }),
    decreases n,
{
    broadcast use vstd::multiset::group_multiset_axioms;

    if n > 0 {
        let m = (n - 1) as nat;
        lemma_range_count(m, x);
        assert(range(n) =~= range(m).push(m as usize));
        to_multiset_build(range(m), m as usize);
    } else {
        to_multiset_contains(range(0), x);
    }
}

/// Lists of the same places name the same names.
proof fn lemma_names_of_permutation(ids: Seq<Seq<char>>, a: Seq<usize>, b: Seq<usize>)
    requires
        a.to_multiset() == b.to_multiset(),
    ensures
        names_at(ids, a).to_multiset() == names_at(ids, b).to_multiset(),
    decreases a.len(),
{
    to_multiset_len(a);
    to_multiset_len(b);
    if a.len() > 0 {
        let x = a.last();
        let a0 = a.drop_last();
        assert(a =~= a0.push(x));
        to_multiset_contains(a, x);
        to_multiset_contains(b, x);
        assert(a[a.len() - 1] == x);
        assert(b.contains(x));
        let j = choose|j: int| 0 <= j < b.len() && b[j] == x;
        let b0 = b.remove(j);
        to_multiset_remove(b, j);
        to_multiset_build(a0, x);
        assert(a0.to_multiset() =~= b0.to_multiset());
        lemma_names_of_permutation(ids, a0, b0);
        assert(names_at(ids, a) =~= names_at(ids, a0).push(ids[x as int]));
        to_multiset_build(names_at(ids, a0), ids[x as int]);
        assert(names_at(ids, b) =~= names_at(ids, b0).insert(j, ids[x as int]));
        to_multiset_insert(names_at(ids, b0), j, ids[x as int]);
    } else {
        assert(names_at(ids, a) =~= names_at(ids, b));
    }
}

/// A ranking ranks what it is asked to: every name comes as often as it was
/// given, and so once where the names are distinct.
pub proof fn law_ranking_is_a_permutation(
    ids: Seq<Seq<char>>,
    votes: Seq<ComparisonV>,
    scores: Seq<Seq<u64>>,
)
    requires
        ids.len() <= usize::MAX,
    ensures
        ranking_of(ids, votes, scores).len() == ids.len(),
        items_of(ranking_of(ids, votes, scores)).to_multiset() == ids.to_multiset(),
        ids.no_duplicates() ==> items_of(ranking_of(ids, votes, scores)).no_duplicates(),
{
    broadcast use vstd::multiset::group_multiset_axioms;

    let r = ranking_of(ids, votes, scores);
    let n = ids.len();
    if n == 1 {
        assert(items_of(r) =~= ids);
    } else {
        let pairs = voted(ids, votes, votes.len() as int);
        let comps = components(n, pairs, n as int);
        let alone = isolates(n, pairs, n as int);
        let k = comps.len() as int;
        let places = chained(comps, k) + alone;
        assert forall|x: usize| places.to_multiset().count(x) == #[trigger] range(
            n,
        ).to_multiset().count(x) by {
            lemma_components_count(n, pairs, n as int, x);
            lemma_isolates_count(n, pairs, n as int, x);
            lemma_range_count(n, x);
            lemma_multiset_commutative(chained(comps, k), alone);
            if x < n {
                lemma_touched_classes(n, pairs, x as int);
            }
        }
        assert(places.to_multiset() =~= range(n).to_multiset());
        lemma_names_of_permutation(ids, places, range(n));
        assert(names_at(ids, range(n)) =~= ids);
        lemma_components_count(n, pairs, n as int, 0);
        lemma_isolates_count(n, pairs, n as int, 0);
        lemma_groups_items(ids, comps, scores, k);
        let gs = ranked_groups(ids, comps, scores, k);
        let flat = flattened(gs, k);
        let rest = unscored(ids, alone);
        assert(items_of(rest) =~= names_at(ids, alone));
        assert(items_of(r) =~= items_of(flat) + items_of(rest));
        lemma_multiset_commutative(items_of(flat), items_of(rest));
        assert(names_at(ids, places) =~= names_at(ids, chained(comps, k)) + names_at(ids, alone));
        lemma_multiset_commutative(names_at(ids, chained(comps, k)), names_at(ids, alone));
    }
    to_multiset_len(items_of(r));
    to_multiset_len(ids);
    if ids.no_duplicates() {
        ids.lemma_multiset_has_no_duplicates();
        items_of(r).lemma_multiset_has_no_duplicates_conv();
    }
}

/// The items `g` stand in `r` from `p` on.
pub open spec fn stands_at(r: Seq<ItemV>, g: Seq<ItemV>, p: int) -> bool {
    0 <= p && p + g.len() <= r.len() && r.subrange(p, p + g.len()) == g
}

/// The component `k` of the names, ranked.
pub open spec fn ranked_component(
    ids: Seq<Seq<char>>,
    votes: Seq<ComparisonV>,
    scores: Seq<Seq<u64>>,
    k: int,
) -> Seq<ItemV> {
    let pairs = voted(ids, votes, votes.len() as int);
    let c = components(ids.len(), pairs, ids.len() as int)[k];
    ranked_subset(ids, c, scores_of(scores, k), c.len() as int)
}

proof fn lemma_group_listed(
    ids: Seq<Seq<char>>,
    comps: Seq<Seq<usize>>,
    scores: Seq<Seq<u64>>,
    k: int,
    n: int,
) -> (j: int)
    requires
        0 <= k < n <= comps.len(),
    ensures
        0 <= j < ranked_groups(ids, comps, scores, n).len(),
        ranked_groups(ids, comps, scores, n)[j] == ranked_subset(
            ids,
            comps[k],
            scores_of(scores, k),
            comps[k].len() as int,
        ),
    decreases n,
{
    let gs = ranked_groups(ids, comps, scores, n - 1);
    let c = comps[n - 1];
    let g = ranked_subset(ids, c, scores_of(scores, n - 1), c.len() as int);
    lemma_group_place(gs, top_score(g), 0);
    let p = group_place(gs, top_score(g), 0);
    if k == n - 1 {
        p
    } else {
        let j = lemma_group_listed(ids, comps, scores, k, n - 1);
        if j < p {
            j
        } else {
            j + 1
        }
    }
}

proof fn lemma_group_stands(gs: Seq<Seq<ItemV>>, j: int, n: int)
    requires
        0 <= j < n <= gs.len(),
    ensures
        stands_at(flattened(gs, n), gs[j], flattened(gs, j).len() as int),
    decreases n,
{
    let p = flattened(gs, j).len() as int;
    if j < n - 1 {
        lemma_group_stands(gs, j, n - 1);
        let a = flattened(gs, n - 1);
        assert((a + gs[n - 1]).subrange(p, p + gs[j].len()) =~= a.subrange(p, p + gs[j].len()));
    } else {
        assert((flattened(gs, j) + gs[j]).subrange(p, p + gs[j].len()) =~= gs[j]);
    }
}

/// A component stands together: its names come one behind the other, in the
/// order of their own scores.
pub proof fn law_components_stand_together(
    ids: Seq<Seq<char>>,
    votes: Seq<ComparisonV>,
    scores: Seq<Seq<u64>>,
    k: int,
)
    requires
        ids.len() != 1,
        0 <= k < components(
            ids.len(),
            voted(ids, votes, votes.len() as int),
            ids.len() as int,
        ).len(),
    ensures
        exists|p: int|
            stands_at(
                ranking_of(ids, votes, scores),
                ranked_component(ids, votes, scores, k),
                p,
            ),
{
    let n = ids.len();
    let pairs = voted(ids, votes, votes.len() as int);
    let comps = components(n, pairs, n as int);
    let gs = ranked_groups(ids, comps, scores, comps.len() as int);
    let j = lemma_group_listed(ids, comps, scores, k, comps.len() as int);
    lemma_group_stands(gs, j, gs.len() as int);
    let p = flattened(gs, j).len() as int;
    let flat = flattened(gs, gs.len() as int);
    let r = ranking_of(ids, votes, scores);
    let g = ranked_component(ids, votes, scores, k);
    assert(r.subrange(p, p + g.len()) =~= flat.subrange(p, p + g.len()));
    assert(stands_at(r, g, p));
}

/// The names that no vote joins to another come last, in the order in which they
/// were given, with the score zero.
pub proof fn law_isolates_come_last(
    ids: Seq<Seq<char>>,
    votes: Seq<ComparisonV>,
    scores: Seq<Seq<u64>>,
)
    requires
        ids.len() != 1,
        ids.len() <= usize::MAX,
    ensures
        ({
            let r = ranking_of(ids, votes, scores);
            let alone = isolates(
                ids.len(),
                voted(ids, votes, votes.len() as int),
                ids.len() as int,
            );
            &&& alone.len() <= r.len()
            &&& r.skip(r.len() - alone.len()) == unscored(ids, alone)
            &&& forall|i: int, j: int|
                0 <= i < j < alone.len() ==> #[trigger] alone[i] < #[trigger] alone[j]
        }),
{
    let r = ranking_of(ids, votes, scores);
    let n = ids.len();
    let pairs = voted(ids, votes, votes.len() as int);
    let alone = isolates(n, pairs, n as int);
    assert(r.skip(r.len() - alone.len()) =~= unscored(ids, alone));
    lemma_isolates_ascend(n, pairs, n as int);
}

proof fn lemma_isolates_ascend(n: nat, pairs: Seq<(usize, usize)>, m: int)
    requires
        0 <= m <= n,
        n <= usize::MAX,
    ensures
        ({
            let alone = isolates(n, pairs, m);
            &&& in_bounds(alone, m)
            &&& forall|i: int, j: int|
                0 <= i < j < alone.len() ==> #[trigger] alone[i] < #[trigger] alone[j]
        }),
    decreases m,
{
    if m > 0 {
        lemma_isolates_ascend(n, pairs, m - 1);
    }
}

/// Components come by their best score, the greatest first.
pub proof fn law_best_component_first(
    ids: Seq<Seq<char>>,
    comps: Seq<Seq<usize>>,
    scores: Seq<Seq<u64>>,
    n: int,
)
    ensures
        ({
            let gs = ranked_groups(ids, comps, scores, n);
            forall|i: int, j: int|
                0 <= i < j < gs.len() ==> float_key(top_score(#[trigger] gs[i])) >= float_key(
                    top_score(#[trigger] gs[j]),
                )
        }),
    decreases n,
{
    if 0 < n && n <= comps.len() {
        law_best_component_first(ids, comps, scores, n - 1);
        let gs = ranked_groups(ids, comps, scores, n - 1);
        let c = comps[n - 1];
        let g = ranked_subset(ids, c, scores_of(scores, n - 1), c.len() as int);
        let p = group_place(gs, top_score(g), 0);
        lemma_group_place(gs, top_score(g), 0);
        let hs = with_group(gs, g);
        assert forall|i: int, j: int| 0 <= i < j < hs.len() implies float_key(
            top_score(#[trigger] hs[i]),
        ) >= float_key(top_score(#[trigger] hs[j])) by {
            if i < p {
                assert(hs[i] == gs[i]);
                if j > p {
                    assert(hs[j] == gs[j - 1]);
                } else if j < p {
                    assert(hs[j] == gs[j]);
                }
            } else {
                assert(hs[j] == gs[j - 1]);
                if i == p {
                    if j - 1 > p {
                        assert(float_key(top_score(gs[p])) >= float_key(top_score(gs[j - 1])));
                    }
                } else {
                    assert(hs[i] == gs[i - 1]);
                }
            }
        }
    }
}

} // verus!
