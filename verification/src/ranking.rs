//! Rankings from pairwise votes. The votes split what is ranked into connected
//! components; items are ordered within their component by scores that come
//! from outside, and components by their best score.

use crate::text::{text_eq, texts};
use crate::value::{float_key, is_nan, rel_of_floats, Rel};
use vstd::prelude::*;

verus! {

/// A vote: a positive score prefers `a_id`.
#[derive(Debug)]
pub struct Comparison {
    pub a_id: String,
    pub b_id: String,
    pub score: i32,
}

/// The model of a vote.
pub struct ComparisonV {
    pub a_id: Seq<char>,
    pub b_id: Seq<char>,
    pub score: i32,
}

impl View for Comparison {
    type V = ComparisonV;

    open spec fn view(&self) -> ComparisonV {
        ComparisonV { a_id: self.a_id@, b_id: self.b_id@, score: self.score }
    }
}

/// The votes of a list.
pub open spec fn votes_v(s: Seq<Comparison>) -> Seq<ComparisonV> {
    s.map_values(|c: Comparison| c@)
}

/// An item with its score, by the bits of the float.
#[derive(Debug)]
pub struct RankedItem {
    pub item: String,
    pub score: u64,
}

/// The model of a ranked item.
pub struct ItemV {
    pub item: Seq<char>,
    pub score: u64,
}

impl View for RankedItem {
    type V = ItemV;

    open spec fn view(&self) -> ItemV {
        ItemV { item: self.item@, score: self.score }
    }
}

/// The items of a list.
pub open spec fn ranked_v(s: Seq<RankedItem>) -> Seq<ItemV> {
    s.map_values(|c: RankedItem| c@)
}

/// The names of ranked items.
pub open spec fn items_of(xs: Seq<ItemV>) -> Seq<Seq<char>> {
    xs.map_values(|x: ItemV| x.item)
}

/// The last place of `id` among the first `n` names.
pub open spec fn last_place(ids: Seq<Seq<char>>, id: Seq<char>, n: int) -> Option<usize>
    decreases n,
{
    if n <= 0 || n > ids.len() {
        None
    } else if ids[n - 1] == id {
        Some((n - 1) as usize)
    } else {
        last_place(ids, id, n - 1)
    }
}

/// The place of `id`.
pub open spec fn place_of(ids: Seq<Seq<char>>, id: Seq<char>) -> Option<usize> {
    last_place(ids, id, ids.len() as int)
}

/// The places that the first `n` votes compare, of those whose two names are
/// both known.
pub open spec fn voted(ids: Seq<Seq<char>>, votes: Seq<ComparisonV>, n: int) -> Seq<(usize, usize)>
    decreases n,
{
    if n <= 0 || n > votes.len() {
        Seq::empty()
    } else {
        match (place_of(ids, votes[n - 1].a_id), place_of(ids, votes[n - 1].b_id)) {
            (Some(i), Some(j)) => voted(ids, votes, n - 1).push((i, j)),
            _ => voted(ids, votes, n - 1),
        }
    }
}

/// The pair joins two of the first `n` places.
pub open spec fn joins(n: nat, p: (usize, usize)) -> bool {
    p.0 < n && p.1 < n && p.0 != p.1
}

/// The labels once the classes of the pair's two places are one: it takes the
/// lesser label.
pub open spec fn relabeled(l: Seq<usize>, p: (usize, usize)) -> Seq<usize> {
    if joins(l.len(), p) {
        let a = l[p.0 as int];
        let b = l[p.1 as int];
        let lo = if a < b { a } else { b };
        let hi = if a < b { b } else { a };
        Seq::new(
            l.len(),
            |x: int|
                if l[x] == hi {
                    lo
                } else {
                    l[x]
                },
        )
    } else {
        l
    }
}

/// The class of each of `n` places once the first `k` pairs are joined, by its
/// least place.
pub open spec fn labels(n: nat, pairs: Seq<(usize, usize)>, k: int) -> Seq<usize>
    decreases k,
{
    if k <= 0 || k > pairs.len() {
        Seq::new(n, |x: int| x as usize)
    } else {
        relabeled(labels(n, pairs, k - 1), pairs[k - 1])
    }
}

/// The class of each place.
pub open spec fn classes(n: nat, pairs: Seq<(usize, usize)>) -> Seq<usize> {
    labels(n, pairs, pairs.len() as int)
}

/// Some pair joins the place `x` to another.
pub open spec fn touched(n: nat, pairs: Seq<(usize, usize)>, x: int) -> bool {
    exists|k: int|
        0 <= k < pairs.len() && joins(n, #[trigger] pairs[k]) && (pairs[k].0 == x || pairs[k].1
            == x)
}

/// The places below `m` of the class `root`, ascending.
pub open spec fn members(l: Seq<usize>, root: usize, m: int) -> Seq<usize>
    decreases m,
{
    if m <= 0 || m > l.len() {
        Seq::empty()
    } else if l[m - 1] == root {
        members(l, root, m - 1).push((m - 1) as usize)
    } else {
        members(l, root, m - 1)
    }
}

/// The components whose least place is below `m`, by that place.
pub open spec fn components(n: nat, pairs: Seq<(usize, usize)>, m: int) -> Seq<Seq<usize>>
    decreases m,
{
    let l = classes(n, pairs);
    if m <= 0 || m > n {
        Seq::empty()
    } else if l[m - 1] == m - 1 && touched(n, pairs, m - 1) {
        components(n, pairs, m - 1).push(members(l, (m - 1) as usize, n as int))
    } else {
        components(n, pairs, m - 1)
    }
}

/// The places below `m` that no pair joins to another, ascending.
pub open spec fn isolates(n: nat, pairs: Seq<(usize, usize)>, m: int) -> Seq<usize>
    decreases m,
{
    if m <= 0 || m > n {
        Seq::empty()
    } else if !touched(n, pairs, m - 1) {
        isolates(n, pairs, m - 1).push((m - 1) as usize)
    } else {
        isolates(n, pairs, m - 1)
    }
}

/// The lists of a list.
pub open spec fn lists_v(s: Seq<Vec<usize>>) -> Seq<Seq<usize>> {
    s.map_values(|v: Vec<usize>| v@)
}

proof fn lemma_labels_len(n: nat, pairs: Seq<(usize, usize)>, k: int)
    ensures
        labels(n, pairs, k).len() == n,
    decreases k,
{
    if 0 < k && k <= pairs.len() {
        lemma_labels_len(n, pairs, k - 1);
    }
}

fn relabel(l: &mut Vec<usize>, p: (usize, usize))
    ensures
        final(l)@ == relabeled(old(l)@, p),
{
    let n: usize = l.len();
    if p.0 >= n || p.1 >= n || p.0 == p.1 {
        return;
    }
    let a: usize = l[p.0];
    let b: usize = l[p.1];
    let lo: usize = if a < b {
        a
    } else {
        b
    };
    let hi: usize = if a < b {
        b
    } else {
        a
    };
    let ghost before = l@;
    let mut x: usize = 0;
    while x < n
        invariant
            x <= n,
            l@.len() == n,
            before.len() == n,
            forall|j: int|
                0 <= j < x ==> #[trigger] l@[j] == (if before[j] == hi {
                    lo
                } else {
                    before[j]
                }),
            forall|j: int| x <= j < n ==> #[trigger] l@[j] == before[j],
        decreases n - x,
    {
        if l[x] == hi {
            l.set(x, lo);
        }
        x = x + 1;
    }
    assert(l@ =~= relabeled(before, p));
}

/// The class of each of `n` places.
pub fn class_labels(n: usize, pairs: &Vec<(usize, usize)>) -> (r: Vec<usize>)
    ensures
        r@ == classes(n as nat, pairs@),
        r@.len() == n,
{
    let mut l: Vec<usize> = Vec::new();
    let mut i: usize = 0;
    while i < n
        invariant
            i <= n,
            l@.len() == i,
            forall|j: int| 0 <= j < i ==> #[trigger] l@[j] == j,
        decreases n - i,
    {
        l.push(i);
        i = i + 1;
    }
    assert(l@ =~= labels(n as nat, pairs@, 0));
    let mut k: usize = 0;
    while k < pairs.len()
        invariant
            k <= pairs@.len(),
            l@ == labels(n as nat, pairs@, k as int),
        decreases pairs@.len() - k,
    {
        relabel(&mut l, pairs[k]);
        k = k + 1;
    }
    proof {
        lemma_labels_len(n as nat, pairs@, pairs@.len() as int);
    }
    l
}

fn is_touched(n: usize, pairs: &Vec<(usize, usize)>, x: usize) -> (r: bool)
    ensures
        r == touched(n as nat, pairs@, x as int),
{
    let mut k: usize = 0;
    while k < pairs.len()
        invariant
            k <= pairs@.len(),
            forall|j: int|
                0 <= j < k ==> !(joins(n as nat, #[trigger] pairs@[j]) && (pairs@[j].0 == x
                    || pairs@[j].1 == x)),
        decreases pairs@.len() - k,
    {
        let p: (usize, usize) = pairs[k];
        if p.0 < n && p.1 < n && p.0 != p.1 && (p.0 == x || p.1 == x) {
            assert(joins(n as nat, pairs@[k as int]));
            return true;
        }
        k = k + 1;
    }
    false
}

/// The places of one class.
pub fn class_members(l: &Vec<usize>, root: usize) -> (r: Vec<usize>)
    ensures
        r@ == members(l@, root, l@.len() as int),
{
    let mut out: Vec<usize> = Vec::new();
    let mut x: usize = 0;
    while x < l.len()
        invariant
            x <= l@.len(),
            out@ == members(l@, root, x as int),
        decreases l@.len() - x,
    {
        if l[x] == root {
            out.push(x);
        }
        x = x + 1;
    }
    out
}

/// The connected components of `n` places under `voted_pairs`, each ascending,
/// by their least places; and apart from them the places that no pair joins to
/// another.
pub fn connected_components_from_voted_pairs(n: usize, voted_pairs: &Vec<(usize, usize)>) -> (r: (
    Vec<Vec<usize>>,
    Vec<usize>,
))
    ensures
        lists_v(r.0@) == components(n as nat, voted_pairs@, n as int),
        r.1@ == isolates(n as nat, voted_pairs@, n as int),
{
    let l: Vec<usize> = class_labels(n, voted_pairs);
    let mut comps: Vec<Vec<usize>> = Vec::new();
    let mut alone: Vec<usize> = Vec::new();
    let mut i: usize = 0;
    assert(lists_v(comps@) =~= Seq::<Seq<usize>>::empty());
    while i < n
        invariant
            i <= n,
            l@ == classes(n as nat, voted_pairs@),
            l@.len() == n,
            lists_v(comps@) == components(n as nat, voted_pairs@, i as int),
            alone@ == isolates(n as nat, voted_pairs@, i as int),
        decreases n - i,
    {
        if !is_touched(n, voted_pairs, i) {
            alone.push(i);
        } else if l[i] == i {
            let c: Vec<usize> = class_members(&l, i);
            let ghost before = comps@;
            comps.push(c);
            assert(lists_v(comps@) =~= lists_v(before).push(c@));
        }
        i = i + 1;
    }
    (comps, alone)
}

/// The place of `id`.
pub fn find_place(ids: &Vec<String>, id: &str) -> (r: Option<usize>)
    ensures
        r == place_of(texts(ids@), id@),
        r matches Some(i) ==> i < ids@.len(),
{
    let mut i: usize = ids.len();
    while i > 0
        invariant
            i <= ids@.len(),
            place_of(texts(ids@), id@) == last_place(texts(ids@), id@, i as int),
        decreases i,
    {
        if text_eq(ids[i - 1].as_str(), id) {
            return Some(i - 1);
        }
        i = i - 1;
    }
    None
}

/// The places that votes compare.
pub fn voted_pairs(ids: &Vec<String>, comparisons: &Vec<Comparison>) -> (r: Vec<(usize, usize)>)
    ensures
        r@ == voted(texts(ids@), votes_v(comparisons@), comparisons@.len() as int),
{
    let mut out: Vec<(usize, usize)> = Vec::new();
    let mut k: usize = 0;
    while k < comparisons.len()
        invariant
            k <= comparisons@.len(),
            out@ == voted(texts(ids@), votes_v(comparisons@), k as int),
        decreases comparisons@.len() - k,
    {
        assert(votes_v(comparisons@)[k as int] == comparisons@[k as int]@);
        match (
            find_place(ids, comparisons[k].a_id.as_str()),
            find_place(ids, comparisons[k].b_id.as_str()),
        ) {
            (Some(i), Some(j)) => out.push((i, j)),
            _ => {},
        }
        k = k + 1;
    }
    out
}

/// The connected components of the names under the votes, and the names that
/// no vote joins to another; both by place.
pub fn connected_components(memory_ids: &Vec<String>, comparisons: &Vec<Comparison>) -> (r: (
    Vec<Vec<usize>>,
    Vec<usize>,
))
    ensures
        ({
            let n = memory_ids@.len();
            let pairs = voted(
                texts(memory_ids@),
                votes_v(comparisons@),
                comparisons@.len() as int,
            );
            lists_v(r.0@) == components(n, pairs, n as int) && r.1@ == isolates(
                n,
                pairs,
                n as int,
            )
        }),
{
    let pairs: Vec<(usize, usize)> = voted_pairs(memory_ids, comparisons);
    connected_components_from_voted_pairs(memory_ids.len(), &pairs)
}

/// Where an item of score `score` belongs from `i` on: behind those that score
/// no less.
pub open spec fn item_place(xs: Seq<ItemV>, score: u64, i: int) -> int
    decreases xs.len() - i,
{
    if i < 0 || i >= xs.len() || float_key(xs[i].score) < float_key(score) {
        i
    } else {
        item_place(xs, score, i + 1)
    }
}

/// The items with one more.
pub open spec fn with_item(xs: Seq<ItemV>, x: ItemV) -> Seq<ItemV> {
    xs.insert(item_place(xs, x.score, 0), x)
}

/// The score of the place `j` of a component; zero where none is given.
pub open spec fn score_at(scores: Seq<u64>, j: int) -> u64 {
    if 0 <= j < scores.len() {
        scores[j]
    } else {
        0
    }
}

/// The first `n` of the names at `idxs` with their scores, best first; of two
/// with one score the one that came first.
pub open spec fn ranked_subset(
    ids: Seq<Seq<char>>,
    idxs: Seq<usize>,
    scores: Seq<u64>,
    n: int,
) -> Seq<ItemV>
    decreases n,
{
    if n <= 0 || n > idxs.len() {
        Seq::empty()
    } else if (idxs[n - 1] as int) < ids.len() {
        with_item(
            ranked_subset(ids, idxs, scores, n - 1),
            ItemV { item: ids[idxs[n - 1] as int], score: score_at(scores, n - 1) },
        )
    } else {
        ranked_subset(ids, idxs, scores, n - 1)
    }
}

/// No score is NaN.
pub open spec fn ordered_scores(scores: Seq<u64>) -> bool {
    forall|i: int| 0 <= i < scores.len() ==> !is_nan(#[trigger] scores[i])
}

fn insert_item(xs: &mut Vec<RankedItem>, x: RankedItem)
    requires
        !is_nan(x.score),
        forall|i: int| 0 <= i < old(xs)@.len() ==> !is_nan((#[trigger] old(xs)@[i]).score),
    ensures
        ranked_v(final(xs)@) == with_item(ranked_v(old(xs)@), x@),
        forall|i: int| 0 <= i < final(xs)@.len() ==> !is_nan((#[trigger] final(xs)@[i]).score),
{
    let ghost before = xs@;
    let mut i: usize = 0;
    while i < xs.len() && rel_of_floats(xs[i].score, x.score) != Rel::Less
        invariant
            xs@ == before,
            !is_nan(x.score),
            forall|j: int| 0 <= j < before.len() ==> !is_nan((#[trigger] before[j]).score),
            i <= xs@.len(),
            item_place(ranked_v(before), x.score, 0) == item_place(
                ranked_v(before),
                x.score,
                i as int,
            ),
        decreases xs@.len() - i,
    {
        assert(ranked_v(before)[i as int].score == before[i as int].score);
        i = i + 1;
    }
    if i < xs.len() {
        assert(ranked_v(before)[i as int].score == before[i as int].score);
    }
    xs.insert(i, x);
    assert(ranked_v(xs@) =~= ranked_v(before).insert(i as int, x@));
    assert forall|j: int| 0 <= j < xs@.len() implies !is_nan((#[trigger] xs@[j]).score) by {
        if j < i {
            assert(xs@[j] == before[j]);
        } else if j > i {
            assert(xs@[j] == before[j - 1]);
        }
    }
}

/// The names at `idxs` with their scores, best first.
pub fn ranked_items_subset(memory_ids: &Vec<String>, idxs: &Vec<usize>, scores: &Vec<u64>) -> (r:
    Vec<RankedItem>)
    requires
        ordered_scores(scores@),
    ensures
        ranked_v(r@) == ranked_subset(texts(memory_ids@), idxs@, scores@, idxs@.len() as int),
        forall|i: int| 0 <= i < r@.len() ==> !is_nan((#[trigger] r@[i]).score),
{
    let mut out: Vec<RankedItem> = Vec::new();
    let mut j: usize = 0;
    assert(ranked_v(out@) =~= Seq::<ItemV>::empty());
    while j < idxs.len()
        invariant
            j <= idxs@.len(),
            ordered_scores(scores@),
            ranked_v(out@) == ranked_subset(texts(memory_ids@), idxs@, scores@, j as int),
            forall|i: int| 0 <= i < out@.len() ==> !is_nan((#[trigger] out@[i]).score),
        decreases idxs@.len() - j,
    {
        let i: usize = idxs[j];
        if i < memory_ids.len() {
            let score: u64 = if j < scores.len() {
                scores[j]
            } else {
                0
            };
            assert(texts(memory_ids@)[i as int] == memory_ids@[i as int]@);
            insert_item(&mut out, RankedItem { item: memory_ids[i].clone(), score });
        }
        j = j + 1;
    }
    out
}

/// The best score of a group.
pub open spec fn top_score(g: Seq<ItemV>) -> u64 {
    if g.len() > 0 {
        g[0].score
    } else {
        0
    }
}

/// Where a group of best score `score` belongs from `i` on.
pub open spec fn group_place(gs: Seq<Seq<ItemV>>, score: u64, i: int) -> int
    decreases gs.len() - i,
{
    if i < 0 || i >= gs.len() || float_key(top_score(gs[i])) < float_key(score) {
        i
    } else {
        group_place(gs, score, i + 1)
    }
}

/// The groups with one more.
pub open spec fn with_group(gs: Seq<Seq<ItemV>>, g: Seq<ItemV>) -> Seq<Seq<ItemV>> {
    gs.insert(group_place(gs, top_score(g), 0), g)
}

/// The scores of component `k`.
pub open spec fn scores_of(scores: Seq<Seq<u64>>, k: int) -> Seq<u64> {
    if 0 <= k < scores.len() {
        scores[k]
    } else {
        Seq::empty()
    }
}

/// The first `n` components ranked, the one with the best score first.
pub open spec fn ranked_groups(
    ids: Seq<Seq<char>>,
    comps: Seq<Seq<usize>>,
    scores: Seq<Seq<u64>>,
    n: int,
) -> Seq<Seq<ItemV>>
    decreases n,
{
    if n <= 0 || n > comps.len() {
        Seq::empty()
    } else {
        with_group(
            ranked_groups(ids, comps, scores, n - 1),
            ranked_subset(
                ids,
                comps[n - 1],
                scores_of(scores, n - 1),
                comps[n - 1].len() as int,
            ),
        )
    }
}

/// The items of the first `n` groups.
pub open spec fn flattened(gs: Seq<Seq<ItemV>>, n: int) -> Seq<ItemV>
    decreases n,
{
    if n <= 0 || n > gs.len() {
        Seq::empty()
    } else {
        flattened(gs, n - 1) + gs[n - 1]
    }
}

/// The names at the first `n` of `alone`, with no score.
pub open spec fn unscored(ids: Seq<Seq<char>>, alone: Seq<usize>) -> Seq<ItemV> {
    Seq::new(
        alone.len(),
        |i: int|
            ItemV {
                item: if (alone[i] as int) < ids.len() {
                    ids[alone[i] as int]
                } else {
                    Seq::empty()
                },
                score: 0,
            },
    )
}

/// The bits of the float one.
pub open spec fn one_bits() -> u64 {
    0x3ff0_0000_0000_0000
}

/// The ranking of the names under the votes: the components by their best
/// score, and behind them the names without votes.
pub open spec fn ranking_of(
    ids: Seq<Seq<char>>,
    votes: Seq<ComparisonV>,
    scores: Seq<Seq<u64>>,
) -> Seq<ItemV> {
    if ids.len() == 1 {
        seq![ItemV { item: ids[0], score: one_bits() }]
    } else {
        let n = ids.len();
        let pairs = voted(ids, votes, votes.len() as int);
        let comps = components(n, pairs, n as int);
        let gs = ranked_groups(ids, comps, scores, comps.len() as int);
        flattened(gs, gs.len() as int) + unscored(ids, isolates(n, pairs, n as int))
    }
}

/// The lists of scores of a list.
pub open spec fn score_lists(s: Seq<Vec<u64>>) -> Seq<Seq<u64>> {
    s.map_values(|v: Vec<u64>| v@)
}

/// The groups of a list.
pub open spec fn groups_v(s: Seq<Vec<RankedItem>>) -> Seq<Seq<ItemV>> {
    s.map_values(|v: Vec<RankedItem>| ranked_v(v@))
}

fn top_of(g: &Vec<RankedItem>) -> (r: u64)
    requires
        forall|i: int| 0 <= i < g@.len() ==> !is_nan((#[trigger] g@[i]).score),
    ensures
        r == top_score(ranked_v(g@)),
        !is_nan(r),
{
    if g.len() > 0 {
        assert(ranked_v(g@)[0].score == g@[0].score);
        g[0].score
    } else {
        0
    }
}

/// No score of the groups is NaN.
spec fn ordered_groups(gs: Seq<Vec<RankedItem>>) -> bool {
    forall|i: int, j: int|
        0 <= i < gs.len() && 0 <= j < gs[i]@.len() ==> !is_nan((#[trigger] gs[i]@[j]).score)
}

fn insert_group(gs: &mut Vec<Vec<RankedItem>>, g: Vec<RankedItem>)
    requires
        ordered_groups(old(gs)@),
        forall|i: int| 0 <= i < g@.len() ==> !is_nan((#[trigger] g@[i]).score),
    ensures
        groups_v(final(gs)@) == with_group(groups_v(old(gs)@), ranked_v(g@)),
        ordered_groups(final(gs)@),
{
    let ghost before = gs@;
    let score: u64 = top_of(&g);
    let mut i: usize = 0;
    while i < gs.len() && rel_of_floats(top_of(&gs[i]), score) != Rel::Less
        invariant
            gs@ == before,
            !is_nan(score),
            ordered_groups(before),
            i <= gs@.len(),
            group_place(groups_v(before), score, 0) == group_place(
                groups_v(before),
                score,
                i as int,
            ),
        decreases gs@.len() - i,
    {
        assert(groups_v(before)[i as int] == ranked_v(before[i as int]@));
        i = i + 1;
    }
    if i < gs.len() {
        assert(groups_v(before)[i as int] == ranked_v(before[i as int]@));
    }
    gs.insert(i, g);
    assert(groups_v(gs@) =~= groups_v(before).insert(i as int, ranked_v(g@)));
    assert forall|a: int, b: int| 0 <= a < gs@.len() && 0 <= b < gs@[a]@.len() implies !is_nan(
        (#[trigger] gs@[a]@[b]).score,
    ) by {
        if a < i {
            assert(gs@[a] == before[a]);
            assert(!is_nan(before[a]@[b].score));
        } else if a > i {
            assert(gs@[a] == before[a - 1]);
            assert(!is_nan(before[a - 1]@[b].score));
        }
    }
}

/// The names ranked, with the scores that `scores` gives for each component in
/// turn.
pub fn ranked_items_from_comparisons(
    memory_ids: &Vec<String>,
    comparisons: &Vec<Comparison>,
    scores: &Vec<Vec<u64>>,
) -> (r: Vec<RankedItem>)
    requires
        forall|k: int| 0 <= k < scores@.len() ==> ordered_scores((#[trigger] scores@[k])@),
    ensures
        ranked_v(r@) == ranking_of(
            texts(memory_ids@),
            votes_v(comparisons@),
            score_lists(scores@),
        ),
{
    let ghost ids = texts(memory_ids@);
    let ghost sv = score_lists(scores@);
    let mut out: Vec<RankedItem> = Vec::new();
    if memory_ids.len() == 1 {
        assert(ids[0] == memory_ids@[0]@);
        out.push(RankedItem { item: memory_ids[0].clone(), score: 0x3ff0_0000_0000_0000 });
        assert(ranked_v(out@) =~= seq![ItemV { item: ids[0], score: one_bits() }]);
        return out;
    }
    let (comps, alone) = connected_components(memory_ids, comparisons);
    let ghost cv = lists_v(comps@);
    let mut groups: Vec<Vec<RankedItem>> = Vec::new();
    let mut k: usize = 0;
    assert(groups_v(groups@) =~= Seq::<Seq<ItemV>>::empty());
    while k < comps.len()
        invariant
            k <= comps@.len(),
            cv == lists_v(comps@),
            ids == texts(memory_ids@),
            sv == score_lists(scores@),
            forall|k: int| 0 <= k < scores@.len() ==> ordered_scores((#[trigger] scores@[k])@),
            ordered_groups(groups@),
            groups_v(groups@) == ranked_groups(ids, cv, sv, k as int),
        decreases comps@.len() - k,
    {
        assert(cv[k as int] == comps@[k as int]@);
        let empty: Vec<u64> = Vec::new();
        let g: Vec<RankedItem> = if k < scores.len() {
            assert(sv[k as int] == scores@[k as int]@);
            ranked_items_subset(memory_ids, &comps[k], &scores[k])
        } else {
            assert(empty@ =~= Seq::<u64>::empty());
            ranked_items_subset(memory_ids, &comps[k], &empty)
        };
        insert_group(&mut groups, g);
        k = k + 1;
    }
    let ghost gv = groups_v(groups@);
    let mut i: usize = 0;
    assert(ranked_v(out@) =~= Seq::<ItemV>::empty());
    while i < groups.len()
        invariant
            i <= groups@.len(),
            gv == groups_v(groups@),
            ranked_v(out@) == flattened(gv, i as int),
        decreases groups@.len() - i,
    {
        assert(gv[i as int] == ranked_v(groups@[i as int]@));
        push_all(&mut out, &groups[i]);
        i = i + 1;
    }
    let ghost flat = ranked_v(out@);
    let mut j: usize = 0;
    assert(ranked_v(out@) =~= flat + unscored(ids, alone@).take(0));
    while j < alone.len()
        invariant
            j <= alone@.len(),
            ids == texts(memory_ids@),
            ranked_v(out@) == flat + unscored(ids, alone@).take(j as int),
        decreases alone@.len() - j,
    {
        let ghost before = out@;
        let item: String = if alone[j] < memory_ids.len() {
            assert(ids[alone@[j as int] as int] == memory_ids@[alone@[j as int] as int]@);
            memory_ids[alone[j]].clone()
        } else {
            String::new()
        };
        let x = RankedItem { item, score: 0 };
        out.push(x);
        proof {
            assert(x@.item =~= unscored(ids, alone@)[j as int].item);
            assert(unscored(ids, alone@).take(j + 1) =~= unscored(ids, alone@).take(j as int).push(
                x@,
            ));
            assert(ranked_v(out@) =~= ranked_v(before).push(x@));
        }
        j = j + 1;
    }
    assert(unscored(ids, alone@).take(j as int) =~= unscored(ids, alone@));
    out
}

fn push_all(out: &mut Vec<RankedItem>, g: &Vec<RankedItem>)
    ensures
        ranked_v(final(out)@) == ranked_v(old(out)@) + ranked_v(g@),
{
    let ghost before = out@;
    let mut i: usize = 0;
    assert(ranked_v(out@) =~= ranked_v(before) + ranked_v(g@).take(0));
    while i < g.len()
        invariant
            i <= g@.len(),
            ranked_v(out@) == ranked_v(before) + ranked_v(g@).take(i as int),
        decreases g@.len() - i,
    {
        let ghost cur = out@;
        let x = RankedItem { item: g[i].item.clone(), score: g[i].score };
        out.push(x);
        proof {
            assert(ranked_v(g@).take(i + 1) =~= ranked_v(g@).take(i as int).push(x@));
            assert(ranked_v(out@) =~= ranked_v(cur).push(x@));
        }
        i = i + 1;
    }
    assert(ranked_v(g@).take(i as int) =~= ranked_v(g@));
}

/// The names ranked, best first.
pub fn rank_from_comparisons(
    memory_ids: &Vec<String>,
    comparisons: &Vec<Comparison>,
    scores: &Vec<Vec<u64>>,
) -> (r: Vec<String>)
    requires
        forall|k: int| 0 <= k < scores@.len() ==> ordered_scores((#[trigger] scores@[k])@),
    ensures
        texts(r@) == items_of(
            ranking_of(texts(memory_ids@), votes_v(comparisons@), score_lists(scores@)),
        ),
{
    let ranked: Vec<RankedItem> = ranked_items_from_comparisons(memory_ids, comparisons, scores);
    let mut out: Vec<String> = Vec::new();
    let mut i: usize = 0;
    while i < ranked.len()
        invariant
            i <= ranked@.len(),
            out@.len() == i,
            forall|j: int| 0 <= j < i ==> (#[trigger] out@[j])@ == ranked@[j].item@,
        decreases ranked@.len() - i,
    {
        out.push(ranked[i].item.clone());
        i = i + 1;
    }
    assert(texts(out@) =~= items_of(ranked_v(ranked@)));
    out
}

/// A label is a place, and no greater than the places it stands for.
pub proof fn lemma_labels_bound(n: nat, pairs: Seq<(usize, usize)>, k: int)
    requires
        n <= usize::MAX,
    ensures
        labels(n, pairs, k).len() == n,
        forall|x: int| 0 <= x < n ==> (#[trigger] labels(n, pairs, k)[x]) <= x,
    decreases k,
{
    if 0 < k && k <= pairs.len() {
        lemma_labels_bound(n, pairs, k - 1);
        let l = labels(n, pairs, k - 1);
        let m = labels(n, pairs, k);
        assert forall|x: int| 0 <= x < n implies (#[trigger] m[x]) <= x by {
            assert(l[x] <= x);
        }
    }
}

/// A label labels itself.
pub proof fn lemma_labels_are_roots(n: nat, pairs: Seq<(usize, usize)>, k: int)
    requires
        n <= usize::MAX,
    ensures
        labels(n, pairs, k).len() == n,
        forall|x: int|
            0 <= x < n ==> labels(n, pairs, k)[(#[trigger] labels(n, pairs, k)[x]) as int]
                == labels(n, pairs, k)[x],
    decreases k,
{
    lemma_labels_bound(n, pairs, k);
    if 0 < k && k <= pairs.len() {
        lemma_labels_are_roots(n, pairs, k - 1);
        lemma_labels_bound(n, pairs, k - 1);
        let l = labels(n, pairs, k - 1);
        let m = labels(n, pairs, k);
        let p = pairs[k - 1];
        if joins(n, p) {
            assert(l[l[p.0 as int] as int] == l[p.0 as int]);
            assert(l[l[p.1 as int] as int] == l[p.1 as int]);
            assert forall|x: int| 0 <= x < n implies m[(#[trigger] m[x]) as int] == m[x] by {
                assert(l[l[x] as int] == l[x]);
                assert(l[x] <= x);
            }
        }
    }
}

/// The two places that a vote compares are in one class.
pub proof fn law_votes_join(n: nat, pairs: Seq<(usize, usize)>, j: int, k: int)
    requires
        0 <= j < k <= pairs.len(),
        joins(n, pairs[j]),
    ensures
        labels(n, pairs, k)[pairs[j].0 as int] == labels(n, pairs, k)[pairs[j].1 as int],
    decreases k,
{
    lemma_labels_len(n, pairs, k - 1);
    if j < k - 1 {
        law_votes_join(n, pairs, j, k - 1);
    }
}

/// The classes are no coarser than the votes make them: whatever has the same
/// value at the two places of each vote has it throughout each class.
pub proof fn law_classes_are_least(
    n: nat,
    pairs: Seq<(usize, usize)>,
    k: int,
    g: spec_fn(int) -> int,
)
    requires
        n <= usize::MAX,
        0 <= k <= pairs.len(),
        forall|j: int|
            0 <= j < k && joins(n, #[trigger] pairs[j]) ==> g(pairs[j].0 as int) == g(
                pairs[j].1 as int,
            ),
    ensures
        forall|x: int| 0 <= x < n ==> g(x) == g((#[trigger] labels(n, pairs, k)[x]) as int),
    decreases k,
{
    lemma_labels_bound(n, pairs, k);
    if k > 0 {
        law_classes_are_least(n, pairs, k - 1, g);
        lemma_labels_bound(n, pairs, k - 1);
        let l = labels(n, pairs, k - 1);
        let m = labels(n, pairs, k);
        let p = pairs[k - 1];
        assert(m == relabeled(l, p));
        if joins(n, p) {
            assert(g(p.0 as int) == g(l[p.0 as int] as int));
            assert(g(p.1 as int) == g(l[p.1 as int] as int));
            assert forall|x: int| 0 <= x < n implies g(x) == g((#[trigger] m[x]) as int) by {
                assert(g(x) == g(l[x] as int));
            }
        }
    }
}

/// The ranked items of a component are in order of score, best first.
pub proof fn law_ranked_in_order(ids: Seq<Seq<char>>, idxs: Seq<usize>, scores: Seq<u64>, n: int)
    ensures
        ({
            let r = ranked_subset(ids, idxs, scores, n);
            forall|i: int, j: int|
                0 <= i < j < r.len() ==> float_key(#[trigger] r[i].score) >= float_key(
                    #[trigger] r[j].score,
                )
        }),
    decreases n,
{
    if 0 < n && n <= idxs.len() {
        law_ranked_in_order(ids, idxs, scores, n - 1);
        if (idxs[n - 1] as int) < ids.len() {
            let xs = ranked_subset(ids, idxs, scores, n - 1);
            let s = score_at(scores, n - 1);
            lemma_item_place(xs, s, 0);
        }
    }
}

pub(crate) proof fn lemma_item_place(xs: Seq<ItemV>, score: u64, i: int)
    requires
        0 <= i <= xs.len(),
    ensures
        i <= item_place(xs, score, i) <= xs.len(),
        forall|j: int|
            i <= j < item_place(xs, score, i) ==> float_key(#[trigger] xs[j].score) >= float_key(
                score,
            ),
        item_place(xs, score, i) < xs.len() ==> float_key(xs[item_place(xs, score, i)].score)
            < float_key(score),
    decreases xs.len() - i,
{
    if i < xs.len() && float_key(xs[i].score) >= float_key(score) {
        lemma_item_place(xs, score, i + 1);
    }
}

} // verus!
