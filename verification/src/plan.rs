//! Which pairs to vote on next, and what a ranking keeps.

use crate::names::{ascending, has_name, in_order, lemma_list_is_ordered, NameSet};
use crate::ranking::{
    class_labels, class_members, classes, items_of, joins, labels, last_place,
    law_classes_are_least, law_votes_join, lemma_labels_are_roots, lemma_labels_bound, lists_v,
    members, ordered_scores, place_of, rank_from_comparisons, ranking_of, score_lists, voted,
    voted_pairs, votes_v, Comparison, ComparisonV,
};
use crate::standing::law_ranking_is_a_permutation;
use crate::text::{lemma_before_irreflexive, text_before, texts};
use vstd::prelude::*;

verus! {

/// The next state of the generator.
pub open spec fn next_state(s: u64) -> u64 {
    ((s as int * 6364136223846793005 + 1) % 0x1_0000_0000_0000_0000) as u64
}

/// What is drawn from a state: its upper half.
pub open spec fn drawn(s: u64) -> int {
    s as int / 0x1_0000_0000
}

/// A linear congruential generator: one seed gives one sequence.
struct Lcg {
    state: u64,
}

impl Lcg {
    fn next_u32(&mut self) -> (r: u32)
        ensures
            final(self).state == next_state(old(self).state),
            r == drawn(final(self).state),
    {
        self.state = self.state.wrapping_mul(6364136223846793005).wrapping_add(1);
        proof {
            let s = old(self).state as int;
            let m = 0x1_0000_0000_0000_0000int;
            vstd::arithmetic::div_mod::lemma_add_mod_noop(s * 6364136223846793005, 1, m);
            assert(1int % m == 1);
        }
        (self.state / 0x1_0000_0000) as u32
    }

    /// An index below `n`.
    fn index(&mut self, n: usize) -> (r: usize)
        requires
            n > 0,
        ensures
            final(self).state == next_state(old(self).state),
            r == drawn(final(self).state) % (n as int),
            r < n,
    {
        let x: u32 = self.next_u32();
        (x as usize) % n
    }
}

/// What a plan is made of: the generator, the pairs known, and the new ones.
pub struct DraftV {
    pub state: u64,
    pub known: Seq<(usize, usize)>,
    pub pairs: Seq<(usize, usize)>,
}

/// The pair with its lesser place first.
pub open spec fn sorted_pair_of(a: usize, b: usize) -> (usize, usize) {
    if a < b {
        (a, b)
    } else {
        (b, a)
    }
}

/// The draft with the pair, unless it is known or of one place.
pub open spec fn with_pair(d: DraftV, a: usize, b: usize) -> DraftV {
    if a == b || d.known.contains(sorted_pair_of(a, b)) {
        d
    } else {
        DraftV {
            known: d.known.push(sorted_pair_of(a, b)),
            pairs: d.pairs.push((a, b)),
            ..d
        }
    }
}

/// All classes whose least place is below `m`.
pub open spec fn all_classes(l: Seq<usize>, m: int) -> Seq<Seq<usize>>
    decreases m,
{
    if m <= 0 || m > l.len() {
        Seq::empty()
    } else if l[m - 1] == m - 1 {
        all_classes(l, m - 1).push(members(l, (m - 1) as usize, l.len() as int))
    } else {
        all_classes(l, m - 1)
    }
}

/// Of the first `k` classes those of `len` places.
pub open spec fn of_len(cs: Seq<Seq<usize>>, len: int, k: int) -> Seq<Seq<usize>>
    decreases k,
{
    if k <= 0 || k > cs.len() {
        Seq::empty()
    } else if cs[k - 1].len() == len {
        of_len(cs, len, k - 1).push(cs[k - 1])
    } else {
        of_len(cs, len, k - 1)
    }
}

/// The classes of up to `len` places, by size and then by least place.
pub open spec fn by_len(cs: Seq<Seq<usize>>, len: int) -> Seq<Seq<usize>>
    decreases len,
{
    if len <= 0 {
        Seq::empty()
    } else {
        by_len(cs, len - 1) + of_len(cs, len, cs.len() as int)
    }
}

/// The draft and the main class once the first `k` classes are bridged to it.
pub open spec fn bridged(d: DraftV, main: Seq<usize>, cs: Seq<Seq<usize>>, k: int) -> (
    DraftV,
    Seq<usize>,
)
    decreases k,
{
    if k <= 0 || k > cs.len() {
        (d, main)
    } else {
        let (e, m) = bridged(d, main, cs, k - 1);
        let c = cs[k - 1];
        if m.len() == 0 || c.len() == 0 {
            (e, m)
        } else {
            let s1 = next_state(e.state);
            let s2 = next_state(s1);
            let a = m[drawn(s1) % (m.len() as int)];
            let b = c[drawn(s2) % (c.len() as int)];
            (with_pair(DraftV { state: s2, ..e }, a, b), m + c)
        }
    }
}

/// The second of two different indices.
pub open spec fn other_index(i: int, j: int) -> int {
    if j >= i {
        j + 1
    } else {
        j
    }
}

/// The draft with `k` random pairs of `n` places more.
pub open spec fn sampled(d: DraftV, n: int, k: int) -> DraftV
    decreases k,
{
    if k <= 0 || n < 2 {
        d
    } else {
        let e = sampled(d, n, k - 1);
        let s1 = next_state(e.state);
        let s2 = next_state(s1);
        let i = drawn(s1) % n;
        let j = other_index(i, drawn(s2) % (n - 1));
        with_pair(DraftV { state: s2, ..e }, i as usize, j as usize)
    }
}

/// The pairs with their lesser place first.
pub open spec fn known_of(pairs: Seq<(usize, usize)>) -> Seq<(usize, usize)> {
    pairs.map_values(|p: (usize, usize)| sorted_pair_of(p.0, p.1))
}

/// The draft before anything is planned.
pub open spec fn fresh(pairs: Seq<(usize, usize)>, seed: u64) -> DraftV {
    DraftV { state: seed | 1, known: known_of(pairs), pairs: Seq::empty() }
}

/// The draft once the classes are bridged, least first, to the last.
pub open spec fn bridges(n: nat, pairs: Seq<(usize, usize)>, seed: u64) -> DraftV {
    let d = fresh(pairs, seed);
    let l = classes(n, pairs);
    let cs = all_classes(l, n as int);
    if cs.len() > 1 {
        let ordered = by_len(cs, n as int);
        if ordered.len() == 0 {
            d
        } else {
            bridged(d, ordered.last(), ordered, ordered.len() - 1).0
        }
    } else {
        d
    }
}

/// How many random pairs are drawn for `n` places.
pub open spec fn sample_size(n: int) -> int {
    if n / 5 > 20 {
        n / 5
    } else {
        20
    }
}

/// The pairs of places to vote on.
pub open spec fn planned_pairs(n: nat, pairs: Seq<(usize, usize)>, seed: u64) -> Seq<
    (usize, usize),
> {
    sampled(bridges(n, pairs, seed), n as int, sample_size(n as int)).pairs
}

/// The pairs to vote on for `ids` under `votes`, by name.
pub open spec fn plan_of(ids: Seq<Seq<char>>, votes: Seq<ComparisonV>, seed: u64) -> Seq<
    (Seq<char>, Seq<char>),
> {
    let names = in_order(ids.to_set());
    let pairs = voted(names, votes, votes.len() as int);
    planned_pairs(names.len(), pairs, seed).map_values(
        |p: (usize, usize)| (names[p.0 as int], names[p.1 as int]),
    )
}

/// New pairs to vote on.
#[derive(Debug)]
pub struct CompactionPlan {
    pub pairs: Vec<(String, String)>,
}

/// The pairs of a list, by name.
pub open spec fn named_pairs(s: Seq<(String, String)>) -> Seq<(Seq<char>, Seq<char>)> {
    s.map_values(|p: (String, String)| (p.0@, p.1@))
}

struct Draft {
    rng: Lcg,
    known: Vec<(usize, usize)>,
    pairs: Vec<(usize, usize)>,
}

impl View for Draft {
    type V = DraftV;

    closed spec fn view(&self) -> DraftV {
        DraftV { state: self.rng.state, known: self.known@, pairs: self.pairs@ }
    }
}

fn has_pair(v: &Vec<(usize, usize)>, p: (usize, usize)) -> (r: bool)
    ensures
        r == v@.contains(p),
{
    let mut i: usize = 0;
    while i < v.len()
        invariant
            i <= v@.len(),
            forall|j: int| 0 <= j < i ==> #[trigger] v@[j] != p,
        decreases v@.len() - i,
    {
        if v[i].0 == p.0 && v[i].1 == p.1 {
            assert(v@[i as int] == p);
            return true;
        }
        i = i + 1;
    }
    false
}

fn sorted_pair(a: usize, b: usize) -> (r: (usize, usize))
    ensures
        r == sorted_pair_of(a, b),
{
    if a < b {
        (a, b)
    } else {
        (b, a)
    }
}

impl Draft {
    fn add_pair(&mut self, a: usize, b: usize)
        ensures
            final(self)@ == with_pair(old(self)@, a, b),
    {
        if a == b {
            return;
        }
        let key: (usize, usize) = sorted_pair(a, b);
        if !has_pair(&self.known, key) {
            self.known.push(key);
            self.pairs.push((a, b));
        }
    }

    fn bridge(&mut self, main: &mut Vec<usize>, cs: &Vec<Vec<usize>>, k: usize)
        requires
            k <= cs@.len(),
        ensures
            (final(self)@, final(main)@) == bridged(
                old(self)@,
                old(main)@,
                lists_v(cs@),
                k as int,
            ),
    {
        let ghost d0 = self@;
        let ghost m0 = main@;
        let ghost cv = lists_v(cs@);
        let mut i: usize = 0;
        while i < k
            invariant
                i <= k <= cs@.len(),
                cv == lists_v(cs@),
                (self@, main@) == bridged(d0, m0, cv, i as int),
            decreases k - i,
        {
            assert(cv[i as int] == cs@[i as int]@);
            if main.len() > 0 && cs[i].len() > 0 {
                let x: usize = self.rng.index(main.len());
                let a: usize = main[x];
                let y: usize = self.rng.index(cs[i].len());
                let b: usize = cs[i][y];
                self.add_pair(a, b);
                extend_with(main, &cs[i]);
            }
            i = i + 1;
        }
    }

    fn sample(&mut self, n: usize, k: usize)
        ensures
            final(self)@ == sampled(old(self)@, n as int, k as int),
    {
        let ghost d0 = self@;
        if n < 2 {
            return;
        }
        let mut t: usize = 0;
        while t < k
            invariant
                t <= k,
                n >= 2,
                self@ == sampled(d0, n as int, t as int),
            decreases k - t,
        {
            let i: usize = self.rng.index(n);
            let j: usize = self.rng.index(n - 1);
            let other: usize = if j >= i {
                j + 1
            } else {
                j
            };
            self.add_pair(i, other);
            t = t + 1;
        }
    }
}

fn extend_with(v: &mut Vec<usize>, w: &Vec<usize>)
    ensures
        final(v)@ == old(v)@ + w@,
{
    let ghost before = v@;
    let mut i: usize = 0;
    assert(v@ =~= before + w@.take(0));
    while i < w.len()
        invariant
            i <= w@.len(),
            v@ == before + w@.take(i as int),
        decreases w@.len() - i,
    {
        v.push(w[i]);
        assert(w@.take(i + 1) =~= w@.take(i as int).push(w@[i as int]));
        assert(v@ =~= before + w@.take(i + 1));
        i = i + 1;
    }
    assert(w@.take(i as int) =~= w@);
}

fn copy_places(v: &Vec<usize>) -> (r: Vec<usize>)
    ensures
        r@ == v@,
{
    let mut r: Vec<usize> = Vec::new();
    extend_with(&mut r, v);
    assert(r@ =~= v@);
    r
}

/// The classes of the places.
fn find_components(l: &Vec<usize>) -> (r: Vec<Vec<usize>>)
    ensures
        lists_v(r@) == all_classes(l@, l@.len() as int),
{
    let mut out: Vec<Vec<usize>> = Vec::new();
    let mut i: usize = 0;
    assert(lists_v(out@) =~= Seq::<Seq<usize>>::empty());
    while i < l.len()
        invariant
            i <= l@.len(),
            lists_v(out@) == all_classes(l@, i as int),
        decreases l@.len() - i,
    {
        if l[i] == i {
            let c: Vec<usize> = class_members(l, i);
            let ghost before = out@;
            out.push(c);
            assert(lists_v(out@) =~= lists_v(before).push(c@));
        }
        i = i + 1;
    }
    out
}

fn push_of_len(out: &mut Vec<Vec<usize>>, cs: &Vec<Vec<usize>>, len: usize)
    ensures
        lists_v(final(out)@) == lists_v(old(out)@) + of_len(
            lists_v(cs@),
            len as int,
            cs@.len() as int,
        ),
{
    let ghost cv = lists_v(cs@);
    let ghost start = lists_v(out@);
    let mut i: usize = 0;
    assert(lists_v(out@) =~= start + of_len(cv, len as int, 0));
    while i < cs.len()
        invariant
            i <= cs@.len(),
            cv == lists_v(cs@),
            lists_v(out@) == start + of_len(cv, len as int, i as int),
        decreases cs@.len() - i,
    {
        assert(cv[i as int] == cs@[i as int]@);
        if cs[i].len() == len {
            let c: Vec<usize> = copy_places(&cs[i]);
            let ghost before = out@;
            out.push(c);
            assert(lists_v(out@) =~= lists_v(before).push(c@));
            assert(lists_v(out@) =~= start + of_len(cv, len as int, i + 1));
        }
        i = i + 1;
    }
}

fn sort_by_len(cs: &Vec<Vec<usize>>, n: usize) -> (r: Vec<Vec<usize>>)
    ensures
        lists_v(r@) == by_len(lists_v(cs@), n as int),
{
    let ghost cv = lists_v(cs@);
    let mut out: Vec<Vec<usize>> = Vec::new();
    let mut len: usize = 0;
    assert(lists_v(out@) =~= by_len(cv, 0));
    while len < n
        invariant
            len <= n,
            cv == lists_v(cs@),
            lists_v(out@) == by_len(cv, len as int),
        decreases n - len,
    {
        len = len + 1;
        push_of_len(&mut out, cs, len);
    }
    out
}

fn normalized(pairs: &Vec<(usize, usize)>) -> (r: Vec<(usize, usize)>)
    ensures
        r@ == known_of(pairs@),
{
    let mut out: Vec<(usize, usize)> = Vec::new();
    let mut i: usize = 0;
    while i < pairs.len()
        invariant
            i <= pairs@.len(),
            out@.len() == i,
            forall|j: int|
                0 <= j < i ==> #[trigger] out@[j] == sorted_pair_of(pairs@[j].0, pairs@[j].1),
        decreases pairs@.len() - i,
    {
        out.push(sorted_pair(pairs[i].0, pairs[i].1));
        i = i + 1;
    }
    assert(out@ =~= known_of(pairs@));
    out
}

/// The pairs of places to vote on.
pub fn plan_places(n: usize, pairs: &Vec<(usize, usize)>, seed: u64) -> (r: Vec<(usize, usize)>)
    ensures
        r@ == planned_pairs(n as nat, pairs@, seed),
{
    let l: Vec<usize> = class_labels(n, pairs);
    let cs: Vec<Vec<usize>> = find_components(&l);
    let mut d = Draft {
        rng: Lcg { state: seed | 1 },
        known: normalized(pairs),
        pairs: Vec::new(),
    };
    assert(d@ == fresh(pairs@, seed));
    if cs.len() > 1 {
        let ordered: Vec<Vec<usize>> = sort_by_len(&cs, n);
        if ordered.len() > 0 {
            let last: usize = ordered.len() - 1;
            let mut main: Vec<usize> = copy_places(&ordered[last]);
            assert(lists_v(ordered@).last() == ordered@[last as int]@);
            d.bridge(&mut main, &ordered, last);
        }
    }
    assert(d@ == bridges(n as nat, pairs@, seed));
    let k: usize = if n / 5 > 20 {
        n / 5
    } else {
        20
    };
    d.sample(n, k);
    d.pairs
}

/// The names of `ids`, ascending and each once.
fn sorted_names(ids: &Vec<String>) -> (r: NameSet)
    ensures
        texts(r.names@) == in_order(texts(ids@).to_set()),
{
    let mut names: NameSet = NameSet::new();
    let mut i: usize = 0;
    assert(texts(ids@).take(0).to_set() =~= Set::<Seq<char>>::empty());
    while i < ids.len()
        invariant
            i <= ids@.len(),
            names.wf(),
            names@ == texts(ids@).take(i as int).to_set(),
        decreases ids@.len() - i,
    {
        names.insert(ids[i].as_str());
        proof {
            lemma_take_set(texts(ids@), i as int);
        }
        i = i + 1;
    }
    proof {
        assert(texts(ids@).take(i as int) =~= texts(ids@));
        names.lemma_ordered();
    }
    names
}

/// All places of the draft's pairs are below `n`.
spec fn draft_bound(d: DraftV, n: int) -> bool {
    forall|j: int| 0 <= j < d.pairs.len() ==> (#[trigger] d.pairs[j]).0 < n && d.pairs[j].1 < n
}

spec fn places_bound(s: Seq<usize>, n: int) -> bool {
    forall|j: int| 0 <= j < s.len() ==> (#[trigger] s[j]) < n
}

proof fn lemma_members_bound(l: Seq<usize>, root: usize, m: int)
    requires
        l.len() <= usize::MAX,
    ensures
        places_bound(members(l, root, m), l.len() as int),
    decreases m,
{
    if 0 < m && m <= l.len() {
        lemma_members_bound(l, root, m - 1);
    }
}

/// All places of the lists are below `n`.
spec fn lists_bound(cs: Seq<Seq<usize>>, n: int) -> bool {
    forall|k: int| 0 <= k < cs.len() ==> places_bound(#[trigger] cs[k], n)
}

proof fn lemma_all_classes_bound(l: Seq<usize>, m: int)
    requires
        l.len() <= usize::MAX,
    ensures
        lists_bound(all_classes(l, m), l.len() as int),
    decreases m,
{
    if 0 < m && m <= l.len() {
        lemma_all_classes_bound(l, m - 1);
        let cs = all_classes(l, m - 1);
        if l[m - 1] == m - 1 {
            lemma_members_bound(l, (m - 1) as usize, l.len() as int);
        }
        assert forall|k: int| 0 <= k < all_classes(l, m).len() implies places_bound(
            #[trigger] all_classes(l, m)[k],
            l.len() as int,
        ) by {
            if k < cs.len() {
                assert(all_classes(l, m)[k] == cs[k]);
            }
        }
    }
}

proof fn lemma_of_len_bound(cs: Seq<Seq<usize>>, len: int, k: int, n: int)
    requires
        lists_bound(cs, n),
    ensures
        lists_bound(of_len(cs, len, k), n),
    decreases k,
{
    if 0 < k && k <= cs.len() {
        lemma_of_len_bound(cs, len, k - 1, n);
        let a = of_len(cs, len, k - 1);
        assert forall|i: int| 0 <= i < of_len(cs, len, k).len() implies places_bound(
            #[trigger] of_len(cs, len, k)[i],
            n,
        ) by {
            if i < a.len() {
                assert(of_len(cs, len, k)[i] == a[i]);
            } else {
                assert(of_len(cs, len, k)[i] == cs[k - 1]);
            }
        }
    }
}

proof fn lemma_by_len_bound(cs: Seq<Seq<usize>>, len: int, n: int)
    requires
        lists_bound(cs, n),
    ensures
        lists_bound(by_len(cs, len), n),
    decreases len,
{
    if len > 0 {
        lemma_by_len_bound(cs, len - 1, n);
        lemma_of_len_bound(cs, len, cs.len() as int, n);
        let a = by_len(cs, len - 1);
        let b = of_len(cs, len, cs.len() as int);
        assert forall|i: int| 0 <= i < by_len(cs, len).len() implies places_bound(
            #[trigger] by_len(cs, len)[i],
            n,
        ) by {
            if i < a.len() {
                assert(by_len(cs, len)[i] == a[i]);
            } else {
                assert(by_len(cs, len)[i] == b[i - a.len()]);
            }
        }
    }
}

proof fn lemma_bridged_bound(d: DraftV, main: Seq<usize>, cs: Seq<Seq<usize>>, k: int, n: int)
    requires
        draft_bound(d, n),
        places_bound(main, n),
        lists_bound(cs, n),
    ensures
        draft_bound(bridged(d, main, cs, k).0, n),
        places_bound(bridged(d, main, cs, k).1, n),
    decreases k,
{
    if 0 < k && k <= cs.len() {
        lemma_bridged_bound(d, main, cs, k - 1, n);
        let (e, m) = bridged(d, main, cs, k - 1);
        let c = cs[k - 1];
        assert(places_bound(c, n));
        if m.len() > 0 && c.len() > 0 {
            let s1 = next_state(e.state);
            let s2 = next_state(s1);
            assert(m[drawn(s1) % (m.len() as int)] < n);
            assert(c[drawn(s2) % (c.len() as int)] < n);
        }
    }
}

proof fn lemma_sampled_bound(d: DraftV, n: int, k: int)
    requires
        draft_bound(d, n),
        n <= usize::MAX,
    ensures
        draft_bound(sampled(d, n, k), n),
    decreases k,
{
    if k > 0 && n >= 2 {
        lemma_sampled_bound(d, n, k - 1);
        let e = sampled(d, n, k - 1);
        let s1 = next_state(e.state);
        let s2 = next_state(s1);
        let i = drawn(s1) % n;
        let j = other_index(i, drawn(s2) % (n - 1));
        assert(0 <= i < n && 0 <= j < n);
    }
}

/// The planned pairs are pairs of the places.
proof fn lemma_planned_bound(n: nat, pairs: Seq<(usize, usize)>, seed: u64)
    requires
        n <= usize::MAX,
    ensures
        forall|j: int|
            0 <= j < planned_pairs(n, pairs, seed).len() ==> (#[trigger] planned_pairs(
                n,
                pairs,
                seed,
            )[j]).0 < n && planned_pairs(n, pairs, seed)[j].1 < n,
{
    let l = classes(n, pairs);
    lemma_labels_bound(n, pairs, pairs.len() as int);
    let cs = all_classes(l, n as int);
    lemma_all_classes_bound(l, n as int);
    lemma_by_len_bound(cs, n as int, n as int);
    let ordered = by_len(cs, n as int);
    let d = fresh(pairs, seed);
    if cs.len() > 1 && ordered.len() > 0 {
        assert(places_bound(ordered[ordered.len() - 1], n as int));
        lemma_bridged_bound(d, ordered.last(), ordered, ordered.len() - 1, n as int);
    }
    lemma_sampled_bound(bridges(n, pairs, seed), n as int, sample_size(n as int));
}

/// New pairs to vote on: first some that bridge the components that the votes
/// leave apart, then random ones. The same seed gives the same pairs.
pub fn plan_pairs(ids: &Vec<String>, comparisons: &Vec<Comparison>, seed: u64) -> (r:
    CompactionPlan)
    ensures
        named_pairs(r.pairs@) == plan_of(texts(ids@), votes_v(comparisons@), seed),
{
    let names: NameSet = sorted_names(ids);
    let ghost nv = texts(names.names@);
    let pairs: Vec<(usize, usize)> = voted_pairs(&names.names, comparisons);
    let n: usize = names.names.len();
    let chosen: Vec<(usize, usize)> = plan_places(n, &pairs, seed);
    proof {
        lemma_planned_bound(n as nat, pairs@, seed);
    }
    let mut out: Vec<(String, String)> = Vec::new();
    let mut i: usize = 0;
    while i < chosen.len()
        invariant
            i <= chosen@.len(),
            n == names.names@.len(),
            nv == texts(names.names@),
            forall|j: int|
                0 <= j < chosen@.len() ==> (#[trigger] chosen@[j]).0 < n && chosen@[j].1 < n,
            out@.len() == i,
            forall|j: int|
                0 <= j < i ==> (#[trigger] out@[j]).0@ == nv[chosen@[j].0 as int] && out@[j].1@
                    == nv[chosen@[j].1 as int],
        decreases chosen@.len() - i,
    {
        assert(chosen@[i as int].0 < n && chosen@[i as int].1 < n);
        let a: String = names.names[chosen[i].0].clone();
        let b: String = names.names[chosen[i].1].clone();
        out.push((a, b));
        i = i + 1;
    }
    assert(named_pairs(out@) =~= plan_of(texts(ids@), votes_v(comparisons@), seed));
    CompactionPlan { pairs: out }
}

/// What a ranking keeps and what it lets go.
#[derive(Debug)]
pub struct CompactionResult {
    pub kept: Vec<String>,
    pub released: Vec<String>,
}

/// How many of `n` names a budget keeps.
pub open spec fn kept_count(n: nat, budget: usize) -> int {
    if budget < n {
        budget as int
    } else {
        n as int
    }
}

/// The front of a list is part of it.
proof fn lemma_take_within(s: Seq<Seq<char>>, n: int)
    requires
        0 <= n <= s.len(),
    ensures
        s.take(n).to_multiset().subset_of(s.to_multiset()),
{
    broadcast use vstd::multiset::group_multiset_axioms;

    assert(s =~= s.take(n) + s.skip(n));
    vstd::seq_lib::lemma_multiset_commutative(s.take(n), s.skip(n));
}

/// Keep the first `budget` names of the ranking under the votes, and release the
/// current ones that are not kept. A name released before can come back where
/// the budget grows. `scores` gives the scores of each component in turn.
pub fn finalize(
    all_ids: &Vec<String>,
    current_ids: &Vec<String>,
    comparisons: &Vec<Comparison>,
    scores: &Vec<Vec<u64>>,
    budget: usize,
) -> (r: CompactionResult)
    requires
        forall|k: int| 0 <= k < scores@.len() ==> ordered_scores((#[trigger] scores@[k])@),
    ensures
        texts(r.kept@) == items_of(
            ranking_of(texts(all_ids@), votes_v(comparisons@), score_lists(scores@)),
        ).take(kept_count(all_ids@.len(), budget)),
        r.kept@.len() == kept_count(all_ids@.len(), budget),
        texts(r.kept@).to_multiset().subset_of(texts(all_ids@).to_multiset()),
        ascending(texts(r.released@)),
        texts(r.released@).to_set() == texts(current_ids@).to_set().difference(
            texts(r.kept@).to_set(),
        ),
{
    let ranked: Vec<String> = rank_from_comparisons(all_ids, comparisons, scores);
    let ghost names = texts(ranked@);
    let b: usize = if budget < all_ids.len() {
        budget
    } else {
        all_ids.len()
    };
    proof {
        law_ranking_is_a_permutation(
            texts(all_ids@),
            votes_v(comparisons@),
            score_lists(scores@),
        );
        assert(names.len() == ranked@.len());
    }
    let mut kept: Vec<String> = Vec::new();
    let mut i: usize = 0;
    while i < b
        invariant
            b <= ranked@.len(),
            i <= b,
            kept@.len() == i,
            forall|j: int| 0 <= j < i ==> (#[trigger] kept@[j])@ == ranked@[j]@,
        decreases b - i,
    {
        kept.push(ranked[i].clone());
        i = i + 1;
    }
    assert(texts(kept@) =~= names.take(b as int));
    proof {
        lemma_take_within(names, b as int);
    }
    let ghost kv = texts(kept@).to_set();
    let ghost cv = texts(current_ids@);
    let mut released: NameSet = NameSet::new();
    let mut k: usize = 0;
    assert(cv.take(0).to_set().difference(kv) =~= Set::<Seq<char>>::empty());
    while k < current_ids.len()
        invariant
            k <= current_ids@.len(),
            kv == texts(kept@).to_set(),
            cv == texts(current_ids@),
            released.wf(),
            released@ == cv.take(k as int).to_set().difference(kv),
        decreases current_ids@.len() - k,
    {
        let ghost x = cv[k as int];
        let held: bool = has_name(&kept, current_ids[k].as_str());
        if !held {
            released.insert(current_ids[k].as_str());
        }
        proof {
            assert(held == kv.contains(x));
            lemma_take_set(cv, k as int);
            assert(cv.take(k + 1).to_set().difference(kv) =~= if held {
                cv.take(k as int).to_set().difference(kv)
            } else {
                cv.take(k as int).to_set().difference(kv).insert(x)
            });
        }
        k = k + 1;
    }
    proof {
        assert(cv.take(k as int) =~= cv);
    }
    CompactionResult { kept, released: released.names }
}

proof fn lemma_take_set(t: Seq<Seq<char>>, i: int)
    requires
        0 <= i < t.len(),
    ensures
        t.take(i + 1).to_set() == t.take(i).to_set().insert(t[i]),
{
    let a = t.take(i);
    let b = t.take(i + 1);
    assert(b =~= a.push(t[i]));
    assert forall|x: Seq<char>| b.to_set().contains(x) <==> a.to_set().insert(t[i]).contains(x) by {
        if a.contains(x) {
            let k = choose|k: int| 0 <= k < a.len() && a[k] == x;
            assert(b[k] == x);
        }
        if x == t[i] {
            assert(b[i] == x);
        }
        if b.contains(x) {
            let k = choose|k: int| 0 <= k < b.len() && b[k] == x;
            if k < i {
                assert(a[k] == x);
            }
        }
    }
    assert(b.to_set() =~= a.to_set().insert(t[i]));
}

/// There is nothing to do without memories, or where all are current and the
/// budget holds them all.
pub fn nothing_to_compact(all_len: usize, current_len: usize, budget: usize) -> (r: bool)
    ensures
        r == (all_len == 0 || (current_len == all_len && budget >= all_len)),
{
    all_len == 0 || (current_len == all_len && budget >= all_len)
}

/// The pairs of the draft are new: none is known from the votes, none is of one
/// place, and none comes twice.
spec fn all_new(d: DraftV, base: Seq<(usize, usize)>) -> bool {
    &&& d.known == known_of(base) + known_of(d.pairs)
    &&& forall|i: int|
        0 <= i < d.pairs.len() ==> (#[trigger] d.pairs[i]).0 != d.pairs[i].1
            && !known_of(base).contains(known_of(d.pairs)[i])
    &&& forall|i: int, j: int|
        0 <= i < j < d.pairs.len() ==> #[trigger] known_of(d.pairs)[i] != #[trigger] known_of(
            d.pairs,
        )[j]
}

proof fn lemma_with_pair_new(d: DraftV, base: Seq<(usize, usize)>, a: usize, b: usize)
    requires
        all_new(d, base),
    ensures
        all_new(with_pair(d, a, b), base),
{
    let key = sorted_pair_of(a, b);
    if a != b && !d.known.contains(key) {
        let e = with_pair(d, a, b);
        let kb = known_of(base);
        let kd = known_of(d.pairs);
        assert(known_of(e.pairs) =~= kd.push(key));
        assert(e.known =~= kb + known_of(e.pairs));
        assert forall|i: int| 0 <= i < kb.len() implies #[trigger] kb[i] != key by {
            assert(d.known[i] == kb[i]);
        }
        assert forall|i: int| 0 <= i < kd.len() implies #[trigger] kd[i] != key by {
            assert(d.known[kb.len() + i] == kd[i]);
        }
        assert forall|i: int| 0 <= i < e.pairs.len() implies (#[trigger] e.pairs[i]).0
            != e.pairs[i].1 && !kb.contains(known_of(e.pairs)[i]) by {
            if i < d.pairs.len() {
                assert(e.pairs[i] == d.pairs[i]);
                assert(known_of(e.pairs)[i] == kd[i]);
            }
        }
        assert forall|i: int, j: int| 0 <= i < j < e.pairs.len() implies #[trigger] known_of(
            e.pairs,
        )[i] != #[trigger] known_of(e.pairs)[j] by {
            assert(known_of(e.pairs)[i] == kd[i]);
            if j < d.pairs.len() {
                assert(known_of(e.pairs)[j] == kd[j]);
            }
        }
    }
}

proof fn lemma_bridged_new(
    d: DraftV,
    base: Seq<(usize, usize)>,
    main: Seq<usize>,
    cs: Seq<Seq<usize>>,
    k: int,
)
    requires
        all_new(d, base),
    ensures
        all_new(bridged(d, main, cs, k).0, base),
    decreases k,
{
    if 0 < k && k <= cs.len() {
        lemma_bridged_new(d, base, main, cs, k - 1);
        let (e, m) = bridged(d, main, cs, k - 1);
        let c = cs[k - 1];
        if m.len() > 0 && c.len() > 0 {
            let s1 = next_state(e.state);
            let s2 = next_state(s1);
            lemma_with_pair_new(
                DraftV { state: s2, ..e },
                base,
                m[drawn(s1) % (m.len() as int)],
                c[drawn(s2) % (c.len() as int)],
            );
        }
    }
}

proof fn lemma_sampled_new(d: DraftV, base: Seq<(usize, usize)>, n: int, k: int)
    requires
        all_new(d, base),
    ensures
        all_new(sampled(d, n, k), base),
    decreases k,
{
    if k > 0 && n >= 2 {
        lemma_sampled_new(d, base, n, k - 1);
        let e = sampled(d, n, k - 1);
        let s1 = next_state(e.state);
        let s2 = next_state(s1);
        let i = drawn(s1) % n;
        let j = other_index(i, drawn(s2) % (n - 1));
        lemma_with_pair_new(DraftV { state: s2, ..e }, base, i as usize, j as usize);
    }
}

proof fn lemma_bridges_new(n: nat, pairs: Seq<(usize, usize)>, seed: u64)
    ensures
        all_new(bridges(n, pairs, seed), pairs),
{
    let d = fresh(pairs, seed);
    assert(known_of(d.pairs) =~= Seq::<(usize, usize)>::empty());
    assert(d.known =~= known_of(pairs) + known_of(d.pairs));
    let cs = all_classes(classes(n, pairs), n as int);
    let ordered = by_len(cs, n as int);
    if cs.len() > 1 && ordered.len() > 0 {
        lemma_bridged_new(d, pairs, ordered.last(), ordered, ordered.len() - 1);
    }
}

/// No planned pair is of one place, none has a vote, and none is planned twice,
/// in either order.
proof fn lemma_places_are_new(n: nat, pairs: Seq<(usize, usize)>, seed: u64)
    ensures
        ({
            let p = planned_pairs(n, pairs, seed);
            &&& forall|i: int|
                0 <= i < p.len() ==> (#[trigger] p[i]).0 != p[i].1 && !known_of(pairs).contains(
                    known_of(p)[i],
                )
            &&& forall|i: int, j: int|
                0 <= i < j < p.len() ==> #[trigger] known_of(p)[i] != #[trigger] known_of(p)[j]
        }),
{
    lemma_bridges_new(n, pairs, seed);
    lemma_sampled_new(bridges(n, pairs, seed), pairs, n as int, sample_size(n as int));
}

/// `g` has the same value at both places of each pair.
pub open spec fn respects(g: spec_fn(int) -> int, s: Seq<(usize, usize)>) -> bool {
    forall|j: int| 0 <= j < s.len() ==> g((#[trigger] s[j]).0 as int) == g(s[j].1 as int)
}

/// `g` has one value on the places of the list.
spec fn constant_on(g: spec_fn(int) -> int, s: Seq<usize>) -> bool {
    forall|i: int, j: int|
        0 <= i < s.len() && 0 <= j < s.len() ==> g(#[trigger] s[i] as int) == g(
            #[trigger] s[j] as int,
        )
}

proof fn lemma_with_pair_grows(d: DraftV, a: usize, b: usize, g: spec_fn(int) -> int)
    requires
        respects(g, with_pair(d, a, b).known),
    ensures
        respects(g, d.known),
        g(a as int) == g(b as int),
{
    let e = with_pair(d, a, b);
    let key = sorted_pair_of(a, b);
    assert forall|j: int| 0 <= j < d.known.len() implies g((#[trigger] d.known[j]).0 as int) == g(
        d.known[j].1 as int,
    ) by {
        assert(e.known[j] == d.known[j]);
    }
    if a != b {
        if d.known.contains(key) {
            let j = choose|j: int| 0 <= j < d.known.len() && d.known[j] == key;
            assert(g(d.known[j].0 as int) == g(d.known[j].1 as int));
        } else {
            let j = d.known.len() as int;
            assert(e.known[j] == key);
        }
    }
}

proof fn lemma_bridged_constant(
    d: DraftV,
    main: Seq<usize>,
    cs: Seq<Seq<usize>>,
    k: int,
    g: spec_fn(int) -> int,
)
    requires
        0 <= k <= cs.len(),
        main.len() > 0,
        constant_on(g, main),
        forall|i: int| 0 <= i < cs.len() ==> constant_on(g, #[trigger] cs[i]),
        respects(g, bridged(d, main, cs, k).0.known),
    ensures
        constant_on(g, bridged(d, main, cs, k).1),
        bridged(d, main, cs, k).1.len() >= main.len(),
        forall|x: int|
            0 <= x < main.len() ==> bridged(d, main, cs, k).1[x] == #[trigger] main[x],
        forall|i: int, x: int|
            0 <= i < k && 0 <= x < cs[i].len() ==> bridged(d, main, cs, k).1.contains(
                #[trigger] cs[i][x],
            ),
    decreases k,
{
    if k > 0 {
        let (e, m) = bridged(d, main, cs, k - 1);
        let c = cs[k - 1];
        let (f, w) = bridged(d, main, cs, k);
        assert(constant_on(g, c));
        if m.len() > 0 && c.len() > 0 {
            let s1 = next_state(e.state);
            let s2 = next_state(s1);
            let p = drawn(s1) % (m.len() as int);
            let q = drawn(s2) % (c.len() as int);
            let e2 = DraftV { state: s2, ..e };
            assert(f == with_pair(e2, m[p], c[q]));
            lemma_with_pair_grows(e2, m[p], c[q], g);
            lemma_bridged_constant(d, main, cs, k - 1, g);
            assert(w == m + c);
            assert forall|i: int, j: int| 0 <= i < w.len() && 0 <= j < w.len() implies g(
                #[trigger] w[i] as int,
            ) == g(#[trigger] w[j] as int) by {
                lemma_one_value(m, c, p, q, i, g);
                lemma_one_value(m, c, p, q, j, g);
            }
            assert forall|i: int, x: int| 0 <= i < k && 0 <= x < cs[i].len() implies w.contains(
                #[trigger] cs[i][x],
            ) by {
                if i < k - 1 {
                    assert(m.contains(cs[i][x]));
                    let y = choose|y: int| 0 <= y < m.len() && m[y] == cs[i][x];
                    assert(w[y] == cs[i][x]);
                } else {
                    assert(w[m.len() + x] == c[x]);
                }
            }
        } else {
            lemma_bridged_constant(d, main, cs, k - 1, g);
        }
    }
}

proof fn lemma_one_value(
    m: Seq<usize>,
    c: Seq<usize>,
    p: int,
    q: int,
    i: int,
    g: spec_fn(int) -> int,
)
    requires
        constant_on(g, m),
        constant_on(g, c),
        0 <= p < m.len(),
        0 <= q < c.len(),
        g(m[p] as int) == g(c[q] as int),
        0 <= i < m.len() + c.len(),
    ensures
        g((m + c)[i] as int) == g(m[p] as int),
{
    if i < m.len() {
        assert(g(m[i] as int) == g(m[p] as int));
    } else {
        assert(g(c[i - m.len()] as int) == g(c[q] as int));
    }
}

proof fn lemma_sampled_grows(d: DraftV, n: int, k: int, g: spec_fn(int) -> int)
    requires
        respects(g, sampled(d, n, k).known),
    ensures
        respects(g, d.known),
    decreases k,
{
    if k > 0 && n >= 2 {
        let e = sampled(d, n, k - 1);
        let s1 = next_state(e.state);
        let s2 = next_state(s1);
        let i = drawn(s1) % n;
        let j = other_index(i, drawn(s2) % (n - 1));
        lemma_with_pair_grows(DraftV { state: s2, ..e }, i as usize, j as usize, g);
        lemma_sampled_grows(d, n, k - 1, g);
    }
}

proof fn lemma_respects_known(s: Seq<(usize, usize)>, g: spec_fn(int) -> int)
    requires
        respects(g, s),
    ensures
        respects(g, known_of(s)),
{
    assert forall|j: int| 0 <= j < known_of(s).len() implies g((#[trigger] known_of(s)[j]).0 as int)
        == g(known_of(s)[j].1 as int) by {
        assert(g(s[j].0 as int) == g(s[j].1 as int));
    }
}

proof fn lemma_members_hold(l: Seq<usize>, root: usize, m: int)
    requires
        0 <= m <= l.len(),
        l.len() <= usize::MAX,
    ensures
        members(l, root, m).len() <= m,
        forall|i: int|
            0 <= i < members(l, root, m).len() ==> (#[trigger] members(l, root, m)[i]) < m
                && l[members(l, root, m)[i] as int] == root,
        forall|x: int|
            0 <= x < m && #[trigger] l[x] == root ==> members(l, root, m).contains(x as usize),
    decreases m,
{
    if m > 0 {
        lemma_members_hold(l, root, m - 1);
        let a = members(l, root, m - 1);
        let b = members(l, root, m);
        assert forall|x: int| 0 <= x < m && #[trigger] l[x] == root implies b.contains(
            x as usize,
        ) by {
            if x < m - 1 {
                assert(a.contains(x as usize));
                let y = choose|y: int| 0 <= y < a.len() && a[y] == x as usize;
                assert(b[y] == x as usize);
            } else {
                assert(b[a.len() as int] == x as usize);
            }
        }
    }
}

proof fn lemma_class_listed(l: Seq<usize>, m: int, r: int)
    requires
        0 <= r < m <= l.len(),
        l.len() <= usize::MAX,
        l[r] == r,
    ensures
        all_classes(l, m).contains(members(l, r as usize, l.len() as int)),
    decreases m,
{
    let a = all_classes(l, m - 1);
    let b = all_classes(l, m);
    let c = members(l, r as usize, l.len() as int);
    if r < m - 1 {
        lemma_class_listed(l, m - 1, r);
        let y = choose|y: int| 0 <= y < a.len() && a[y] == c;
        assert(b[y] == c);
    } else {
        assert(b[a.len() as int] == c);
    }
}

proof fn lemma_of_len_holds(cs: Seq<Seq<usize>>, len: int, k: int, i: int)
    requires
        0 <= i < k <= cs.len(),
        cs[i].len() == len,
    ensures
        of_len(cs, len, k).contains(cs[i]),
    decreases k,
{
    let a = of_len(cs, len, k - 1);
    let b = of_len(cs, len, k);
    if i < k - 1 {
        lemma_of_len_holds(cs, len, k - 1, i);
        let y = choose|y: int| 0 <= y < a.len() && a[y] == cs[i];
        assert(b[y] == cs[i]);
    } else {
        assert(b[a.len() as int] == cs[i]);
    }
}

proof fn lemma_by_len_holds(cs: Seq<Seq<usize>>, len: int, i: int)
    requires
        0 <= i < cs.len(),
        0 < cs[i].len() <= len,
    ensures
        by_len(cs, len).contains(cs[i]),
    decreases len,
{
    let a = by_len(cs, len - 1);
    let o = of_len(cs, len, cs.len() as int);
    let b = by_len(cs, len);
    if cs[i].len() < len {
        lemma_by_len_holds(cs, len - 1, i);
        let y = choose|y: int| 0 <= y < a.len() && a[y] == cs[i];
        assert(b[y] == cs[i]);
    } else {
        lemma_of_len_holds(cs, len, cs.len() as int, i);
        let y = choose|y: int| 0 <= y < o.len() && o[y] == cs[i];
        assert(b[a.len() + y] == cs[i]);
    }
}

/// Every list of the classes is one class.
spec fn class_lists(l: Seq<usize>, cs: Seq<Seq<usize>>) -> bool {
    forall|i: int| 0 <= i < cs.len() ==> is_class(l, #[trigger] cs[i])
}

spec fn is_class(l: Seq<usize>, c: Seq<usize>) -> bool {
    exists|r: usize| c == #[trigger] members(l, r, l.len() as int)
}

proof fn lemma_all_class_lists(l: Seq<usize>, m: int)
    ensures
        class_lists(l, all_classes(l, m)),
    decreases m,
{
    if 0 < m && m <= l.len() {
        lemma_all_class_lists(l, m - 1);
        let a = all_classes(l, m - 1);
        let b = all_classes(l, m);
        assert forall|i: int| 0 <= i < b.len() implies is_class(l, #[trigger] b[i]) by {
            if i < a.len() {
                assert(b[i] == a[i]);
            } else {
                assert(b[i] == members(l, (m - 1) as usize, l.len() as int));
            }
        }
    }
}

proof fn lemma_of_len_lists(l: Seq<usize>, cs: Seq<Seq<usize>>, len: int, k: int)
    requires
        class_lists(l, cs),
    ensures
        class_lists(l, of_len(cs, len, k)),
    decreases k,
{
    if 0 < k && k <= cs.len() {
        lemma_of_len_lists(l, cs, len, k - 1);
        let a = of_len(cs, len, k - 1);
        let b = of_len(cs, len, k);
        assert forall|i: int| 0 <= i < b.len() implies is_class(l, #[trigger] b[i]) by {
            if i < a.len() {
                assert(b[i] == a[i]);
            } else {
                assert(b[i] == cs[k - 1]);
            }
        }
    }
}

proof fn lemma_by_len_lists(l: Seq<usize>, cs: Seq<Seq<usize>>, len: int)
    requires
        class_lists(l, cs),
    ensures
        class_lists(l, by_len(cs, len)),
    decreases len,
{
    if len > 0 {
        lemma_by_len_lists(l, cs, len - 1);
        lemma_of_len_lists(l, cs, len, cs.len() as int);
        let a = by_len(cs, len - 1);
        let o = of_len(cs, len, cs.len() as int);
        let b = by_len(cs, len);
        assert forall|i: int| 0 <= i < b.len() implies is_class(l, #[trigger] b[i]) by {
            if i < a.len() {
                assert(b[i] == a[i]);
            } else {
                assert(b[i] == o[i - a.len()]);
            }
        }
    }
}

/// Whatever has the same value at the two places of each vote and of each
/// planned pair has it everywhere.
proof fn lemma_places_connect(
    n: nat,
    pairs: Seq<(usize, usize)>,
    seed: u64,
    g: spec_fn(int) -> int,
    x: int,
    y: int,
)
    requires
        n <= usize::MAX,
        respects(g, pairs),
        respects(g, planned_pairs(n, pairs, seed)),
        0 <= x < n,
        0 <= y < n,
    ensures
        g(x) == g(y),
{
    let l = classes(n, pairs);
    let cs = all_classes(l, n as int);
    law_classes_are_least(n, pairs, pairs.len() as int, g);
    lemma_labels_are_roots(n, pairs, pairs.len() as int);
    lemma_labels_bound(n, pairs, pairs.len() as int);
    let rx = l[x];
    let ry = l[y];
    let cx = members(l, rx, n as int);
    let cy = members(l, ry, n as int);
    lemma_class_listed(l, n as int, rx as int);
    lemma_class_listed(l, n as int, ry as int);
    lemma_members_hold(l, rx, n as int);
    lemma_members_hold(l, ry, n as int);
    assert(l[x] == rx && l[y] == ry);
    assert(cx.contains(x as usize));
    assert(cy.contains(y as usize));
    let ix = choose|i: int| 0 <= i < cs.len() && cs[i] == cx;
    let iy = choose|i: int| 0 <= i < cs.len() && cs[i] == cy;
    if cs.len() <= 1 {
        assert(ix == iy);
        let k = choose|k: int| 0 <= k < cy.len() && cy[k] == y as usize;
        assert(cx[k] == y as usize);
        assert(l[y] == rx);
    } else {
        let d = fresh(pairs, seed);
        let ordered = by_len(cs, n as int);
        lemma_by_len_holds(cs, n as int, ix);
        lemma_by_len_holds(cs, n as int, iy);
        lemma_all_class_lists(l, n as int);
        lemma_by_len_lists(l, cs, n as int);
        assert forall|i: int| 0 <= i < ordered.len() implies constant_on(g, #[trigger] ordered[i]) by {
            assert(is_class(l, ordered[i]));
            let r = choose|r: usize| ordered[i] == #[trigger] members(l, r, l.len() as int);
            lemma_members_hold(l, r, n as int);
            let c = ordered[i];
            assert forall|a: int, b: int| 0 <= a < c.len() && 0 <= b < c.len() implies g(
                #[trigger] c[a] as int,
            ) == g(#[trigger] c[b] as int) by {
                assert(l[c[a] as int] == r);
                assert(l[c[b] as int] == r);
            }
        }
        let done = bridges(n, pairs, seed);
        let all = sampled(done, n as int, sample_size(n as int));
        lemma_bridges_new(n, pairs, seed);
        lemma_sampled_new(done, pairs, n as int, sample_size(n as int));
        lemma_respects_known(pairs, g);
        lemma_respects_known(all.pairs, g);
        assert forall|j: int| 0 <= j < all.known.len() implies g((#[trigger] all.known[j]).0 as int)
            == g(all.known[j].1 as int) by {
            let kb = known_of(pairs);
            let ka = known_of(all.pairs);
            if j < kb.len() {
                assert(all.known[j] == kb[j]);
            } else {
                assert(all.known[j] == ka[j - kb.len()]);
            }
        }
        lemma_sampled_grows(done, n as int, sample_size(n as int), g);
        let ox = choose|i: int| 0 <= i < ordered.len() && ordered[i] == cx;
        let oy = choose|i: int| 0 <= i < ordered.len() && ordered[i] == cy;
        let last = ordered.len() - 1;
        let main = ordered[last];
        lemma_last_not_empty(cs, n as int);
        lemma_bridged_constant(d, main, ordered, last, g);
        let w = bridged(d, main, ordered, last).1;
        lemma_in_bridged(w, ordered, main, cx, ox, last, x as usize);
        lemma_in_bridged(w, ordered, main, cy, oy, last, y as usize);
        let px = choose|i: int| 0 <= i < w.len() && w[i] == x as usize;
        let py = choose|i: int| 0 <= i < w.len() && w[i] == y as usize;
        assert(g(w[px] as int) == g(w[py] as int));
    }
}

proof fn lemma_in_bridged(
    w: Seq<usize>,
    cs: Seq<Seq<usize>>,
    main: Seq<usize>,
    c: Seq<usize>,
    o: int,
    last: int,
    x: usize,
)
    requires
        0 <= o <= last < cs.len(),
        cs[o] == c,
        cs[last] == main,
        c.contains(x),
        w.len() >= main.len(),
        forall|i: int| 0 <= i < main.len() ==> w[i] == #[trigger] main[i],
        forall|i: int, k: int|
            0 <= i < last && 0 <= k < cs[i].len() ==> w.contains(#[trigger] cs[i][k]),
    ensures
        w.contains(x),
{
    let k = choose|k: int| 0 <= k < c.len() && c[k] == x;
    if o < last {
        assert(w.contains(cs[o][k]));
    } else {
        assert(w[k] == main[k]);
    }
}

proof fn lemma_of_len_sizes(cs: Seq<Seq<usize>>, len: int, k: int)
    ensures
        forall|i: int|
            0 <= i < of_len(cs, len, k).len() ==> (#[trigger] of_len(cs, len, k)[i]).len() == len,
    decreases k,
{
    if 0 < k && k <= cs.len() {
        lemma_of_len_sizes(cs, len, k - 1);
        let a = of_len(cs, len, k - 1);
        let b = of_len(cs, len, k);
        assert forall|i: int| 0 <= i < b.len() implies (#[trigger] b[i]).len() == len by {
            if i < a.len() {
                assert(b[i] == a[i]);
            }
        }
    }
}

proof fn lemma_by_len_sizes(cs: Seq<Seq<usize>>, len: int)
    ensures
        forall|i: int|
            0 <= i < by_len(cs, len).len() ==> (#[trigger] by_len(cs, len)[i]).len() > 0,
    decreases len,
{
    if len > 0 {
        lemma_by_len_sizes(cs, len - 1);
        lemma_of_len_sizes(cs, len, cs.len() as int);
        let a = by_len(cs, len - 1);
        let o = of_len(cs, len, cs.len() as int);
        let b = by_len(cs, len);
        assert forall|i: int| 0 <= i < b.len() implies (#[trigger] b[i]).len() > 0 by {
            if i < a.len() {
                assert(b[i] == a[i]);
            } else {
                assert(b[i] == o[i - a.len()]);
            }
        }
    }
}

proof fn lemma_last_not_empty(cs: Seq<Seq<usize>>, len: int)
    ensures
        by_len(cs, len).len() > 0 ==> by_len(cs, len).last().len() > 0,
{
    lemma_by_len_sizes(cs, len);
}

proof fn lemma_all_classes_distinct(l: Seq<usize>, m: int)
    requires
        0 <= m <= l.len(),
        l.len() <= usize::MAX,
    ensures
        all_classes(l, m).no_duplicates(),
        forall|i: int|
            0 <= i < all_classes(l, m).len() ==> 0 < (#[trigger] all_classes(l, m)[i]).len()
                <= l.len() && l[all_classes(l, m)[i][0] as int] < m && all_classes(l, m)[i][0]
                < l.len(),
    decreases m,
{
    if m > 0 {
        lemma_all_classes_distinct(l, m - 1);
        let a = all_classes(l, m - 1);
        let b = all_classes(l, m);
        if l[m - 1] == m - 1 {
            let c = members(l, (m - 1) as usize, l.len() as int);
            lemma_members_hold(l, (m - 1) as usize, l.len() as int);
            assert(c.contains((m - 1) as usize));
            assert(l[c[0] as int] == m - 1);
            assert(b == a.push(c));
            assert forall|i: int| 0 <= i < b.len() implies 0 < (#[trigger] b[i]).len() <= l.len()
                && l[b[i][0] as int] < m && b[i][0] < l.len() by {
                if i < a.len() {
                    assert(b[i] == a[i]);
                }
            }
            assert forall|i: int, j: int|
                0 <= i < b.len() && 0 <= j < b.len() && i != j implies b[i] != b[j] by {
                if i < a.len() {
                    assert(l[a[i][0] as int] < m - 1);
                }
                if j < a.len() {
                    assert(l[a[j][0] as int] < m - 1);
                }
            }
        }
    }
}

proof fn lemma_of_len_distinct(cs: Seq<Seq<usize>>, len: int, k: int)
    requires
        0 <= k <= cs.len(),
        cs.no_duplicates(),
    ensures
        of_len(cs, len, k).no_duplicates(),
        forall|c: Seq<usize>| #[trigger]
            of_len(cs, len, k).contains(c) ==> c.len() == len && cs.take(k).contains(c),
    decreases k,
{
    let b = of_len(cs, len, k);
    if k > 0 {
        lemma_of_len_distinct(cs, len, k - 1);
        let a = of_len(cs, len, k - 1);
        let x = cs[k - 1];
        assert forall|c: Seq<usize>| #[trigger] b.contains(c) implies c.len() == len && cs.take(
            k,
        ).contains(c) by {
            let i = choose|i: int| 0 <= i < b.len() && b[i] == c;
            if i < a.len() {
                assert(a[i] == c);
                assert(a.contains(c));
                let t = cs.take(k - 1);
                let j = choose|j: int| 0 <= j < t.len() && t[j] == c;
                assert(cs.take(k)[j] == c);
            } else {
                assert(cs.take(k)[k - 1] == x);
            }
        }
        if x.len() == len {
            assert(b == a.push(x));
            assert forall|i: int, j: int|
                0 <= i < b.len() && 0 <= j < b.len() && i != j implies b[i] != b[j] by {
                let y = if i < a.len() { i } else { j };
                if y < a.len() {
                    assert(a.contains(a[y]));
                    let t = cs.take(k - 1);
                    let z = choose|z: int| 0 <= z < t.len() && t[z] == a[y];
                    assert(cs[z] != cs[k - 1]);
                }
            }
        }
    }
}

proof fn lemma_by_len_distinct(cs: Seq<Seq<usize>>, len: int)
    requires
        cs.no_duplicates(),
    ensures
        by_len(cs, len).no_duplicates(),
        forall|c: Seq<usize>| #[trigger]
            by_len(cs, len).contains(c) ==> 0 < c.len() <= len && cs.contains(c),
    decreases len,
{
    if len > 0 {
        lemma_by_len_distinct(cs, len - 1);
        let n = cs.len() as int;
        lemma_of_len_distinct(cs, len, n);
        assert(cs.take(n) =~= cs);
        let a = by_len(cs, len - 1);
        let o = of_len(cs, len, n);
        let b = by_len(cs, len);
        assert forall|c: Seq<usize>| #[trigger] b.contains(c) implies 0 < c.len() <= len
            && cs.contains(c) by {
            let i = choose|i: int| 0 <= i < b.len() && b[i] == c;
            if i < a.len() {
                assert(a.contains(a[i]));
            } else {
                assert(o.contains(o[i - a.len()]));
            }
        }
        assert forall|i: int, j: int|
            0 <= i < b.len() && 0 <= j < b.len() && i != j implies b[i] != b[j] by {
            if i < a.len() {
                assert(a.contains(a[i]));
            } else {
                assert(o.contains(o[i - a.len()]));
            }
            if j < a.len() {
                assert(a.contains(a[j]));
            } else {
                assert(o.contains(o[j - a.len()]));
            }
        }
    }
}

/// In order of size there are as many classes as before.
proof fn lemma_by_len_len(cs: Seq<Seq<usize>>, n: int)
    requires
        cs.no_duplicates(),
        forall|i: int| 0 <= i < cs.len() ==> 0 < (#[trigger] cs[i]).len() <= n,
    ensures
        by_len(cs, n).len() == cs.len(),
{
    let o = by_len(cs, n);
    lemma_by_len_distinct(cs, n);
    assert forall|c: Seq<usize>| o.to_set().contains(c) <==> cs.to_set().contains(c) by {
        if cs.contains(c) {
            let i = choose|i: int| 0 <= i < cs.len() && cs[i] == c;
            lemma_by_len_holds(cs, n, i);
        }
        if o.contains(c) {
            assert(cs.contains(c));
        }
    }
    assert(o.to_set() =~= cs.to_set());
    o.unique_seq_to_set();
    cs.unique_seq_to_set();
}

/// Every planned pair of the draft lies within the places of `m`.
spec fn pairs_within(d: DraftV, m: Seq<usize>) -> bool {
    forall|j: int|
        0 <= j < d.pairs.len() ==> m.contains((#[trigger] d.pairs[j]).0) && m.contains(
            d.pairs[j].1,
        )
}

/// Bridging a class adds one pair each time.
proof fn lemma_bridged_len(
    n: nat,
    base: Seq<(usize, usize)>,
    d: DraftV,
    main: Seq<usize>,
    cs: Seq<Seq<usize>>,
    k: int,
)
    requires
        n <= usize::MAX,
        0 <= k < cs.len(),
        main == cs.last(),
        cs.no_duplicates(),
        class_lists(classes(n, base), cs),
        forall|i: int| 0 <= i < cs.len() ==> 0 < (#[trigger] cs[i]).len(),
        all_new(d, base),
        d.pairs.len() == 0,
    ensures
        bridged(d, main, cs, k).0.pairs.len() == k,
        pairs_within(bridged(d, main, cs, k).0, bridged(d, main, cs, k).1),
        bridged(d, main, cs, k).1.len() > 0,
        forall|x: usize| #[trigger]
            bridged(d, main, cs, k).1.contains(x) ==> (main.contains(x) || exists|i: int|
                0 <= i < k && #[trigger] cs[i].contains(x)),
    decreases k,
{
    if k > 0 {
        lemma_bridged_len(n, base, d, main, cs, k - 1);
        lemma_bridged_new(d, base, main, cs, k - 1);
        let (e, m) = bridged(d, main, cs, k - 1);
        let c = cs[k - 1];
        let s1 = next_state(e.state);
        let s2 = next_state(s1);
        let p = drawn(s1) % (m.len() as int);
        let q = drawn(s2) % (c.len() as int);
        let a = m[p];
        let b = c[q];
        let f = bridged(d, main, cs, k).0;
        let w = bridged(d, main, cs, k).1;
        assert(w == m + c);
        assert(m.contains(a));
        assert(c.contains(b));
        let l = classes(n, base);
        lemma_labels_bound(n, base, base.len() as int);
        // `b` is in no class that was bridged before, so not in `m`.
        assert forall|x: usize| #[trigger] c.contains(x) implies !m.contains(x) by {
            if m.contains(x) {
                if main.contains(x) {
                    lemma_classes_apart(l, cs, k - 1, cs.len() - 1, x);
                } else {
                    let i = choose|i: int| 0 <= i < k - 1 && #[trigger] cs[i].contains(x);
                    lemma_classes_apart(l, cs, k - 1, i, x);
                }
            }
        }
        let key = sorted_pair_of(a, b);
        let kb = known_of(base);
        let ke = known_of(e.pairs);
        if e.known.contains(key) {
            let j = choose|j: int| 0 <= j < e.known.len() && e.known[j] == key;
            if j < kb.len() {
                assert(kb[j] == key);
                lemma_classes_bound(l, cs, k - 1);
                assert(b < n);
                let la = choose|i: int| 0 <= i < cs.len() && #[trigger] cs[i].contains(a) && i != k - 1;
                assert(exists|i: int| 0 <= i < cs.len() && #[trigger] cs[i].contains(a) && i != k - 1) by {
                    if main.contains(a) {
                        assert(cs[cs.len() - 1].contains(a));
                    } else {
                        let i = choose|i: int| 0 <= i < k - 1 && #[trigger] cs[i].contains(a);
                        assert(cs[i].contains(a));
                    }
                }
                lemma_classes_bound(l, cs, la);
                assert(a < n);
                assert(joins(n, base[j]));
                law_votes_join(n, base, j, base.len() as int);
                assert(l[a as int] == l[b as int]);
                lemma_class_holds_label(l, cs, k - 1, a, b);
            } else {
                let i = j - kb.len();
                assert(e.known[j] == ke[i]);
                assert(ke[i] == sorted_pair_of(e.pairs[i].0, e.pairs[i].1));
                assert(m.contains(e.pairs[i].0) && m.contains(e.pairs[i].1));
            }
        }
        assert(f.pairs == e.pairs.push((a, b)));
        assert forall|x: usize| m.contains(x) || c.contains(x) implies #[trigger] w.contains(x) by {
            if m.contains(x) {
                let i = choose|i: int| 0 <= i < m.len() && m[i] == x;
                assert(w[i] == x);
            } else {
                let i = choose|i: int| 0 <= i < c.len() && c[i] == x;
                assert(w[m.len() + i] == x);
            }
        }
        assert forall|j: int| 0 <= j < f.pairs.len() implies w.contains((#[trigger] f.pairs[j]).0)
            && w.contains(f.pairs[j].1) by {
            if j < e.pairs.len() {
                assert(f.pairs[j] == e.pairs[j]);
            }
        }
        assert forall|x: usize| #[trigger] w.contains(x) implies (main.contains(x) || exists|i: int|
            0 <= i < k && #[trigger] cs[i].contains(x)) by {
            let i = choose|i: int| 0 <= i < w.len() && w[i] == x;
            if i < m.len() {
                assert(m[i] == x);
                assert(m.contains(x));
                if !main.contains(x) {
                    let y = choose|y: int| 0 <= y < k - 1 && #[trigger] cs[y].contains(x);
                    assert(cs[y].contains(x));
                }
            } else {
                assert(c[i - m.len()] == x);
                assert(cs[k - 1].contains(x));
            }
        }
    }
}

/// The places of a listed class are places.
proof fn lemma_classes_bound(l: Seq<usize>, cs: Seq<Seq<usize>>, i: int)
    requires
        l.len() <= usize::MAX,
        class_lists(l, cs),
        0 <= i < cs.len(),
    ensures
        forall|x: usize| #[trigger] cs[i].contains(x) ==> x < l.len(),
{
    assert(is_class(l, cs[i]));
    let r = choose|r: usize| cs[i] == #[trigger] members(l, r, l.len() as int);
    lemma_members_hold(l, r, l.len() as int);
}

/// What has the label of a place of a class is in the class.
proof fn lemma_class_holds_label(l: Seq<usize>, cs: Seq<Seq<usize>>, i: int, a: usize, b: usize)
    requires
        l.len() <= usize::MAX,
        class_lists(l, cs),
        0 <= i < cs.len(),
        cs[i].contains(b),
        a < l.len(),
        b < l.len(),
        l[a as int] == l[b as int],
    ensures
        cs[i].contains(a),
{
    assert(is_class(l, cs[i]));
    let r = choose|r: usize| cs[i] == #[trigger] members(l, r, l.len() as int);
    lemma_members_hold(l, r, l.len() as int);
    let y = choose|y: int| 0 <= y < cs[i].len() && cs[i][y] == b;
    assert(l[cs[i][y] as int] == r);
    assert(l[a as int] == r);
}

/// A place is in one class.
proof fn lemma_classes_apart(l: Seq<usize>, cs: Seq<Seq<usize>>, i: int, j: int, x: usize)
    requires
        l.len() <= usize::MAX,
        class_lists(l, cs),
        cs.no_duplicates(),
        0 <= i < cs.len(),
        0 <= j < cs.len(),
        i != j,
        cs[i].contains(x),
    ensures
        !cs[j].contains(x),
{
    assert(is_class(l, cs[i]));
    assert(is_class(l, cs[j]));
    let r = choose|r: usize| cs[i] == #[trigger] members(l, r, l.len() as int);
    let t = choose|t: usize| cs[j] == #[trigger] members(l, t, l.len() as int);
    lemma_members_hold(l, r, l.len() as int);
    lemma_members_hold(l, t, l.len() as int);
    let a = choose|a: int| 0 <= a < cs[i].len() && cs[i][a] == x;
    assert(l[cs[i][a] as int] == r);
    if cs[j].contains(x) {
        let b = choose|b: int| 0 <= b < cs[j].len() && cs[j][b] == x;
        assert(l[cs[j][b] as int] == t);
        assert(cs[i] == cs[j]);
    }
}

proof fn lemma_sampled_len(d: DraftV, n: int, k: int)
    ensures
        d.pairs.len() <= sampled(d, n, k).pairs.len(),
        sampled(d, n, k).pairs.len() <= d.pairs.len() + (if k > 0 { k } else { 0 }),
    decreases k,
{
    if k > 0 && n >= 2 {
        lemma_sampled_len(d, n, k - 1);
    }
}

/// A plan is small: one pair for each component but one, which bridges them, and
/// no more random pairs than the sample holds.
pub proof fn law_plan_size(n: nat, pairs: Seq<(usize, usize)>, seed: u64)
    requires
        n <= usize::MAX,
    ensures
        ({
            let k = all_classes(classes(n, pairs), n as int).len();
            let size = planned_pairs(n, pairs, seed).len();
            k - 1 <= size <= (if k > 0 { k - 1 } else { 0 }) + sample_size(n as int)
        }),
{
    let l = classes(n, pairs);
    lemma_labels_bound(n, pairs, pairs.len() as int);
    let cs = all_classes(l, n as int);
    lemma_all_classes_distinct(l, n as int);
    let d = fresh(pairs, seed);
    let b = bridges(n, pairs, seed);
    if cs.len() > 1 {
        let ordered = by_len(cs, n as int);
        lemma_by_len_len(cs, n as int);
        lemma_by_len_distinct(cs, n as int);
        lemma_all_class_lists(l, n as int);
        lemma_by_len_lists(l, cs, n as int);
        assert forall|i: int| 0 <= i < ordered.len() implies 0 < (#[trigger] ordered[i]).len() by {
            assert(ordered.contains(ordered[i]));
        }
        assert(known_of(d.pairs) =~= Seq::<(usize, usize)>::empty());
        assert(d.known =~= known_of(pairs) + known_of(d.pairs));
        lemma_bridged_len(n, pairs, d, ordered.last(), ordered, ordered.len() - 1);
        assert(b.pairs.len() == cs.len() - 1);
    } else {
        assert(b.pairs.len() == 0);
    }
    lemma_sampled_len(b, n as int, sample_size(n as int));
}

/// Two drafts that differ in the order of what is known alone.
spec fn alike(d: DraftV, e: DraftV) -> bool {
    &&& d.state == e.state
    &&& d.pairs == e.pairs
    &&& d.known.to_set() == e.known.to_set()
}

proof fn lemma_alike_pair(d: DraftV, e: DraftV, a: usize, b: usize)
    requires
        alike(d, e),
    ensures
        alike(with_pair(d, a, b), with_pair(e, a, b)),
{
    let key = sorted_pair_of(a, b);
    assert(d.known.contains(key) == d.known.to_set().contains(key));
    assert(e.known.contains(key) == e.known.to_set().contains(key));
    d.known.lemma_push_to_set_commute(key);
    e.known.lemma_push_to_set_commute(key);
}

proof fn lemma_alike_bridged(
    d: DraftV,
    e: DraftV,
    main: Seq<usize>,
    cs: Seq<Seq<usize>>,
    k: int,
)
    requires
        alike(d, e),
    ensures
        alike(bridged(d, main, cs, k).0, bridged(e, main, cs, k).0),
        bridged(d, main, cs, k).1 == bridged(e, main, cs, k).1,
    decreases k,
{
    if 0 < k && k <= cs.len() {
        lemma_alike_bridged(d, e, main, cs, k - 1);
        let (d1, m) = bridged(d, main, cs, k - 1);
        let e1 = bridged(e, main, cs, k - 1).0;
        let c = cs[k - 1];
        if m.len() > 0 && c.len() > 0 {
            let s1 = next_state(d1.state);
            let s2 = next_state(s1);
            lemma_alike_pair(
                DraftV { state: s2, ..d1 },
                DraftV { state: s2, ..e1 },
                m[drawn(s1) % (m.len() as int)],
                c[drawn(s2) % (c.len() as int)],
            );
        }
    }
}

proof fn lemma_alike_sampled(d: DraftV, e: DraftV, n: int, k: int)
    requires
        alike(d, e),
    ensures
        alike(sampled(d, n, k), sampled(e, n, k)),
    decreases k,
{
    if k > 0 && n >= 2 {
        lemma_alike_sampled(d, e, n, k - 1);
        let d1 = sampled(d, n, k - 1);
        let e1 = sampled(e, n, k - 1);
        let s1 = next_state(d1.state);
        let s2 = next_state(s1);
        let i = drawn(s1) % n;
        let j = other_index(i, drawn(s2) % (n - 1));
        lemma_alike_pair(
            DraftV { state: s2, ..d1 },
            DraftV { state: s2, ..e1 },
            i as usize,
            j as usize,
        );
    }
}

/// Where every pair of `p` is one of `q`, the classes of `q` are no finer.
proof fn lemma_classes_within(n: nat, p: Seq<(usize, usize)>, q: Seq<(usize, usize)>)
    requires
        n <= usize::MAX,
        forall|x: (usize, usize)| #[trigger] p.contains(x) ==> q.contains(x),
    ensures
        forall|x: int| 0 <= x < n ==> (#[trigger] classes(n, q)[x]) <= classes(n, p)[x],
{
    let lp = classes(n, p);
    let lq = classes(n, q);
    lemma_labels_bound(n, p, p.len() as int);
    lemma_labels_bound(n, q, q.len() as int);
    let g = |x: int| if 0 <= x < n { lq[x] as int } else { 0 };
    assert forall|j: int| 0 <= j < p.len() && joins(n, #[trigger] p[j]) implies g(p[j].0 as int)
        == g(p[j].1 as int) by {
        assert(p.contains(p[j]));
        let i = choose|i: int| 0 <= i < q.len() && q[i] == p[j];
        law_votes_join(n, q, i, q.len() as int);
    }
    law_classes_are_least(n, p, p.len() as int, g);
    assert forall|x: int| 0 <= x < n implies (#[trigger] lq[x]) <= lp[x] by {
        assert(lp[x] <= x);
        assert(g(x) == g(labels(n, p, p.len() as int)[x] as int));
        assert(lq[lp[x] as int] <= lp[x]);
    }
}

/// The pairs of places to vote on depend on which pairs were voted on, not on
/// their order, nor on how often each was.
proof fn lemma_planned_alike(
    n: nat,
    p: Seq<(usize, usize)>,
    q: Seq<(usize, usize)>,
    seed: u64,
)
    requires
        n <= usize::MAX,
        p.to_set() == q.to_set(),
    ensures
        planned_pairs(n, p, seed) == planned_pairs(n, q, seed),
{
    assert forall|x: (usize, usize)| #[trigger] p.contains(x) <==> #[trigger] q.contains(x) by {
        assert(p.to_set().contains(x) <==> q.to_set().contains(x));
        assert(p.to_set().contains(x) <==> p.contains(x));
        assert(q.to_set().contains(x) <==> q.contains(x));
    }
    lemma_classes_within(n, p, q);
    lemma_classes_within(n, q, p);
    lemma_labels_bound(n, p, p.len() as int);
    lemma_labels_bound(n, q, q.len() as int);
    let l = classes(n, p);
    assert(l =~= classes(n, q));
    let d = fresh(p, seed);
    let e = fresh(q, seed);
    lemma_known_set(p, q);
    lemma_known_set(q, p);
    assert(d.known.to_set() =~= e.known.to_set());
    let ordered = by_len(all_classes(l, n as int), n as int);
    if ordered.len() > 0 {
        lemma_alike_bridged(d, e, ordered.last(), ordered, ordered.len() - 1);
    }
    lemma_alike_sampled(
        bridges(n, p, seed),
        bridges(n, q, seed),
        n as int,
        sample_size(n as int),
    );
}

proof fn lemma_known_set(p: Seq<(usize, usize)>, q: Seq<(usize, usize)>)
    requires
        forall|x: (usize, usize)| #[trigger] p.contains(x) ==> q.contains(x),
    ensures
        forall|x: (usize, usize)| #[trigger]
            known_of(p).to_set().contains(x) ==> known_of(q).to_set().contains(x),
{
    assert forall|x: (usize, usize)| #[trigger] known_of(p).to_set().contains(x) implies known_of(
        q,
    ).to_set().contains(x) by {
        let i = choose|i: int| 0 <= i < known_of(p).len() && known_of(p)[i] == x;
        assert(p.contains(p[i]));
        let j = choose|j: int| 0 <= j < q.len() && q[j] == p[i];
        assert(known_of(q)[j] == x);
    }
}

/// A pair of places is compared just where a vote names the two.
proof fn lemma_voted_from(ids: Seq<Seq<char>>, votes: Seq<ComparisonV>, n: int, x: (usize, usize))
    requires
        0 <= n <= votes.len(),
    ensures
        voted(ids, votes, n).contains(x) <==> exists|i: int|
            0 <= i < n && place_of(ids, (#[trigger] votes[i]).a_id) == Some(x.0) && place_of(
                ids,
                votes[i].b_id,
            ) == Some(x.1),
    decreases n,
{
    if n > 0 {
        lemma_voted_from(ids, votes, n - 1, x);
        let a = voted(ids, votes, n - 1);
        let b = voted(ids, votes, n);
        if a.contains(x) {
            let i = choose|i: int| 0 <= i < a.len() && a[i] == x;
            assert(b[i] == x);
        }
        if b.contains(x) {
            let i = choose|i: int| 0 <= i < b.len() && b[i] == x;
            if i < a.len() {
                assert(a[i] == x);
            } else {
                assert(place_of(ids, votes[n - 1].a_id) == Some(x.0));
            }
        }
        if place_of(ids, votes[n - 1].a_id) == Some(x.0) && place_of(ids, votes[n - 1].b_id)
            == Some(x.1) {
            assert(b[a.len() as int] == x);
        }
    }
}

proof fn lemma_voted_within(ids: Seq<Seq<char>>, v: Seq<ComparisonV>, w: Seq<ComparisonV>)
    requires
        v.to_set() == w.to_set(),
    ensures
        forall|x: (usize, usize)| #[trigger]
            voted(ids, v, v.len() as int).to_set().contains(x) ==> voted(
                ids,
                w,
                w.len() as int,
            ).to_set().contains(x),
{
    assert forall|x: (usize, usize)| #[trigger] voted(ids, v, v.len() as int).to_set().contains(
        x,
    ) implies voted(ids, w, w.len() as int).to_set().contains(x) by {
        lemma_voted_from(ids, v, v.len() as int, x);
        lemma_voted_from(ids, w, w.len() as int, x);
        let i = choose|i: int|
            0 <= i < v.len() && place_of(ids, (#[trigger] v[i]).a_id) == Some(x.0) && place_of(
                ids,
                v[i].b_id,
            ) == Some(x.1);
        assert(v.to_set().contains(v[i]));
        assert(w.to_set().contains(v[i]));
        let j = choose|j: int| 0 <= j < w.len() && w[j] == v[i];
        assert(place_of(ids, w[j].a_id) == Some(x.0));
    }
}

/// A plan depends on the names, the votes and the seed alone: in whatever order
/// names and votes come, and however often, the pairs are the same.
pub proof fn law_plan_ignores_order(
    ids: Seq<Seq<char>>,
    other_ids: Seq<Seq<char>>,
    votes: Seq<ComparisonV>,
    other_votes: Seq<ComparisonV>,
    seed: u64,
)
    requires
        ids.to_set() == other_ids.to_set(),
        votes.to_set() == other_votes.to_set(),
        ids.len() <= usize::MAX,
    ensures
        plan_of(ids, votes, seed) == plan_of(other_ids, other_votes, seed),
{
    lemma_list_is_ordered(ids);
    let names = in_order(ids.to_set());
    let p = voted(names, votes, votes.len() as int);
    let q = voted(names, other_votes, other_votes.len() as int);
    lemma_voted_within(names, votes, other_votes);
    lemma_voted_within(names, other_votes, votes);
    assert(p.to_set() =~= q.to_set());
    lemma_planned_alike(names.len(), p, q, seed);
}

/// A name has one place in a list in order.
proof fn lemma_place_in(names: Seq<Seq<char>>, x: int, n: int)
    requires
        ascending(names),
        0 <= x < n <= names.len(),
        names.len() <= usize::MAX,
    ensures
        last_place(names, names[x], n) == Some(x as usize),
    decreases n,
{
    if x < n - 1 {
        assert(text_before(names[x], names[n - 1]));
        lemma_before_irreflexive(names[x]);
        lemma_place_in(names, x, n - 1);
    }
}

/// The name found is the one at the place.
proof fn lemma_placed(names: Seq<Seq<char>>, id: Seq<char>, n: int)
    requires
        0 <= n <= names.len(),
        names.len() <= usize::MAX,
    ensures
        match last_place(names, id, n) {
            Some(x) => x < n && names[x as int] == id,
            None => forall|j: int| 0 <= j < n ==> names[j] != id,
        },
    decreases n,
{
    if n > 0 {
        lemma_placed(names, id, n - 1);
    }
}

/// The two names of a pair are those of another, in either order.
pub open spec fn same_pair(
    a: (Seq<char>, Seq<char>),
    b: (Seq<char>, Seq<char>),
) -> bool {
    a == b || a == (b.1, b.0)
}

/// A plan asks for new votes only: each pair is of two different names of those
/// given, none has a vote in either order, and none is planned twice.
pub proof fn law_plan_is_new(ids: Seq<Seq<char>>, votes: Seq<ComparisonV>, seed: u64)
    requires
        ids.len() <= usize::MAX,
    ensures
        ({
            let p = plan_of(ids, votes, seed);
            &&& forall|i: int|
                0 <= i < p.len() ==> ids.contains((#[trigger] p[i]).0) && ids.contains(p[i].1)
                    && p[i].0 != p[i].1
            &&& forall|i: int, k: int|
                0 <= i < p.len() && 0 <= k < votes.len() ==> !same_pair(
                    #[trigger] p[i],
                    ((#[trigger] votes[k]).a_id, votes[k].b_id),
                )
            &&& forall|i: int, j: int|
                0 <= i < j < p.len() ==> !same_pair(#[trigger] p[i], #[trigger] p[j])
        }),
{
    let p = plan_of(ids, votes, seed);
    let names = in_order(ids.to_set());
    lemma_list_is_ordered(ids);
    let n = names.len();
    let pairs = voted(names, votes, votes.len() as int);
    let q = planned_pairs(n, pairs, seed);
    lemma_places_are_new(n, pairs, seed);
    lemma_planned_bound(n, pairs, seed);
    assert forall|i: int| 0 <= i < p.len() implies ids.contains((#[trigger] p[i]).0)
        && ids.contains(p[i].1) && p[i].0 != p[i].1 by {
        let (x, y) = q[i];
        assert(p[i] == (names[x as int], names[y as int]));
        assert(names.to_set().contains(names[x as int]));
        assert(names.to_set().contains(names[y as int]));
        assert(ids.to_set().contains(p[i].0));
        assert(ids.to_set().contains(p[i].1));
        lemma_apart_in(names, x as int, y as int);
    }
    assert forall|i: int, k: int| 0 <= i < p.len() && 0 <= k < votes.len() implies !same_pair(
        #[trigger] p[i],
        ((#[trigger] votes[k]).a_id, votes[k].b_id),
    ) by {
        let (x, y) = q[i];
        let v = (votes[k].a_id, votes[k].b_id);
        if same_pair(p[i], v) {
            let (a, b) = if p[i] == v {
                (x, y)
            } else {
                (y, x)
            };
            lemma_place_in(names, a as int, n as int);
            lemma_place_in(names, b as int, n as int);
            lemma_voted_from(names, votes, votes.len() as int, (a, b));
            assert(place_of(names, votes[k].a_id) == Some(a));
            assert(pairs.contains((a, b)));
            let j = choose|j: int| 0 <= j < pairs.len() && pairs[j] == (a, b);
            assert(known_of(pairs)[j] == sorted_pair_of(x, y));
            assert(known_of(q)[i] == sorted_pair_of(x, y));
        }
    }
    assert forall|i: int, j: int| 0 <= i < j < p.len() implies !same_pair(
        #[trigger] p[i],
        #[trigger] p[j],
    ) by {
        let (x, y) = q[i];
        let (z, w) = q[j];
        if same_pair(p[i], p[j]) {
            if p[i] == p[j] {
                lemma_apart_in(names, x as int, z as int);
                lemma_apart_in(names, y as int, w as int);
            } else {
                lemma_apart_in(names, x as int, w as int);
                lemma_apart_in(names, y as int, z as int);
            }
            assert(known_of(q)[i] == known_of(q)[j]);
        }
    }
}

/// Names at different places of a list in order differ.
proof fn lemma_apart_in(names: Seq<Seq<char>>, x: int, y: int)
    requires
        ascending(names),
        0 <= x < names.len(),
        0 <= y < names.len(),
    ensures
        x != y ==> names[x] != names[y],
{
    lemma_before_irreflexive(names[x]);
    if x < y {
        assert(text_before(names[x], names[y]));
    } else if y < x {
        assert(text_before(names[y], names[x]));
    }
}

/// A plan connects all: whatever has the same value for the two names of each
/// vote among them and of each planned pair has it for all.
pub proof fn law_plan_connects(
    ids: Seq<Seq<char>>,
    votes: Seq<ComparisonV>,
    seed: u64,
    g: spec_fn(Seq<char>) -> int,
    a: Seq<char>,
    b: Seq<char>,
)
    requires
        ids.len() <= usize::MAX,
        forall|k: int|
            0 <= k < votes.len() && ids.contains((#[trigger] votes[k]).a_id) && ids.contains(
                votes[k].b_id,
            ) ==> g(votes[k].a_id) == g(votes[k].b_id),
        forall|i: int|
            0 <= i < plan_of(ids, votes, seed).len() ==> g(
                (#[trigger] plan_of(ids, votes, seed)[i]).0,
            ) == g(plan_of(ids, votes, seed)[i].1),
        ids.contains(a),
        ids.contains(b),
    ensures
        g(a) == g(b),
{
    let p = plan_of(ids, votes, seed);
    let names = in_order(ids.to_set());
    lemma_list_is_ordered(ids);
    let n = names.len();
    let pairs = voted(names, votes, votes.len() as int);
    let q = planned_pairs(n, pairs, seed);
    lemma_planned_bound(n, pairs, seed);
    let h = |x: int| g(names[x]);
    assert forall|j: int| 0 <= j < pairs.len() implies h((#[trigger] pairs[j]).0 as int) == h(
        pairs[j].1 as int,
    ) by {
        assert(pairs.contains(pairs[j]));
        lemma_voted_from(names, votes, votes.len() as int, pairs[j]);
        let k = choose|k: int|
            0 <= k < votes.len() && place_of(names, (#[trigger] votes[k]).a_id) == Some(pairs[j].0)
                && place_of(names, votes[k].b_id) == Some(pairs[j].1);
        lemma_placed(names, votes[k].a_id, n as int);
        lemma_placed(names, votes[k].b_id, n as int);
        assert(names.to_set().contains(votes[k].a_id));
        assert(names.to_set().contains(votes[k].b_id));
        assert(ids.to_set().contains(votes[k].a_id));
        assert(ids.to_set().contains(votes[k].b_id));
    }
    assert forall|j: int| 0 <= j < q.len() implies h((#[trigger] q[j]).0 as int) == h(
        q[j].1 as int,
    ) by {
        assert(p[j] == (names[q[j].0 as int], names[q[j].1 as int]));
    }
    assert(ids.to_set().contains(a) && ids.to_set().contains(b));
    assert(names.to_set().contains(a) && names.to_set().contains(b));
    let x = choose|x: int| 0 <= x < names.len() && names[x] == a;
    let y = choose|y: int| 0 <= y < names.len() && names[y] == b;
    lemma_places_connect(n, pairs, seed, h, x, y);
}

} // verus!
