//! Sets of names in order, and maps from names to indices.

use crate::ordered::{law_set_key, sorted_keys, with_key};
use crate::text::{
    lemma_before_irreflexive, lemma_before_total, lemma_before_transitive, text_before, text_eq,
    text_lt, texts, copy_texts,
};
use vstd::prelude::*;

verus! {

/// `s` is strictly ascending.
pub open spec fn ascending(s: Seq<Seq<char>>) -> bool {
    forall|i: int, j: int| 0 <= i < j < s.len() ==> #[trigger] text_before(s[i], s[j])
}

/// `s` lists the names of `names` in ascending order.
pub open spec fn lists(s: Seq<Seq<char>>, names: Set<Seq<char>>) -> bool {
    ascending(s) && s.to_set() == names
}

/// The names of `names` in ascending order.
pub open spec fn in_order(names: Set<Seq<char>>) -> Seq<Seq<char>> {
    choose|s: Seq<Seq<char>>| lists(s, names)
}

/// A set of names is listed in one way only.
pub proof fn lemma_listing_unique(s: Seq<Seq<char>>, t: Seq<Seq<char>>)
    requires
        ascending(s),
        ascending(t),
        s.to_set() == t.to_set(),
    ensures
        s == t,
    decreases s.len(),
{
    if s.len() == 0 {
        if t.len() > 0 {
            assert(t.to_set().contains(t[0]));
            assert(s.to_set().contains(t[0]));
        }
        assert(s =~= t);
    } else {
        assert(s.to_set().contains(s[0]));
        assert(t.to_set().contains(s[0]));
        assert(t.len() > 0);
        let x = s.last();
        let y = t.last();
        assert(s.contains(x) && t.contains(y));
        assert(t.to_set().contains(x));
        assert(s.to_set().contains(y));
        let i = choose|i: int| 0 <= i < t.len() && t[i] == x;
        let j = choose|j: int| 0 <= j < s.len() && s[j] == y;
        if x != y {
            assert(i < t.len() - 1);
            assert(text_before(t[i], t[t.len() - 1]));
            assert(j < s.len() - 1);
            assert(text_before(s[j], s[s.len() - 1]));
            lemma_before_transitive(x, y, x);
            lemma_before_irreflexive(x);
        }
        let a = s.drop_last();
        let b = t.drop_last();
        assert forall|n: Seq<char>| a.to_set().contains(n) implies b.to_set().contains(n) by {
            let k = choose|k: int| 0 <= k < a.len() && a[k] == n;
            assert(text_before(s[k], s[s.len() - 1]));
            lemma_before_irreflexive(x);
            assert(s.to_set().contains(s[k]));
            assert(t.to_set().contains(n));
            let m = choose|m: int| 0 <= m < t.len() && t[m] == n;
            assert(b[m] == n);
        }
        assert forall|n: Seq<char>| b.to_set().contains(n) implies a.to_set().contains(n) by {
            let k = choose|k: int| 0 <= k < b.len() && b[k] == n;
            assert(text_before(t[k], t[t.len() - 1]));
            lemma_before_irreflexive(x);
            assert(t.to_set().contains(t[k]));
            assert(s.to_set().contains(n));
            let m = choose|m: int| 0 <= m < s.len() && s[m] == n;
            assert(a[m] == n);
        }
        assert(a.to_set() =~= b.to_set());
        lemma_listing_unique(a, b);
        assert(s =~= a.push(x));
        assert(t =~= b.push(y));
    }
}

/// What lists a set is its listing.
pub proof fn lemma_in_order(s: Seq<Seq<char>>, names: Set<Seq<char>>)
    requires
        lists(s, names),
    ensures
        in_order(names) == s,
{
    lemma_listing_unique(in_order(names), s);
}

/// The names of a list, each once and in order.
proof fn lemma_arranged(ids: Seq<Seq<char>>) -> (m: Seq<(Seq<char>, ())>)
    ensures
        sorted_keys(m),
        m.len() <= ids.len(),
        forall|e: (Seq<char>, ())| #[trigger] m.contains(e) <==> ids.contains(e.0),
    decreases ids.len(),
{
    if ids.len() == 0 {
        Seq::empty()
    } else {
        let rest = ids.drop_last();
        let m = lemma_arranged(rest);
        let k = ids.last();
        law_set_key(m, k, ());
        crate::ordered::lemma_key_place(m, k, 0);
        let w = with_key(m, k, ());
        assert forall|e: (Seq<char>, ())| #[trigger] w.contains(e) <==> ids.contains(e.0) by {
            assert(ids =~= rest.push(k));
            if rest.contains(e.0) {
                let i = choose|i: int| 0 <= i < rest.len() && rest[i] == e.0;
                assert(ids[i] == e.0);
            }
            assert(ids[ids.len() - 1] == k);
            if e.0 == k {
                assert(e == (k, ()));
            } else {
                assert(w.contains(e) <==> m.contains(e));
                if ids.contains(e.0) {
                    let i = choose|i: int| 0 <= i < ids.len() && ids[i] == e.0;
                    assert(rest[i] == e.0);
                }
            }
        }
        w
    }
}

/// The names of every list can be listed in order.
pub proof fn lemma_list_is_ordered(ids: Seq<Seq<char>>)
    ensures
        lists(in_order(ids.to_set()), ids.to_set()),
        in_order(ids.to_set()).len() <= ids.len(),
{
    let m = lemma_arranged(ids);
    let s = m.map_values(|e: (Seq<char>, ())| e.0);
    assert forall|i: int, j: int| 0 <= i < j < s.len() implies #[trigger] text_before(s[i], s[j]) by {
        assert(text_before(m[i].0, m[j].0));
    }
    assert forall|n: Seq<char>| s.to_set().contains(n) <==> ids.to_set().contains(n) by {
        if s.contains(n) {
            let i = choose|i: int| 0 <= i < s.len() && s[i] == n;
            assert(m[i] == (n, ()));
            assert(m.contains((n, ())));
        }
        if ids.contains(n) {
            assert(m.contains((n, ())));
            let i = choose|i: int| 0 <= i < m.len() && m[i] == (n, ());
            assert(s[i] == n);
        }
    }
    assert(s.to_set() =~= ids.to_set());
    lemma_in_order(s, ids.to_set());
}

/// A set of names, kept in ascending order.
#[derive(Debug)]
pub struct NameSet {
    pub names: Vec<String>,
}

impl View for NameSet {
    type V = Set<Seq<char>>;

    open spec fn view(&self) -> Set<Seq<char>> {
        texts(self.names@).to_set()
    }
}

impl NameSet {
    pub open spec fn wf(&self) -> bool {
        ascending(texts(self.names@))
    }

    pub fn new() -> (r: NameSet)
        ensures
            r.wf(),
            r@ == Set::<Seq<char>>::empty(),
    {
        let r = NameSet { names: Vec::new() };
        assert(r@ =~= Set::<Seq<char>>::empty());
        r
    }

    /// Adds `name`.
    pub fn insert(&mut self, name: &str)
        requires
            old(self).wf(),
        ensures
            final(self).wf(),
            final(self)@ == old(self)@.insert(name@),
    {
        let ghost before = texts(self.names@);
        let mut i: usize = 0;
        while i < self.names.len() && text_lt(self.names[i].as_str(), name)
            invariant
                *self == *old(self),
                i <= self.names@.len(),
                before == texts(self.names@),
                forall|j: int| 0 <= j < i ==> text_before(#[trigger] before[j], name@),
            decreases self.names@.len() - i,
        {
            assert(before[i as int] == self.names@[i as int]@);
            i = i + 1;
        }
        if i < self.names.len() && text_eq(self.names[i].as_str(), name) {
            assert(before[i as int] == name@);
            assert(self@ =~= old(self)@.insert(name@));
            return;
        }
        assert(i < before.len() ==> before[i as int] == self.names@[i as int]@);
        self.names.insert(i, name.to_owned());
        let ghost after = texts(self.names@);
        proof {
            assert(after =~= before.insert(i as int, name@));
            if i < before.len() {
                lemma_before_total(before[i as int], name@);
            }
            assert forall|a: int, b: int| 0 <= a < b < after.len() implies #[trigger] text_before(
                after[a],
                after[b],
            ) by {
                let x = if a < i { a } else { a - 1 };
                let y = if b < i { b } else { b - 1 };
                if a == i {
                    if b - 1 > i {
                        assert(text_before(before[i as int], before[b - 1]));
                        lemma_before_transitive(name@, before[i as int], before[b - 1]);
                    }
                } else if b == i {
                    assert(text_before(before[a], name@));
                } else {
                    assert(text_before(before[x], before[y]));
                }
            }
            assert forall|n: Seq<char>| after.to_set().contains(n) <==> before.to_set().insert(
                name@,
            ).contains(n) by {
                if after.contains(n) {
                    let k = choose|k: int| 0 <= k < after.len() && after[k] == n;
                    if k < i {
                        assert(before[k] == n);
                    } else if k > i {
                        assert(before[k - 1] == n);
                    }
                }
                if before.contains(n) {
                    let k = choose|k: int| 0 <= k < before.len() && before[k] == n;
                    if k < i {
                        assert(after[k] == n);
                    } else {
                        assert(after[k + 1] == n);
                    }
                }
                if n == name@ {
                    assert(after[i as int] == n);
                }
            }
            assert(after.to_set() =~= before.to_set().insert(name@));
        }
    }

    /// The set holds `name`.
    pub fn contains(&self, name: &str) -> (r: bool)
        ensures
            r == self@.contains(name@),
    {
        has_name(&self.names, name)
    }

    /// The names in ascending order are the listing of the set.
    pub proof fn lemma_ordered(&self)
        requires
            self.wf(),
        ensures
            in_order(self@) == texts(self.names@),
    {
        lemma_in_order(texts(self.names@), self@);
    }

    /// A copy of the set.
    pub fn copy(&self) -> (r: NameSet)
        ensures
            r@ == self@,
            self.wf() ==> r.wf(),
    {
        let names: Vec<String> = copy_texts(&self.names);
        NameSet { names }
    }
}

/// `v` holds `name`.
pub fn has_name(v: &Vec<String>, name: &str) -> (r: bool)
    ensures
        r == texts(v@).contains(name@),
{
    let mut i: usize = 0;
    while i < v.len()
        invariant
            i <= v@.len(),
            forall|j: int| 0 <= j < i ==> #[trigger] texts(v@)[j] != name@,
        decreases v@.len() - i,
    {
        if text_eq(v[i].as_str(), name) {
            assert(texts(v@)[i as int] == name@);
            return true;
        }
        i = i + 1;
    }
    false
}

/// A map from names.
#[derive(Debug)]
pub struct NameMap<V> {
    pub entries: Vec<(String, V)>,
}

impl<V> View for NameMap<V> {
    type V = Map<Seq<char>, V>;

    open spec fn view(&self) -> Map<Seq<char>, V> {
        Map::new(
            |n: Seq<char>| exists|i: int| 0 <= i < self.entries@.len() && #[trigger] self.entries@[i].0@ == n,
            |n: Seq<char>|
                self.entries@[choose|i: int|
                    0 <= i < self.entries@.len() && #[trigger] self.entries@[i].0@ == n].1,
        )
    }
}

impl<V: Copy> NameMap<V> {
    /// No name has two entries.
    pub open spec fn wf(&self) -> bool {
        forall|i: int, j: int|
            0 <= i < j < self.entries@.len() ==> #[trigger] self.entries@[i].0@
                != #[trigger] self.entries@[j].0@
    }

    pub fn new() -> (r: NameMap<V>)
        ensures
            r.wf(),
            r@ == Map::<Seq<char>, V>::empty(),
    {
        let r = NameMap { entries: Vec::new() };
        assert(r@ =~= Map::<Seq<char>, V>::empty());
        r
    }

    /// What `name` maps to.
    pub fn get(&self, name: &str) -> (r: Option<V>)
        requires
            self.wf(),
        ensures
            match r {
                Some(k) => self@.contains_key(name@) && self@[name@] == k,
                None => !self@.contains_key(name@),
            },
    {
        let mut i: usize = 0;
        while i < self.entries.len()
            invariant
                i <= self.entries@.len(),
                self.wf(),
                forall|j: int| 0 <= j < i ==> #[trigger] self.entries@[j].0@ != name@,
            decreases self.entries@.len() - i,
        {
            if text_eq(self.entries[i].0.as_str(), name) {
                assert(self.entries@[i as int].0@ == name@);
                return Some(self.entries[i].1);
            }
            i = i + 1;
        }
        None
    }

    /// Maps `name` to `k`.
    pub fn insert(&mut self, name: &str, k: V)
        requires
            old(self).wf(),
        ensures
            final(self).wf(),
            final(self)@ == old(self)@.insert(name@, k),
    {
        let ghost before = self.entries@;
        let mut i: usize = 0;
        while i < self.entries.len() && !text_eq(self.entries[i].0.as_str(), name)
            invariant
                *self == *old(self),
                i <= self.entries@.len(),
                before == self.entries@,
                forall|j: int| 0 <= j < i ==> #[trigger] self.entries@[j].0@ != name@,
            decreases self.entries@.len() - i,
        {
            i = i + 1;
        }
        let n: String = name.to_owned();
        if i < self.entries.len() {
            self.entries.set(i, (n, k));
        } else {
            self.entries.push((n, k));
        }
        let ghost after = self.entries@;
        proof {
            assert forall|a: int, b: int| 0 <= a < b < after.len() implies #[trigger] after[a].0@
                != #[trigger] after[b].0@ by {
                if a != i && b != i {
                    assert(before[a].0@ != before[b].0@);
                } else if a == i {
                    if i < before.len() {
                        assert(before[a].0@ != before[b].0@);
                    }
                } else {
                    assert(before[a].0@ != name@);
                }
            }
            assert forall|m: Seq<char>| self@.contains_key(m) <==> old(self)@.insert(
                name@,
                k,
            ).contains_key(m) by {
                if self@.contains_key(m) {
                    let x = choose|x: int| 0 <= x < after.len() && #[trigger] after[x].0@ == m;
                    if x != i {
                        assert(before[x].0@ == m);
                    }
                }
                if old(self)@.contains_key(m) {
                    let x = choose|x: int| 0 <= x < before.len() && #[trigger] before[x].0@ == m;
                    assert(after[x].0@ == m);
                }
                if m == name@ {
                    assert(after[i as int].0@ == m);
                }
            }
            assert forall|m: Seq<char>| self@.contains_key(m) implies self@[m] == old(self)@.insert(
                name@,
                k,
            )[m] by {
                let x = choose|x: int| 0 <= x < after.len() && #[trigger] after[x].0@ == m;
                if m == name@ {
                    assert(after[i as int].0@ == m);
                    assert(x == i);
                } else {
                    assert(x != i);
                    assert(before[x].0@ == m);
                    let y = choose|y: int| 0 <= y < before.len() && #[trigger] before[y].0@ == m;
                    assert(x == y);
                }
            }
            assert(self@ =~= old(self)@.insert(name@, k));
        }
    }
}

} // verus!
