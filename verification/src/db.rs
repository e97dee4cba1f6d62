//! The key-value store: rows in ascending key order.

use crate::bytes::{
    bytes_eq, bytes_lt, bytes_start_with, copy_bytes, from_le, lemma_from_le_bound,
    lemma_lex_irreflexive, lemma_lex_total, lemma_lex_transitive, lemma_pow256_8, lex_lt, read_le,
    starts_with,
};
use crate::error::{corruption, Error, ErrorV};
use crate::schema::{bits_i64, signed};
use vstd::prelude::*;

verus! {

/// A key and its value.
pub type RowV = (Seq<u8>, Seq<u8>);

/// An open database: its rows, in ascending key order.
pub struct Db {
    pub rows: Vec<(Vec<u8>, Vec<u8>)>,
}

pub open spec fn rows_v(v: Seq<(Vec<u8>, Vec<u8>)>) -> Seq<RowV> {
    v.map_values(|r: (Vec<u8>, Vec<u8>)| (r.0@, r.1@))
}

impl View for Db {
    type V = Seq<RowV>;

    open spec fn view(&self) -> Seq<RowV> {
        rows_v(self.rows@)
    }
}

/// The keys ascend, so that no key occurs twice.
pub open spec fn ascending_keys(s: Seq<RowV>) -> bool {
    forall|i: int, j: int| 0 <= i < j < s.len() ==> lex_lt(#[trigger] s[i].0, #[trigger] s[j].0)
}

/// The place of the first row from `i` on whose key is not before `k`.
pub open spec fn row_place(s: Seq<RowV>, k: Seq<u8>, i: int) -> int
    decreases s.len() - i,
{
    if i < 0 || i >= s.len() || !lex_lt(s[i].0, k) {
        i
    } else {
        row_place(s, k, i + 1)
    }
}

/// There is a row for `k`.
pub open spec fn has_row(s: Seq<RowV>, k: Seq<u8>) -> bool {
    let i = row_place(s, k, 0);
    i < s.len() && s[i].0 == k
}

/// The value at `k`.
pub open spec fn lookup(s: Seq<RowV>, k: Seq<u8>) -> Option<Seq<u8>> {
    if has_row(s, k) {
        Some(s[row_place(s, k, 0)].1)
    } else {
        None
    }
}

/// The rows once `v` is put at `k`.
pub open spec fn with_row(s: Seq<RowV>, k: Seq<u8>, v: Seq<u8>) -> Seq<RowV> {
    let i = row_place(s, k, 0);
    if has_row(s, k) {
        s.update(i, (k, v))
    } else {
        s.insert(i, (k, v))
    }
}

/// The rows once `k` is deleted.
pub open spec fn without_row(s: Seq<RowV>, k: Seq<u8>) -> Seq<RowV> {
    if has_row(s, k) {
        s.remove(row_place(s, k, 0))
    } else {
        s
    }
}

/// The rows among the first `n` whose keys start with `p`, or those whose keys
/// do not.
pub open spec fn rows_where(s: Seq<RowV>, p: Seq<u8>, inside: bool, n: int) -> Seq<RowV>
    decreases n,
{
    if n <= 0 || n > s.len() {
        Seq::empty()
    } else if starts_with(s[n - 1].0, p) == inside {
        rows_where(s, p, inside, n - 1).push(s[n - 1])
    } else {
        rows_where(s, p, inside, n - 1)
    }
}

/// The rows under the prefix `p`, in key order.
pub open spec fn scan_of(s: Seq<RowV>, p: Seq<u8>) -> Seq<RowV> {
    rows_where(s, p, true, s.len() as int)
}

/// The rows once all under the prefix `p` are deleted.
pub open spec fn cleared(s: Seq<RowV>, p: Seq<u8>) -> Seq<RowV> {
    rows_where(s, p, false, s.len() as int)
}

pub proof fn lemma_place(s: Seq<RowV>, k: Seq<u8>, i: int)
    requires
        ascending_keys(s),
        0 <= i <= s.len(),
    ensures
        i <= row_place(s, k, i) <= s.len(),
        forall|j: int| i <= j < row_place(s, k, i) ==> lex_lt((#[trigger] s[j]).0, k),
        forall|j: int| row_place(s, k, i) <= j < s.len() ==> !lex_lt((#[trigger] s[j]).0, k),
    decreases s.len() - i,
{
    if i < s.len() {
        if lex_lt(s[i].0, k) {
            lemma_place(s, k, i + 1);
        } else {
            assert forall|j: int| i <= j < s.len() implies !lex_lt((#[trigger] s[j]).0, k) by {
                if j > i && lex_lt(s[j].0, k) {
                    lemma_lex_transitive(s[i].0, s[j].0, k);
                }
            }
        }
    }
}

/// A row's value is found by its key.
pub proof fn lemma_found(s: Seq<RowV>, i: int)
    requires
        ascending_keys(s),
        0 <= i < s.len(),
    ensures
        row_place(s, s[i].0, 0) == i,
        lookup(s, s[i].0) == Some(s[i].1),
{
    let k = s[i].0;
    let p = row_place(s, k, 0);
    lemma_place(s, k, 0);
    lemma_lex_irreflexive(k);
    if p < i {
        assert(lex_lt(s[p].0, s[i].0));
    }
    if i < p {
        assert(lex_lt(s[i].0, k));
    }
}

/// A key that no row has is not found.
pub proof fn lemma_absent(s: Seq<RowV>, k: Seq<u8>)
    requires
        ascending_keys(s),
        forall|i: int| 0 <= i < s.len() ==> (#[trigger] s[i]).0 != k,
    ensures
        lookup(s, k) is None,
{
    lemma_place(s, k, 0);
}

/// What is put at a key is read there, and nothing else changes.
pub proof fn law_put(s: Seq<RowV>, k: Seq<u8>, v: Seq<u8>)
    requires
        ascending_keys(s),
    ensures
        ascending_keys(with_row(s, k, v)),
        forall|j: Seq<u8>|
            #[trigger] lookup(with_row(s, k, v), j) == (if j == k {
                Some(v)
            } else {
                lookup(s, j)
            }),
{
    let i = row_place(s, k, 0);
    let t = with_row(s, k, v);
    lemma_place(s, k, 0);
    if !has_row(s, k) && i < s.len() {
        lemma_lex_total(s[i].0, k);
    }
    if has_row(s, k) {
        assert(t =~= s.update(i, (k, v)));
        assert forall|a: int, b: int| 0 <= a < b < t.len() implies lex_lt(
            #[trigger] t[a].0,
            #[trigger] t[b].0,
        ) by {
            assert(lex_lt(s[a].0, s[b].0));
        }
    } else {
        assert forall|a: int, b: int| 0 <= a < b < t.len() implies lex_lt(
            #[trigger] t[a].0,
            #[trigger] t[b].0,
        ) by {
            if a == i {
                if b - 1 > i {
                    assert(lex_lt(s[i].0, s[b - 1].0));
                    lemma_lex_transitive(k, s[i].0, s[b - 1].0);
                }
            } else if b == i {
                assert(lex_lt(s[a].0, k));
            } else {
                let x = if a < i { a } else { a - 1 };
                let y = if b < i { b } else { b - 1 };
                assert(lex_lt(s[x].0, s[y].0));
            }
        }
    }
    assert forall|j: Seq<u8>| #[trigger] lookup(t, j) == (if j == k {
        Some(v)
    } else {
        lookup(s, j)
    }) by {
        assert(t[i] == (k, v));
        if j == k {
            lemma_found(t, i);
        } else {
            lemma_place(s, j, 0);
            let p = row_place(s, j, 0);
            if has_row(s, j) {
                let q = if has_row(s, k) || p < i { p } else { p + 1 };
                assert(t[q] == s[p]);
                lemma_found(t, q);
            } else {
                assert forall|a: int| 0 <= a < t.len() implies (#[trigger] t[a]).0 != j by {
                    if t[a].0 == j {
                        let x = if has_row(s, k) || a < i { a } else { a - 1 };
                        assert(a != i);
                        assert(s[x].0 == j);
                        lemma_found(s, x);
                    }
                }
                lemma_absent(t, j);
            }
        }
    }
}

/// A deleted key is gone, and nothing else changes.
pub proof fn law_delete(s: Seq<RowV>, k: Seq<u8>)
    requires
        ascending_keys(s),
    ensures
        ascending_keys(without_row(s, k)),
        forall|j: Seq<u8>|
            #[trigger] lookup(without_row(s, k), j) == (if j == k {
                None
            } else {
                lookup(s, j)
            }),
{
    let i = row_place(s, k, 0);
    let t = without_row(s, k);
    lemma_place(s, k, 0);
    if has_row(s, k) {
        assert forall|a: int, b: int| 0 <= a < b < t.len() implies lex_lt(
            #[trigger] t[a].0,
            #[trigger] t[b].0,
        ) by {
            let x = if a < i { a } else { a + 1 };
            let y = if b < i { b } else { b + 1 };
            assert(lex_lt(s[x].0, s[y].0));
        }
        assert forall|j: Seq<u8>| #[trigger] lookup(t, j) == (if j == k {
            None
        } else {
            lookup(s, j)
        }) by {
            lemma_place(s, j, 0);
            let p = row_place(s, j, 0);
            if j != k && has_row(s, j) {
                let q = if p < i { p } else { p - 1 };
                assert(t[q] == s[p]);
                lemma_found(t, q);
            } else {
                assert forall|a: int| 0 <= a < t.len() implies (#[trigger] t[a]).0 != j by {
                    let x = if a < i { a } else { a + 1 };
                    assert(t[a] == s[x]);
                    if t[a].0 == j {
                        lemma_found(s, x);
                    }
                }
                lemma_absent(t, j);
            }
        }
    }
}

/// A row behind all others is found, and hides none of them.
pub proof fn lemma_append(s: Seq<RowV>, k: Seq<u8>, v: Seq<u8>)
    requires
        ascending_keys(s),
        forall|i: int| 0 <= i < s.len() ==> lex_lt((#[trigger] s[i]).0, k),
    ensures
        ascending_keys(s.push((k, v))),
        forall|j: Seq<u8>|
            #[trigger] lookup(s.push((k, v)), j) == (if j == k {
                Some(v)
            } else {
                lookup(s, j)
            }),
{
    let t = s.push((k, v));
    assert forall|a: int, b: int| 0 <= a < b < t.len() implies lex_lt(
        #[trigger] t[a].0,
        #[trigger] t[b].0,
    ) by {
        if b < s.len() {
            assert(lex_lt(s[a].0, s[b].0));
        } else {
            assert(lex_lt(s[a].0, k));
        }
    }
    lemma_place(s, k, 0);
    lemma_lex_irreflexive(k);
    law_put(s, k, v);
    assert(row_place(s, k, 0) == s.len());
    assert(with_row(s, k, v) =~= t);
}

proof fn lemma_below(s: Seq<RowV>, p: Seq<u8>, inside: bool, n: int, b: Seq<u8>)
    requires
        0 <= n <= s.len(),
        forall|i: int| 0 <= i < n ==> lex_lt((#[trigger] s[i]).0, b),
    ensures
        forall|i: int|
            0 <= i < rows_where(s, p, inside, n).len() ==> lex_lt(
                (#[trigger] rows_where(s, p, inside, n)[i]).0,
                b,
            ),
    decreases n,
{
    if n > 0 {
        lemma_below(s, p, inside, n - 1, b);
        let q = rows_where(s, p, inside, n - 1);
        let t = rows_where(s, p, inside, n);
        assert forall|i: int| 0 <= i < t.len() implies lex_lt((#[trigger] t[i]).0, b) by {
            if i < q.len() {
                assert(t[i] == q[i]);
            } else {
                assert(t[i] == s[n - 1]);
            }
        }
    }
}

proof fn lemma_where(s: Seq<RowV>, p: Seq<u8>, inside: bool, n: int)
    requires
        ascending_keys(s),
        0 <= n <= s.len(),
    ensures
        ascending_keys(rows_where(s, p, inside, n)),
        forall|j: Seq<u8>|
            #[trigger] lookup(rows_where(s, p, inside, n), j) == (if starts_with(j, p) == inside {
                lookup(s.take(n), j)
            } else {
                None
            }),
    decreases n,
{
    let t = rows_where(s, p, inside, n);
    if n == 0 {
        assert(s.take(0) =~= t);
    } else {
        let q = rows_where(s, p, inside, n - 1);
        let r = s[n - 1];
        lemma_where(s, p, inside, n - 1);
        assert forall|i: int| 0 <= i < n - 1 implies lex_lt((#[trigger] s[i]).0, r.0) by {}
        lemma_below(s, p, inside, n - 1, r.0);
        lemma_append(q, r.0, r.1);
        let u = s.take(n - 1);
        assert(ascending_keys(u)) by {
            assert forall|a: int, b: int| 0 <= a < b < u.len() implies lex_lt(
                #[trigger] u[a].0,
                #[trigger] u[b].0,
            ) by {
                assert(lex_lt(s[a].0, s[b].0));
            }
        }
        assert forall|i: int| 0 <= i < u.len() implies lex_lt((#[trigger] u[i]).0, r.0) by {
            assert(lex_lt(s[i].0, r.0));
        }
        lemma_append(u, r.0, r.1);
        assert(s.take(n) =~= u.push((r.0, r.1)));
        assert forall|j: Seq<u8>| #[trigger] lookup(t, j) == (if starts_with(j, p) == inside {
            lookup(s.take(n), j)
        } else {
            None
        }) by {
            assert(lookup(q, j) == (if starts_with(j, p) == inside {
                lookup(u, j)
            } else {
                None
            }));
            assert(lookup(u.push((r.0, r.1)), j) == (if j == r.0 {
                Some(r.1)
            } else {
                lookup(u, j)
            }));
            if starts_with(r.0, p) == inside {
                assert(t == q.push((r.0, r.1)));
                assert(lookup(q.push((r.0, r.1)), j) == (if j == r.0 {
                    Some(r.1)
                } else {
                    lookup(q, j)
                }));
            }
        }
    }
}

/// Clearing a prefix deletes the keys that start with it, and no others.
pub proof fn law_clear(s: Seq<RowV>, p: Seq<u8>)
    requires
        ascending_keys(s),
    ensures
        ascending_keys(cleared(s, p)),
        forall|j: Seq<u8>|
            #[trigger] lookup(cleared(s, p), j) == (if starts_with(j, p) {
                None
            } else {
                lookup(s, j)
            }),
{
    lemma_where(s, p, false, s.len() as int);
    assert(s.take(s.len() as int) =~= s);
}

/// A scan gives the rows whose keys start with the prefix, each once and in
/// ascending key order.
pub proof fn law_scan(s: Seq<RowV>, p: Seq<u8>)
    requires
        ascending_keys(s),
    ensures
        ascending_keys(scan_of(s, p)),
        forall|j: Seq<u8>|
            #[trigger] lookup(scan_of(s, p), j) == (if starts_with(j, p) {
                lookup(s, j)
            } else {
                None
            }),
{
    lemma_where(s, p, true, s.len() as int);
    assert(s.take(s.len() as int) =~= s);
}

/// The 8-byte number at `k`, if there is one.
pub open spec fn u64_at(s: Seq<RowV>, k: Seq<u8>) -> Result<Option<u64>, ErrorV> {
    match lookup(s, k) {
        None => Ok(None),
        Some(b) => if b.len() != 8 {
            Err(ErrorV::Corruption("expected 8-byte u64 meta"@))
        } else {
            Ok(Some(from_le(b) as u64))
        },
    }
}

/// The 8-byte signed number at `k`, if there is one.
pub open spec fn i64_at(s: Seq<RowV>, k: Seq<u8>) -> Result<Option<i64>, ErrorV> {
    match lookup(s, k) {
        None => Ok(None),
        Some(b) => if b.len() != 8 {
            Err(ErrorV::Corruption("expected 8-byte i64 meta"@))
        } else {
            Ok(Some(signed(from_le(b) as u64)))
        },
    }
}

impl Db {
    /// The rows are in order.
    pub open spec fn wf(&self) -> bool {
        ascending_keys(self@)
    }

    /// An empty database.
    pub fn new() -> (r: Db)
        ensures
            r.wf(),
            r@ == Seq::<RowV>::empty(),
    {
        let r = Db { rows: Vec::new() };
        assert(r@ =~= Seq::<RowV>::empty());
        r
    }

    fn place(&self, k: &[u8]) -> (i: usize)
        ensures
            i == row_place(self@, k@, 0),
            i <= self.rows@.len(),
    {
        let mut i: usize = 0;
        while i < self.rows.len() && bytes_lt(self.rows[i].0.as_slice(), k)
            invariant
                i <= self.rows@.len(),
                row_place(self@, k@, 0) == row_place(self@, k@, i as int),
            decreases self.rows@.len() - i,
        {
            assert(self@[i as int] == (self.rows@[i as int].0@, self.rows@[i as int].1@));
            i = i + 1;
        }
        proof {
            if i < self.rows@.len() {
                assert(self@[i as int] == (self.rows@[i as int].0@, self.rows@[i as int].1@));
            }
        }
        i
    }

    /// The value at `k`.
    pub fn get(&self, k: &[u8]) -> (r: Option<Vec<u8>>)
        ensures
            match (r, lookup(self@, k@)) {
                (Some(v), Some(w)) => v@ == w,
                (None, None) => true,
                _ => false,
            },
    {
        let i: usize = self.place(k);
        if i < self.rows.len() {
            assert(self@[i as int] == (self.rows@[i as int].0@, self.rows@[i as int].1@));
            if bytes_eq(self.rows[i].0.as_slice(), k) {
                return Some(copy_bytes(self.rows[i].1.as_slice()));
            }
        }
        None
    }

    /// Puts `v` at `k`.
    pub fn put(&mut self, k: &[u8], v: &[u8])
        requires
            old(self).wf(),
        ensures
            final(self).wf(),
            final(self)@ == with_row(old(self)@, k@, v@),
    {
        proof {
            law_put(self@, k@, v@);
        }
        let i: usize = self.place(k);
        let key: Vec<u8> = copy_bytes(k);
        let val: Vec<u8> = copy_bytes(v);
        if i < self.rows.len() {
            assert(self@[i as int] == (self.rows@[i as int].0@, self.rows@[i as int].1@));
            if bytes_eq(self.rows[i].0.as_slice(), k) {
                self.rows.set(i, (key, val));
                assert(self@ =~= with_row(old(self)@, k@, v@));
                return;
            }
        }
        self.rows.insert(i, (key, val));
        assert(self@ =~= with_row(old(self)@, k@, v@));
    }

    /// Deletes `k`.
    pub fn delete(&mut self, k: &[u8])
        requires
            old(self).wf(),
        ensures
            final(self).wf(),
            final(self)@ == without_row(old(self)@, k@),
    {
        proof {
            law_delete(self@, k@);
        }
        let i: usize = self.place(k);
        if i < self.rows.len() {
            assert(self@[i as int] == (self.rows@[i as int].0@, self.rows@[i as int].1@));
            if bytes_eq(self.rows[i].0.as_slice(), k) {
                self.rows.remove(i);
                assert(self@ =~= without_row(old(self)@, k@));
            }
        }
    }

    /// The rows under the prefix `p`, in key order.
    pub fn scan(&self, p: &[u8]) -> (r: Vec<(Vec<u8>, Vec<u8>)>)
        ensures
            rows_v(r@) == scan_of(self@, p@),
    {
        let mut r: Vec<(Vec<u8>, Vec<u8>)> = Vec::new();
        let mut i: usize = 0;
        assert(rows_v(r@) =~= rows_where(self@, p@, true, 0));
        while i < self.rows.len()
            invariant
                i <= self.rows@.len(),
                rows_v(r@) == rows_where(self@, p@, true, i as int),
            decreases self.rows@.len() - i,
        {
            assert(self@[i as int] == (self.rows@[i as int].0@, self.rows@[i as int].1@));
            if bytes_start_with(self.rows[i].0.as_slice(), p) {
                let ghost before = r@;
                let key: Vec<u8> = copy_bytes(self.rows[i].0.as_slice());
                let val: Vec<u8> = copy_bytes(self.rows[i].1.as_slice());
                r.push((key, val));
                assert(rows_v(r@) =~= rows_v(before).push(self@[i as int]));
            }
            i = i + 1;
        }
        r
    }

    /// Deletes every key under the prefix `p`.
    pub fn clear(&mut self, p: &[u8])
        requires
            old(self).wf(),
        ensures
            final(self).wf(),
            final(self)@ == cleared(old(self)@, p@),
    {
        proof {
            law_clear(self@, p@);
        }
        let mut r: Vec<(Vec<u8>, Vec<u8>)> = Vec::new();
        let mut i: usize = 0;
        assert(rows_v(r@) =~= rows_where(self@, p@, false, 0));
        while i < self.rows.len()
            invariant
                *self == *old(self),
                i <= self.rows@.len(),
                rows_v(r@) == rows_where(self@, p@, false, i as int),
            decreases self.rows@.len() - i,
        {
            assert(self@[i as int] == (self.rows@[i as int].0@, self.rows@[i as int].1@));
            if !bytes_start_with(self.rows[i].0.as_slice(), p) {
                let ghost before = r@;
                let key: Vec<u8> = copy_bytes(self.rows[i].0.as_slice());
                let val: Vec<u8> = copy_bytes(self.rows[i].1.as_slice());
                r.push((key, val));
                assert(rows_v(r@) =~= rows_v(before).push(self@[i as int]));
            }
            i = i + 1;
        }
        self.rows = r;
    }

    /// A copy of the database.
    pub fn copy(&self) -> (r: Db)
        requires
            self.wf(),
        ensures
            r.wf(),
            r@ == self@,
    {
        let mut rows: Vec<(Vec<u8>, Vec<u8>)> = Vec::new();
        let mut i: usize = 0;
        while i < self.rows.len()
            invariant
                i <= self.rows@.len(),
                rows@.len() == i,
                forall|j: int|
                    0 <= j < i ==> (#[trigger] rows@[j]).0@ == self.rows@[j].0@ && rows@[j].1@
                        == self.rows@[j].1@,
            decreases self.rows@.len() - i,
        {
            let key: Vec<u8> = copy_bytes(self.rows[i].0.as_slice());
            let val: Vec<u8> = copy_bytes(self.rows[i].1.as_slice());
            rows.push((key, val));
            i = i + 1;
        }
        let r = Db { rows };
        assert(r@ =~= self@);
        r
    }

    /// The 8-byte number at `k`, if there is one.
    pub fn read_u64(&self, k: &[u8]) -> (r: Result<Option<u64>, Error>)
        ensures
            match (r, u64_at(self@, k@)) {
                (Ok(x), Ok(y)) => x == y,
                (Err(e), Err(w)) => e@ == w,
                _ => false,
            },
    {
        match self.get(k) {
            None => Ok(None),
            Some(b) => {
                if b.len() != 8 {
                    return corruption("expected 8-byte u64 meta");
                }
                proof {
                    lemma_from_le_bound(b@);
                    lemma_pow256_8();
                }
                Ok(Some(read_le(b.as_slice())))
            },
        }
    }

    /// The 8-byte signed number at `k`, if there is one.
    pub fn read_i64(&self, k: &[u8]) -> (r: Result<Option<i64>, Error>)
        ensures
            match (r, i64_at(self@, k@)) {
                (Ok(x), Ok(y)) => x == y,
                (Err(e), Err(w)) => e@ == w,
                _ => false,
            },
    {
        match self.get(k) {
            None => Ok(None),
            Some(b) => {
                if b.len() != 8 {
                    return corruption("expected 8-byte i64 meta");
                }
                proof {
                    lemma_from_le_bound(b@);
                    lemma_pow256_8();
                }
                Ok(Some(bits_i64(read_le(b.as_slice()))))
            },
        }
    }
}

} // verus!
