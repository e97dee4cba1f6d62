//! Deep copies: what a placement boundary does to values.

use crate::crossing::extends;
use crate::value::{array_at, map_at, tagged_at, too_deep, Cell, CellV, Heap, Value};
use vstd::prelude::*;
use vstd::string::*;

verus! {

/// The cells once something is copied, and the copy.
pub type Copied<T> = (Seq<CellV>, Result<T, Seq<char>>);

/// The cells once `v` is copied, and the copy: arrays, maps and tagged values
/// are made anew. Nesting beyond `d` is too deep.
pub open spec fn deep_copied(h: Seq<CellV>, d: nat, v: Value) -> Copied<Value>
    decreases d, 0int, 0int,
{
    match v {
        Value::Array(i) => if d == 0 {
            (h, Err(too_deep()))
        } else {
            let xs = array_at(h, i);
            let (g, r) = copied_items(h, (d - 1) as nat, xs, xs.len() as int);
            match r {
                Ok(ys) => (g.push(CellV::Array(ys)), Ok(Value::Array(g.len() as usize))),
                Err(m) => (g, Err(m)),
            }
        },
        Value::Dict(i) => if d == 0 {
            (h, Err(too_deep()))
        } else {
            let m = map_at(h, i);
            let (g, r) = copied_entries(h, (d - 1) as nat, m, m.len() as int);
            match r {
                Ok(es) => (g.push(CellV::Dict(es)), Ok(Value::Dict(g.len() as usize))),
                Err(m) => (g, Err(m)),
            }
        },
        Value::Tagged(i) => if d == 0 {
            (h, Err(too_deep()))
        } else {
            let (t, p) = tagged_at(h, i);
            let (g, r) = deep_copied(h, (d - 1) as nat, p);
            match r {
                Ok(q) => (g.push(CellV::Tagged(t, q)), Ok(Value::Tagged(g.len() as usize))),
                Err(m) => (g, Err(m)),
            }
        },
        _ => (h, Ok(v)),
    }
}

/// The cells once the first `n` items are copied, and the copies.
pub open spec fn copied_items(h: Seq<CellV>, d: nat, xs: Seq<Value>, n: int) -> Copied<Seq<Value>>
    decreases d, 1int, n,
{
    if n <= 0 || n > xs.len() {
        (h, Ok(Seq::empty()))
    } else {
        let (g, r) = copied_items(h, d, xs, n - 1);
        match r {
            Err(m) => (g, Err(m)),
            Ok(ys) => {
                let (k, s) = deep_copied(g, d, xs[n - 1]);
                match s {
                    Ok(y) => (k, Ok(ys.push(y))),
                    Err(m) => (k, Err(m)),
                }
            },
        }
    }
}

/// The cells once the first `n` entries are copied, and the copies.
pub open spec fn copied_entries(h: Seq<CellV>, d: nat, m: Seq<(Value, Value)>, n: int) -> Copied<
    Seq<(Value, Value)>,
>
    decreases d, 1int, n,
{
    if n <= 0 || n > m.len() {
        (h, Ok(Seq::empty()))
    } else {
        let (g, r) = copied_entries(h, d, m, n - 1);
        match r {
            Err(e) => (g, Err(e)),
            Ok(es) => {
                let (a, s) = deep_copied(g, d, m[n - 1].0);
                match s {
                    Err(e) => (a, Err(e)),
                    Ok(k) => {
                        let (b, t) = deep_copied(a, d, m[n - 1].1);
                        match t {
                            Err(e) => (b, Err(e)),
                            Ok(v) => (b, Ok(es.push((k, v)))),
                        }
                    },
                }
            },
        }
    }
}

proof fn lemma_items_err(h: Seq<CellV>, d: nat, xs: Seq<Value>, i: int, n: int)
    requires
        0 <= i <= n <= xs.len(),
        copied_items(h, d, xs, i).1 is Err,
    ensures
        copied_items(h, d, xs, n) == copied_items(h, d, xs, i),
    decreases n,
{
    if i < n {
        lemma_items_err(h, d, xs, i, n - 1);
    }
}

proof fn lemma_entries_err(h: Seq<CellV>, d: nat, m: Seq<(Value, Value)>, i: int, n: int)
    requires
        0 <= i <= n <= m.len(),
        copied_entries(h, d, m, i).1 is Err,
    ensures
        copied_entries(h, d, m, n) == copied_entries(h, d, m, i),
    decreases n,
{
    if i < n {
        lemma_entries_err(h, d, m, i, n - 1);
    }
}

/// The copy is the one that the model says.
pub open spec fn same_copy(r: Result<Value, String>, s: Result<Value, Seq<char>>) -> bool {
    match (r, s) {
        (Ok(x), Ok(y)) => x == y,
        (Err(x), Err(y)) => x@ == y,
        _ => false,
    }
}

fn deep() -> (r: String)
    ensures
        r@ == too_deep(),
{
    "value is nested too deeply".to_owned()
}

impl Heap {
    /// A new map without entries.
    pub fn empty_map(&mut self) -> (v: Value)
        ensures
            final(self)@ == old(self)@.push(CellV::Dict(Seq::empty())),
            v == Value::Dict(old(self)@.len() as usize),
    {
        let none: Vec<(Value, Value)> = Vec::new();
        assert(none@ =~= Seq::<(Value, Value)>::empty());
        self.map(none)
    }

    fn copy_within(&mut self, d: usize, v: Value) -> (r: Result<Value, String>)
        ensures
            final(self)@ == deep_copied(old(self)@, d as nat, v).0,
            same_copy(r, deep_copied(old(self)@, d as nat, v).1),
        decreases d, 0int,
    {
        match v {
            Value::Array(i) => {
                if d == 0 {
                    return Err(deep());
                }
                let xs: Vec<Value> = self.items(i);
                let ys: Vec<Value> = self.copy_items(d - 1, &xs)?;
                Ok(self.array(ys))
            },
            Value::Dict(i) => {
                if d == 0 {
                    return Err(deep());
                }
                let m: Vec<(Value, Value)> = self.entries(i);
                let es: Vec<(Value, Value)> = self.copy_pairs(d - 1, &m)?;
                Ok(self.map(es))
            },
            Value::Tagged(i) => {
                if d == 0 {
                    return Err(deep());
                }
                let (tag, p) = self.tagged_at(i);
                let t: String = tag.to_owned();
                let q: Value = self.copy_within(d - 1, p)?;
                let at: usize = self.put(Cell::Tagged(t, q));
                Ok(Value::Tagged(at))
            },
            _ => Ok(v),
        }
    }

    fn copy_items(&mut self, d: usize, xs: &Vec<Value>) -> (r: Result<Vec<Value>, String>)
        ensures
            ({
                let (g, s) = copied_items(old(self)@, d as nat, xs@, xs@.len() as int);
                &&& final(self)@ == g
                &&& match (r, s) {
                    (Ok(x), Ok(y)) => x@ == y,
                    (Err(x), Err(y)) => x@ == y,
                    _ => false,
                }
            }),
        decreases d, 1int,
    {
        let ghost h = self@;
        let mut out: Vec<Value> = Vec::new();
        let mut i: usize = 0;
        assert(out@ =~= Seq::<Value>::empty());
        while i < xs.len()
            invariant
                i <= xs@.len(),
                h == old(self)@,
                copied_items(h, d as nat, xs@, i as int) == (
                    self@,
                    Ok::<Seq<Value>, Seq<char>>(out@),
                ),
            decreases xs@.len() - i,
        {
            match self.copy_within(d, xs[i]) {
                Ok(y) => {
                    out.push(y);
                },
                Err(m) => {
                    proof {
                        lemma_items_err(h, d as nat, xs@, i + 1, xs@.len() as int);
                    }
                    return Err(m);
                },
            }
            i = i + 1;
        }
        Ok(out)
    }

    fn copy_pairs(&mut self, d: usize, m: &Vec<(Value, Value)>) -> (r: Result<
        Vec<(Value, Value)>,
        String,
    >)
        ensures
            ({
                let (g, s) = copied_entries(old(self)@, d as nat, m@, m@.len() as int);
                &&& final(self)@ == g
                &&& match (r, s) {
                    (Ok(x), Ok(y)) => x@ == y,
                    (Err(x), Err(y)) => x@ == y,
                    _ => false,
                }
            }),
        decreases d, 1int,
    {
        let ghost h = self@;
        let mut out: Vec<(Value, Value)> = Vec::new();
        let mut i: usize = 0;
        assert(out@ =~= Seq::<(Value, Value)>::empty());
        while i < m.len()
            invariant
                i <= m@.len(),
                h == old(self)@,
                copied_entries(h, d as nat, m@, i as int) == (
                    self@,
                    Ok::<Seq<(Value, Value)>, Seq<char>>(out@),
                ),
            decreases m@.len() - i,
        {
            let k: Value = match self.copy_within(d, m[i].0) {
                Ok(k) => k,
                Err(e) => {
                    proof {
                        lemma_entries_err(h, d as nat, m@, i + 1, m@.len() as int);
                    }
                    return Err(e);
                },
            };
            match self.copy_within(d, m[i].1) {
                Ok(v) => {
                    out.push((k, v));
                },
                Err(e) => {
                    proof {
                        lemma_entries_err(h, d as nat, m@, i + 1, m@.len() as int);
                    }
                    return Err(e);
                },
            }
            i = i + 1;
        }
        Ok(out)
    }
}

/// A copy of `v` that shares no array and no map with it. A value that holds
/// itself has none.
pub fn deep_copy(heap: &mut Heap, v: Value) -> (r: Result<Value, String>)
    ensures
        final(heap)@ == deep_copied(old(heap)@, old(heap)@.len(), v).0,
        same_copy(r, deep_copied(old(heap)@, old(heap)@.len(), v).1),
{
    let d: usize = heap.cells.len();
    heap.copy_within(d, v)
}

/// A copy leaves what was there as it is, and what can change of it is new.
pub proof fn law_copy_is_new(h: Seq<CellV>, d: nat, v: Value)
    requires
        deep_copied(h, d, v).0.len() <= usize::MAX,
    ensures
        extends(h, deep_copied(h, d, v).0),
        match deep_copied(h, d, v).1 {
            Ok(Value::Array(i)) => h.len() <= i,
            Ok(Value::Dict(i)) => h.len() <= i,
            Ok(Value::Tagged(i)) => h.len() <= i,
            _ => true,
        },
{
    lemma_copy_grows(h, d, v);
    match v {
        Value::Array(i) => {
            if d > 0 {
                let xs = array_at(h, i);
                lemma_items_grow(h, (d - 1) as nat, xs, xs.len() as int);
            }
        },
        Value::Dict(i) => {
            if d > 0 {
                let m = map_at(h, i);
                lemma_entries_grow(h, (d - 1) as nat, m, m.len() as int);
            }
        },
        Value::Tagged(i) => {
            if d > 0 {
                lemma_copy_grows(h, (d - 1) as nat, tagged_at(h, i).1);
            }
        },
        _ => {},
    }
}

proof fn lemma_copy_grows(h: Seq<CellV>, d: nat, v: Value)
    ensures
        extends(h, deep_copied(h, d, v).0),
    decreases d, 0int, 0int,
{
    if d > 0 {
        match v {
            Value::Array(i) => {
                let xs = array_at(h, i);
                lemma_items_grow(h, (d - 1) as nat, xs, xs.len() as int);
            },
            Value::Dict(i) => {
                let m = map_at(h, i);
                lemma_entries_grow(h, (d - 1) as nat, m, m.len() as int);
            },
            Value::Tagged(i) => {
                lemma_copy_grows(h, (d - 1) as nat, tagged_at(h, i).1);
            },
            _ => {},
        }
    }
}

proof fn lemma_items_grow(h: Seq<CellV>, d: nat, xs: Seq<Value>, n: int)
    ensures
        extends(h, copied_items(h, d, xs, n).0),
    decreases d, 1int, n,
{
    if 0 < n <= xs.len() {
        lemma_items_grow(h, d, xs, n - 1);
        lemma_copy_grows(copied_items(h, d, xs, n - 1).0, d, xs[n - 1]);
    }
}

proof fn lemma_entries_grow(h: Seq<CellV>, d: nat, m: Seq<(Value, Value)>, n: int)
    ensures
        extends(h, copied_entries(h, d, m, n).0),
    decreases d, 1int, n,
{
    if 0 < n <= m.len() {
        lemma_entries_grow(h, d, m, n - 1);
        let g = copied_entries(h, d, m, n - 1).0;
        lemma_copy_grows(g, d, m[n - 1].0);
        lemma_copy_grows(deep_copied(g, d, m[n - 1].0).0, d, m[n - 1].1);
    }
}

} // verus!
