//! Typed paths: composable, data-only addresses into a durable schema.
//!
//! A `Path<S>` is a key prefix and a phantom schema type. Navigation methods are
//! gated by the concrete schema, so only legal steps compile; terminal
//! operations return reified writes, or read directly from a database.

use crate::bytes::{bytes_eq, copy_bytes, copy_range, le, le_bytes, starts_with};
use crate::codec::{
    child_key, child_of, child_scan_prefix, meta_of, order_i64, order_u64, ordered_i64, ordered_u64,
    put_segment, read_segment, segment, segment_at, uvarint, DATA,
};
use crate::data::{
    cbor_bytes, cbor_read, copy_data, decode, encode, items_v, lemma_items, lemma_items_push, plain,
    reads_as, Data, DataV,
};
use crate::db::{lookup, rows_v, scan_of, with_row, without_row, Db, RowV};
use crate::error::{corruption, Error, ErrorV};
use crate::float::FloatTable;
use crate::op::{
    committed, deque_head, deque_tail, empty_batch, head_key, head_name, index_bytes, len_key,
    len_name, list_len, recorded, tail_key, tail_name, Batch, Op, OpV, Write,
};
use crate::schema::{
    decode_sum, encode_sum, i64_bits, sum_bytes, sum_of, Deque, Dict, Leaf, List, Schema, Sum,
    Summable,
};
use crate::shape::field_segment;
use core::marker::PhantomData;
use vstd::prelude::*;
use vstd::string::*;
use vstd::utf8::encode_utf8;

verus! {

/// A typed address into a durable schema: the key prefix it lowers to.
pub struct Path<S> {
    pub prefix: Vec<u8>,
    pub schema: PhantomData<S>,
}

impl<S> View for Path<S> {
    type V = Seq<u8>;

    open spec fn view(&self) -> Seq<u8> {
        self.prefix@
    }
}

impl<S: Schema> Path<S> {
    /// The empty-prefixed root of a schema.
    pub fn root() -> (r: Path<S>)
        ensures
            r@ == Seq::<u8>::empty(),
    {
        let r = Path::from_prefix(Vec::new());
        assert(r@ =~= Seq::<u8>::empty());
        r
    }

    /// A root namespaced under `name`, so that several schemas can share one
    /// database.
    pub fn namespaced(name: &str) -> (r: Path<S>)
        ensures
            r@ == segment(encode_utf8(name@)),
    {
        let mut prefix: Vec<u8> = Vec::new();
        put_segment(&mut prefix, name.as_bytes());
        assert(prefix@ =~= segment(encode_utf8(name@)));
        Path::from_prefix(prefix)
    }
}

impl<S> Path<S> {
    pub fn from_prefix(prefix: Vec<u8>) -> (r: Path<S>)
        ensures
            r@ == prefix@,
    {
        Path { prefix, schema: PhantomData }
    }

    /// The key prefix this path addresses.
    pub fn prefix(&self) -> (r: &[u8])
        ensures
            r@ == self@,
    {
        self.prefix.as_slice()
    }

    /// The address of child `seg`.
    pub fn child<S2>(&self, seg: &[u8]) -> (r: Path<S2>)
        ensures
            r@ == child_of(self@, seg@),
    {
        Path::from_prefix(child_key(self.prefix.as_slice(), seg))
    }

    /// Navigate to a record field, by its declaration order.
    pub fn child_field<S2>(&self, field_id: u32) -> (r: Path<S2>)
        ensures
            r@ == child_of(self@, uvarint(field_id as nat)),
    {
        let seg: Vec<u8> = field_segment(field_id);
        self.child(seg.as_slice())
    }

    fn put_here(&self, value: Vec<u8>) -> (r: Write)
        ensures
            r@ == (OpV::Put { key: self@, value: value@ }),
    {
        Write::new(Op::Put { key: copy_bytes(self.prefix.as_slice()), value })
    }

    fn delete_here(&self) -> (r: Write)
        ensures
            r@ == (OpV::Delete { key: self@ }),
    {
        Write::new(Op::Delete { key: copy_bytes(self.prefix.as_slice()) })
    }

    fn clear_here(&self) -> (r: Write)
        ensures
            r@ == (OpV::DeletePrefix { prefix: self@ }),
    {
        Write::new(Op::DeletePrefix { prefix: copy_bytes(self.prefix.as_slice()) })
    }
}

/// The item at the leaf `k`.
pub open spec fn leaf_at(s: Seq<RowV>, k: Seq<u8>) -> Result<Option<DataV>, ErrorV> {
    match lookup(s, k) {
        None => Ok(None),
        Some(b) => match cbor_read(b) {
            Ok(d) => Ok(Some(d)),
            Err(m) => Err(ErrorV::Deserialize(m)),
        },
    }
}

/// The read gave the item that the rows hold.
pub open spec fn same_item(r: Result<Option<Data>, Error>, s: Result<Option<DataV>, ErrorV>) -> bool {
    match (r, s) {
        (Ok(Some(d)), Ok(Some(v))) => d@ == v,
        (Ok(None), Ok(None)) => true,
        (Err(e), Err(w)) => e@ == w,
        _ => false,
    }
}

/// The item at the leaf `k`.
pub fn read_leaf(db: &Db, k: &[u8]) -> (r: Result<Option<Data>, Error>)
    ensures
        same_item(r, leaf_at(db@, k@)),
{
    match db.get(k) {
        None => Ok(None),
        Some(b) => match decode(b.as_slice()) {
            Ok(d) => Ok(Some(d)),
            Err(m) => Err(Error::Deserialize(m)),
        },
    }
}

impl Path<Leaf> {
    /// Read the item at this leaf, if present.
    pub fn get(&self, db: &Db) -> (r: Result<Option<Data>, Error>)
        ensures
            same_item(r, leaf_at(db@, self@)),
    {
        read_leaf(db, self.prefix.as_slice())
    }

    /// A reified blind write that sets this leaf to `value`.
    pub fn set(&self, value: &Data) -> (r: Write)
        ensures
            r@ == (OpV::Put { key: self@, value: cbor_bytes(value@) }),
            plain(value@, crate::data::cbor_depth()) ==> reads_as(cbor_bytes(value@), value@),
    {
        self.put_here(encode(value))
    }

    /// A reified blind write that removes this leaf.
    pub fn delete(&self) -> (r: Write)
        ensures
            r@ == (OpV::Delete { key: self@ }),
    {
        self.delete_here()
    }
}

/// The accumulator of kind `tag` at `k`; zero where it is absent.
pub open spec fn sum_at(s: Seq<RowV>, tag: u8, k: Seq<u8>) -> Result<u64, ErrorV> {
    match lookup(s, k) {
        None => Ok(0),
        Some(b) => match sum_of(b) {
            Some((t, bits)) => if t == tag {
                Ok(bits)
            } else {
                Err(ErrorV::Corruption("malformed Sum accumulator"@))
            },
            None => Err(ErrorV::Corruption("malformed Sum accumulator"@)),
        },
    }
}

impl<N: Summable> Path<Sum<N>> {
    /// Read the accumulated value (zero when absent).
    pub fn get(&self, db: &Db) -> (r: Result<N, Error>)
        ensures
            match (r, sum_at(db@, N::tag_of(), self@)) {
                (Ok(n), Ok(bits)) => n == N::number_of(bits),
                (Err(e), Err(w)) => e@ == w,
                _ => false,
            },
    {
        match db.get(self.prefix.as_slice()) {
            None => Ok(N::zero()),
            Some(b) => match decode_sum::<N>(b.as_slice()) {
                Some(n) => Ok(n),
                None => corruption("malformed Sum accumulator"),
            },
        }
    }

    /// A reified blind merge that adds `delta` to the accumulator. It never
    /// reads the current value.
    pub fn add(&self, delta: N) -> (r: Write)
        ensures
            r@ == (OpV::Merge { key: self@, value: sum_bytes(N::tag_of(), delta.bits_of()) }),
    {
        Write::new(
            Op::Merge { key: copy_bytes(self.prefix.as_slice()), value: encode_sum(delta) },
        )
    }

    /// A reified blind write that sets the accumulator to an exact value.
    pub fn set(&self, value: N) -> (r: Write)
        ensures
            r@ == (OpV::Put { key: self@, value: sum_bytes(N::tag_of(), value.bits_of()) }),
    {
        self.put_here(encode_sum(value))
    }

    /// A reified blind write that removes the accumulator.
    pub fn delete(&self) -> (r: Write)
        ensures
            r@ == (OpV::Delete { key: self@ }),
    {
        self.delete_here()
    }
}

/// The keys of the map entries that the first `n` rows belong to, each once for
/// rows that follow one another, and the segment of the last.
pub open spec fn keys_in(rows: Seq<RowV>, skip: int, n: int) -> Result<
    (Seq<DataV>, Option<Seq<u8>>),
    ErrorV,
>
    decreases n,
{
    if n <= 0 || n > rows.len() {
        Ok((Seq::empty(), None))
    } else {
        match keys_in(rows, skip, n - 1) {
            Err(e) => Err(e),
            Ok((ks, last)) => match segment_at(rows[n - 1].0.skip(skip)) {
                None => Err(ErrorV::Corruption("malformed map entry key"@)),
                Some((seg, _)) => if last == Some(seg) {
                    Ok((ks, last))
                } else {
                    match cbor_read(seg) {
                        Err(m) => Err(ErrorV::Deserialize(m)),
                        Ok(d) => Ok((ks.push(d), Some(seg))),
                    }
                },
            },
        }
    }
}

/// The rows of the children of the location `prefix`.
pub open spec fn child_rows(s: Seq<RowV>, prefix: Seq<u8>) -> Seq<RowV> {
    scan_of(s, prefix.push(DATA))
}

/// The keys of the map at `prefix`, in stored order.
pub open spec fn keys_at(s: Seq<RowV>, prefix: Seq<u8>) -> Result<Seq<DataV>, ErrorV> {
    let rows = child_rows(s, prefix);
    match keys_in(rows, prefix.len() as int + 1, rows.len() as int) {
        Err(e) => Err(e),
        Ok((ks, _)) => Ok(ks),
    }
}

proof fn lemma_keys_err(rows: Seq<RowV>, skip: int, i: int, n: int)
    requires
        0 <= i <= n <= rows.len(),
        keys_in(rows, skip, i) is Err,
    ensures
        keys_in(rows, skip, n) == keys_in(rows, skip, i),
    decreases n,
{
    if i < n {
        lemma_keys_err(rows, skip, i, n - 1);
    }
}

/// Every row under a prefix is longer than it.
pub proof fn lemma_scan_starts(s: Seq<RowV>, p: Seq<u8>, n: int)
    requires
        0 <= n <= s.len(),
    ensures
        forall|i: int|
            0 <= i < crate::db::rows_where(s, p, true, n).len() ==> starts_with(
                (#[trigger] crate::db::rows_where(s, p, true, n)[i]).0,
                p,
            ),
    decreases n,
{
    if n > 0 {
        lemma_scan_starts(s, p, n - 1);
        let q = crate::db::rows_where(s, p, true, n - 1);
        let t = crate::db::rows_where(s, p, true, n);
        assert forall|i: int| 0 <= i < t.len() implies starts_with((#[trigger] t[i]).0, p) by {
            if i < q.len() {
                assert(t[i] == q[i]);
            } else {
                assert(t[i] == s[n - 1]);
            }
        }
    }
}

/// The keys of the map at `prefix`, in stored order.
pub fn map_keys(db: &Db, prefix: &[u8]) -> (r: Result<Vec<Data>, Error>)
    ensures
        match (r, keys_at(db@, prefix@)) {
            (Ok(v), Ok(w)) => items_v(v) == w,
            (Err(e), Err(w)) => e@ == w,
            _ => false,
        },
{
    let scan: Vec<u8> = child_scan_prefix(prefix);
    let rows: Vec<(Vec<u8>, Vec<u8>)> = db.scan(scan.as_slice());
    let ghost rv = rows_v(rows@);
    let ghost skip = scan@.len() as int;
    proof {
        lemma_scan_starts(db@, scan@, db@.len() as int);
    }
    let mut out: Vec<Data> = Vec::new();
    let mut last: Option<Vec<u8>> = None;
    let mut i: usize = 0;
    proof {
        lemma_items(out);
        assert(items_v(out) =~= Seq::<DataV>::empty());
    }
    while i < rows.len()
        invariant
            i <= rows@.len(),
            rv == rows_v(rows@),
            rv == child_rows(db@, prefix@),
            skip == scan@.len(),
            skip == prefix@.len() + 1,
            forall|j: int| 0 <= j < rv.len() ==> starts_with((#[trigger] rv[j]).0, scan@),
            keys_in(rv, skip, i as int) == Ok::<(Seq<DataV>, Option<Seq<u8>>), ErrorV>(
                (
                    items_v(out),
                    match last {
                        Some(l) => Some(l@),
                        None => None,
                    },
                ),
            ),
        decreases rows@.len() - i,
    {
        assert(rv[i as int] == (rows@[i as int].0@, rows@[i as int].1@));
        let key = rows[i].0.as_slice();
        let rest: Vec<u8> = copy_range(key, scan.len(), key.len());
        assert(rest@ =~= key@.skip(skip));
        match read_segment(rest.as_slice()) {
            None => {
                proof {
                    lemma_keys_err(rv, skip, i + 1, rv.len() as int);
                }
                return corruption("malformed map entry key");
            },
            Some((seg, _)) => {
                let same = match &last {
                    Some(l) => bytes_eq(l.as_slice(), seg),
                    None => false,
                };
                if !same {
                    match decode(seg) {
                        Err(m) => {
                            proof {
                                lemma_keys_err(rv, skip, i + 1, rv.len() as int);
                            }
                            return Err(Error::Deserialize(m));
                        },
                        Ok(d) => {
                            let ghost before = out;
                            out.push(d);
                            proof {
                                lemma_items_push(before, out, d);
                            }
                            last = Some(copy_bytes(seg));
                        },
                    }
                }
            },
        }
        i = i + 1;
    }
    Ok(out)
}

impl<V: Schema> Path<Dict<V>> {
    /// Navigate to the sub-schema stored under `key`.
    pub fn key(&self, key: &Data) -> (r: Path<V>)
        ensures
            r@ == child_of(self@, cbor_bytes(key@)),
            plain(key@, crate::data::cbor_depth()) ==> reads_as(cbor_bytes(key@), key@),
    {
        let k: Vec<u8> = encode(key);
        self.child(k.as_slice())
    }

    /// A reified write that deletes the entire map (all entries and metadata).
    pub fn clear(&self) -> (r: Write)
        ensures
            r@ == (OpV::DeletePrefix { prefix: self@ }),
    {
        self.clear_here()
    }

    /// All keys present in the map, in stored (encoded-byte) order.
    pub fn keys(&self, db: &Db) -> (r: Result<Vec<Data>, Error>)
        ensures
            match (r, keys_at(db@, self@)) {
                (Ok(v), Ok(w)) => items_v(v) == w,
                (Err(e), Err(w)) => e@ == w,
                _ => false,
            },
    {
        map_keys(db, self.prefix.as_slice())
    }

    /// The number of distinct keys in the map.
    pub fn len(&self, db: &Db) -> (r: Result<usize, Error>)
        ensures
            match (r, keys_at(db@, self@)) {
                (Ok(n), Ok(w)) => n == w.len(),
                (Err(e), Err(w)) => e@ == w,
                _ => false,
            },
    {
        let ks: Vec<Data> = self.keys(db)?;
        proof {
            lemma_items(ks);
        }
        Ok(ks.len())
    }

    /// Whether the map has no entries.
    pub fn is_empty(&self, db: &Db) -> (r: bool)
        ensures
            r == (child_rows(db@, self@).len() == 0),
    {
        let scan: Vec<u8> = child_scan_prefix(self.prefix.as_slice());
        let rows: Vec<(Vec<u8>, Vec<u8>)> = db.scan(scan.as_slice());
        assert(rows_v(rows@).len() == rows@.len());
        rows.len() == 0
    }

    /// Whether `key` is present: there is a key at or under the child prefix.
    pub fn contains(&self, db: &Db, key: &Data) -> (r: bool)
        ensures
            r == (scan_of(db@, child_of(self@, cbor_bytes(key@))).len() > 0),
    {
        let child: Path<V> = self.key(key);
        let rows: Vec<(Vec<u8>, Vec<u8>)> = db.scan(child.prefix.as_slice());
        assert(rows_v(rows@).len() == rows@.len());
        rows.len() > 0
    }

    /// All keys paired with paths to their values.
    pub fn entries(&self, db: &Db) -> (r: Result<Vec<(Data, Path<V>)>, Error>)
        ensures
            match (r, keys_at(db@, self@)) {
                (Ok(v), Ok(w)) => {
                    &&& v@.len() == w.len()
                    &&& forall|i: int|
                        0 <= i < v@.len() ==> (#[trigger] v@[i]).0@ == w[i] && v@[i].1@ == child_of(
                            self@,
                            cbor_bytes(w[i]),
                        )
                },
                (Err(e), Err(w)) => e@ == w,
                _ => false,
            },
    {
        let keys: Vec<Data> = self.keys(db)?;
        let ghost kv = items_v(keys);
        proof {
            lemma_items(keys);
        }
        let mut out: Vec<(Data, Path<V>)> = Vec::new();
        let mut i: usize = 0;
        while i < keys.len()
            invariant
                i <= keys@.len(),
                kv == items_v(keys),
                kv.len() == keys@.len(),
                forall|j: int| 0 <= j < keys@.len() ==> #[trigger] kv[j] == keys@[j]@,
                out@.len() == i,
                forall|j: int|
                    0 <= j < i ==> (#[trigger] out@[j]).0@ == kv[j] && out@[j].1@ == child_of(
                        self@,
                        cbor_bytes(kv[j]),
                    ),
            decreases keys@.len() - i,
        {
            let ghost k = kv[i as int];
            let path: Path<V> = self.key(&keys[i]);
            out.push((copy_data(&keys[i]), path));
            i = i + 1;
        }
        Ok(out)
    }
}

/// The pairs of a leaf-valued map in the first `n` rows.
pub open spec fn leaf_pairs(rows: Seq<RowV>, skip: int, n: int) -> Result<
    Seq<(DataV, DataV)>,
    ErrorV,
>
    decreases n,
{
    if n <= 0 || n > rows.len() {
        Ok(Seq::empty())
    } else {
        match leaf_pairs(rows, skip, n - 1) {
            Err(e) => Err(e),
            Ok(ps) => {
                let rest = rows[n - 1].0.skip(skip);
                match segment_at(rest) {
                    None => Err(ErrorV::Corruption("malformed map entry key"@)),
                    Some((seg, used)) => if used != rest.len() {
                        Err(ErrorV::Corruption("unexpected nested key in leaf map"@))
                    } else {
                        match cbor_read(seg) {
                            Err(m) => Err(ErrorV::Deserialize(m)),
                            Ok(k) => match cbor_read(rows[n - 1].1) {
                                Err(m) => Err(ErrorV::Deserialize(m)),
                                Ok(v) => Ok(ps.push((k, v))),
                            },
                        }
                    },
                }
            },
        }
    }
}

/// The pairs of the leaf-valued map at `prefix`, in stored order.
pub open spec fn leaf_pairs_at(s: Seq<RowV>, prefix: Seq<u8>) -> Result<
    Seq<(DataV, DataV)>,
    ErrorV,
> {
    let rows = child_rows(s, prefix);
    leaf_pairs(rows, prefix.len() as int + 1, rows.len() as int)
}

proof fn lemma_leaf_pairs_err(rows: Seq<RowV>, skip: int, i: int, n: int)
    requires
        0 <= i <= n <= rows.len(),
        leaf_pairs(rows, skip, i) is Err,
    ensures
        leaf_pairs(rows, skip, n) == leaf_pairs(rows, skip, i),
    decreases n,
{
    if i < n {
        lemma_leaf_pairs_err(rows, skip, i, n - 1);
    }
}

fn leaf_pair(rest: &Vec<u8>, value: &Vec<u8>) -> (r: Result<(Data, Data), Error>)
    ensures
        match (
            r,
            match segment_at(rest@) {
                None => Err::<(DataV, DataV), ErrorV>(
                    ErrorV::Corruption("malformed map entry key"@),
                ),
                Some((seg, used)) => if used != rest@.len() {
                    Err(ErrorV::Corruption("unexpected nested key in leaf map"@))
                } else {
                    match cbor_read(seg) {
                        Err(m) => Err(ErrorV::Deserialize(m)),
                        Ok(k) => match cbor_read(value@) {
                            Err(m) => Err(ErrorV::Deserialize(m)),
                            Ok(v) => Ok((k, v)),
                        },
                    }
                },
            },
        ) {
            (Ok((k, v)), Ok((x, y))) => k@ == x && v@ == y,
            (Err(e), Err(w)) => e@ == w,
            _ => false,
        },
{
    match read_segment(rest.as_slice()) {
        None => corruption("malformed map entry key"),
        Some((seg, used)) => {
            if used != rest.len() {
                return corruption("unexpected nested key in leaf map");
            }
            match decode(seg) {
                Err(m) => Err(Error::Deserialize(m)),
                Ok(k) => match decode(value.as_slice()) {
                    Err(m) => Err(Error::Deserialize(m)),
                    Ok(v) => Ok((k, v)),
                },
            }
        },
    }
}

impl Path<Dict<Leaf>> {
    /// Read the item stored under `key`.
    pub fn get(&self, db: &Db, key: &Data) -> (r: Result<Option<Data>, Error>)
        ensures
            same_item(r, leaf_at(db@, child_of(self@, cbor_bytes(key@)))),
    {
        self.key(key).get(db)
    }

    /// All (key, item) pairs in stored order.
    pub fn iter(&self, db: &Db) -> (r: Result<Vec<(Data, Data)>, Error>)
        ensures
            match (r, leaf_pairs_at(db@, self@)) {
                (Ok(v), Ok(w)) => crate::data::pairs_v(v) == w,
                (Err(e), Err(w)) => e@ == w,
                _ => false,
            },
    {
        let scan: Vec<u8> = child_scan_prefix(self.prefix.as_slice());
        let rows: Vec<(Vec<u8>, Vec<u8>)> = db.scan(scan.as_slice());
        let ghost rv = rows_v(rows@);
        let ghost skip = scan@.len() as int;
        proof {
            lemma_scan_starts(db@, scan@, db@.len() as int);
        }
        let mut out: Vec<(Data, Data)> = Vec::new();
        let mut i: usize = 0;
        proof {
            crate::data::lemma_pairs(out);
            assert(crate::data::pairs_v(out) =~= Seq::<(DataV, DataV)>::empty());
        }
        while i < rows.len()
            invariant
                i <= rows@.len(),
                rv == rows_v(rows@),
                rv == child_rows(db@, self@),
                skip == scan@.len(),
                skip == self@.len() + 1,
                forall|j: int| 0 <= j < rv.len() ==> starts_with((#[trigger] rv[j]).0, scan@),
                leaf_pairs(rv, skip, i as int) == Ok::<Seq<(DataV, DataV)>, ErrorV>(
                    crate::data::pairs_v(out),
                ),
            decreases rows@.len() - i,
        {
            assert(rv[i as int] == (rows@[i as int].0@, rows@[i as int].1@));
            let key = rows[i].0.as_slice();
            let rest: Vec<u8> = copy_range(key, scan.len(), key.len());
            assert(rest@ =~= key@.skip(skip));
            match leaf_pair(&rest, &rows[i].1) {
                Err(e) => {
                    proof {
                        lemma_leaf_pairs_err(rv, skip, i + 1, rv.len() as int);
                    }
                    return Err(e);
                },
                Ok((k, v)) => {
                    let ghost before = out;
                    out.push((k, v));
                    proof {
                        crate::data::lemma_pairs_push(before, out, k, v);
                    }
                },
            }
            i = i + 1;
        }
        Ok(out)
    }

    /// Build reified writes that rewrite each item through `f`: `Some(new)`
    /// sets the item, `None` deletes the entry. The map is read once.
    pub fn transform_values<F: Fn(&Data, Data) -> Option<Data>>(&self, db: &Db, f: F) -> (r: Result<
        Vec<Write>,
        Error,
    >)
        requires
            forall|k: &Data, v: Data| call_requires(f, (k, v)),
        ensures
            match (r, leaf_pairs_at(db@, self@)) {
                (Ok(ws), Ok(w)) => {
                    &&& ws@.len() == w.len()
                    &&& forall|i: int|
                        0 <= i < w.len() ==> rewrote(
                            f,
                            self@,
                            w[i].0,
                            w[i].1,
                            (#[trigger] ws@[i])@,
                        )
                },
                (Err(e), Err(w)) => e@ == w,
                _ => false,
            },
    {
        let pairs: Vec<(Data, Data)> = self.iter(db)?;
        let ghost pv = crate::data::pairs_v(pairs);
        proof {
            crate::data::lemma_pairs(pairs);
        }
        let mut out: Vec<Write> = Vec::new();
        let mut i: usize = 0;
        while i < pairs.len()
            invariant
                i <= pairs@.len(),
                pv == crate::data::pairs_v(pairs),
                pv.len() == pairs@.len(),
                forall|j: int|
                    0 <= j < pairs@.len() ==> #[trigger] pv[j] == (pairs@[j].0@, pairs@[j].1@),
                forall|k: &Data, v: Data| call_requires(f, (k, v)),
                out@.len() == i,
                leaf_pairs_at(db@, self@) == Ok::<Seq<(DataV, DataV)>, ErrorV>(pv),
                forall|j: int|
                    0 <= j < i ==> rewrote(f, self@, pv[j].0, pv[j].1, (#[trigger] out@[j])@),
            decreases pairs@.len() - i,
        {
            let ghost p = pv[i as int];
            let k: Data = copy_data(&pairs[i].0);
            let v: Data = copy_data(&pairs[i].1);
            let entry: Path<Leaf> = self.key(&k);
            let ghost vv = v;
            let o: Option<Data> = f(&k, v);
            let ghost before = out@;
            match &o {
                Some(new) => {
                    out.push(entry.set(new));
                },
                None => {
                    out.push(entry.delete());
                },
            }
            proof {
                assert(call_ensures(f, (&k, vv), o));
                assert(out@[i as int]@ == rewritten(self@, p.0, o));
                assert(rewrote(f, self@, pv[i as int].0, pv[i as int].1, out@[i as int]@));
            }
            i = i + 1;
        }
        Ok(out)
    }
}

/// The write that gives the entry `k` of the map at `prefix` its new item, or
/// deletes it.
pub open spec fn rewritten(prefix: Seq<u8>, k: DataV, o: Option<Data>) -> OpV {
    match o {
        Some(new) => OpV::Put { key: child_of(prefix, cbor_bytes(k)), value: cbor_bytes(new@) },
        None => OpV::Delete { key: child_of(prefix, cbor_bytes(k)) },
    }
}

/// The write `w` is what `f` made of the entry.
pub open spec fn rewrote<F: Fn(&Data, Data) -> Option<Data>>(
    f: F,
    prefix: Seq<u8>,
    key: DataV,
    value: DataV,
    w: OpV,
) -> bool {
    exists|k: Data, v: Data, o: Option<Data>|
        k@ == key && v@ == value && #[trigger] call_ensures(f, (&k, v), o) && w == rewritten(
            prefix,
            key,
            o,
        )
}

/// The pairs of a sum-valued map in the first `n` rows.
pub open spec fn sum_pairs(rows: Seq<RowV>, tag: u8, skip: int, n: int) -> Result<
    Seq<(DataV, u64)>,
    ErrorV,
>
    decreases n,
{
    if n <= 0 || n > rows.len() {
        Ok(Seq::empty())
    } else {
        match sum_pairs(rows, tag, skip, n - 1) {
            Err(e) => Err(e),
            Ok(ps) => match sum_pair_of(rows[n - 1].0.skip(skip), tag, rows[n - 1].1) {
                Err(e) => Err(e),
                Ok(p) => Ok(ps.push(p)),
            },
        }
    }
}

/// The pair of a sum-valued map in one row.
pub open spec fn sum_pair_of(rest: Seq<u8>, tag: u8, value: Seq<u8>) -> Result<(DataV, u64), ErrorV> {
    match segment_at(rest) {
        None => Err(ErrorV::Corruption("malformed map entry key"@)),
        Some((seg, used)) => if used != rest.len() {
            Err(ErrorV::Corruption("unexpected nested key in sum map"@))
        } else {
            match sum_of(value) {
                Some((t, bits)) => if t == tag {
                    match cbor_read(seg) {
                        Err(m) => Err(ErrorV::Deserialize(m)),
                        Ok(k) => Ok((k, bits)),
                    }
                } else {
                    Err(ErrorV::Corruption("malformed Sum accumulator"@))
                },
                None => Err(ErrorV::Corruption("malformed Sum accumulator"@)),
            }
        },
    }
}

/// The pairs of the sum-valued map at `prefix`, in stored order.
pub open spec fn sum_pairs_at(s: Seq<RowV>, tag: u8, prefix: Seq<u8>) -> Result<
    Seq<(DataV, u64)>,
    ErrorV,
> {
    let rows = child_rows(s, prefix);
    sum_pairs(rows, tag, prefix.len() as int + 1, rows.len() as int)
}

proof fn lemma_sum_pairs_err(rows: Seq<RowV>, tag: u8, skip: int, i: int, n: int)
    requires
        0 <= i <= n <= rows.len(),
        sum_pairs(rows, tag, skip, i) is Err,
    ensures
        sum_pairs(rows, tag, skip, n) == sum_pairs(rows, tag, skip, i),
    decreases n,
{
    if i < n {
        lemma_sum_pairs_err(rows, tag, skip, i, n - 1);
    }
}

/// The pairs read are those that the model says.
pub open spec fn same_sums<N: Summable>(v: Seq<(Data, N)>, w: Seq<(DataV, u64)>) -> bool {
    &&& v.len() == w.len()
    &&& forall|i: int|
        0 <= i < v.len() ==> (#[trigger] v[i]).0@ == w[i].0 && v[i].1 == N::number_of(w[i].1)
}

fn sum_pair<N: Summable>(rest: &Vec<u8>, value: &Vec<u8>) -> (r: Result<(Data, N), Error>)
    ensures
        match (r, sum_pair_of(rest@, N::tag_of(), value@)) {
            (Ok((k, n)), Ok((x, bits))) => k@ == x && n == N::number_of(bits),
            (Err(e), Err(w)) => e@ == w,
            _ => false,
        },
{
    match read_segment(rest.as_slice()) {
        None => corruption("malformed map entry key"),
        Some((seg, used)) => {
            if used != rest.len() {
                return corruption("unexpected nested key in sum map");
            }
            match decode_sum::<N>(value.as_slice()) {
                None => corruption("malformed Sum accumulator"),
                Some(n) => match decode(seg) {
                    Err(m) => Err(Error::Deserialize(m)),
                    Ok(k) => Ok((k, n)),
                },
            }
        },
    }
}

impl<N: Summable> Path<Dict<Sum<N>>> {
    /// Read the accumulator stored under `key` (zero when absent).
    pub fn get(&self, db: &Db, key: &Data) -> (r: Result<N, Error>)
        ensures
            match (r, sum_at(db@, N::tag_of(), child_of(self@, cbor_bytes(key@)))) {
                (Ok(n), Ok(bits)) => n == N::number_of(bits),
                (Err(e), Err(w)) => e@ == w,
                _ => false,
            },
    {
        self.key(key).get(db)
    }

    /// All (key, accumulator) pairs in stored order.
    pub fn iter(&self, db: &Db) -> (r: Result<Vec<(Data, N)>, Error>)
        ensures
            match (r, sum_pairs_at(db@, N::tag_of(), self@)) {
                (Ok(v), Ok(w)) => same_sums(v@, w),
                (Err(e), Err(w)) => e@ == w,
                _ => false,
            },
    {
        let scan: Vec<u8> = child_scan_prefix(self.prefix.as_slice());
        let rows: Vec<(Vec<u8>, Vec<u8>)> = db.scan(scan.as_slice());
        let ghost rv = rows_v(rows@);
        let ghost skip = scan@.len() as int;
        proof {
            lemma_scan_starts(db@, scan@, db@.len() as int);
        }
        let mut out: Vec<(Data, N)> = Vec::new();
        let ghost mut model: Seq<(DataV, u64)> = Seq::empty();
        let mut i: usize = 0;
        while i < rows.len()
            invariant
                i <= rows@.len(),
                rv == rows_v(rows@),
                rv == child_rows(db@, self@),
                skip == scan@.len(),
                skip == self@.len() + 1,
                forall|j: int| 0 <= j < rv.len() ==> starts_with((#[trigger] rv[j]).0, scan@),
                sum_pairs(rv, N::tag_of(), skip, i as int) == Ok::<Seq<(DataV, u64)>, ErrorV>(
                    model,
                ),
                same_sums(out@, model),
            decreases rows@.len() - i,
        {
            assert(rv[i as int] == (rows@[i as int].0@, rows@[i as int].1@));
            let key = rows[i].0.as_slice();
            let rest: Vec<u8> = copy_range(key, scan.len(), key.len());
            assert(rest@ =~= key@.skip(skip));
            match sum_pair::<N>(&rest, &rows[i].1) {
                Err(e) => {
                    proof {
                        lemma_sum_pairs_err(rv, N::tag_of(), skip, i + 1, rv.len() as int);
                    }
                    return Err(e);
                },
                Ok((k, n)) => {
                    proof {
                        let p = sum_pair_of(rest@, N::tag_of(), rows@[i as int].1@)->Ok_0;
                        model = model.push(p);
                    }
                    out.push((k, n));
                },
            }
            i = i + 1;
        }
        Ok(out)
    }

    /// Build reified writes that rewrite each accumulator through `f`:
    /// `Some(new)` sets it, `None` deletes it.
    pub fn transform_values<F: Fn(&Data, N) -> Option<N>>(&self, db: &Db, f: F) -> (r: Result<
        Vec<Write>,
        Error,
    >)
        requires
            forall|k: &Data, v: N| call_requires(f, (k, v)),
        ensures
            match (r, sum_pairs_at(db@, N::tag_of(), self@)) {
                (Ok(ws), Ok(w)) => {
                    &&& ws@.len() == w.len()
                    &&& forall|i: int|
                        0 <= i < w.len() ==> resummed(
                            f,
                            self@,
                            w[i].0,
                            N::number_of(w[i].1),
                            (#[trigger] ws@[i])@,
                        )
                },
                (Err(e), Err(w)) => e@ == w,
                _ => false,
            },
    {
        let pairs: Vec<(Data, N)> = self.iter(db)?;
        let ghost pv = sum_pairs_at(db@, N::tag_of(), self@)->Ok_0;
        let mut out: Vec<Write> = Vec::new();
        let mut i: usize = 0;
        while i < pairs.len()
            invariant
                i <= pairs@.len(),
                same_sums(pairs@, pv),
                sum_pairs_at(db@, N::tag_of(), self@) == Ok::<Seq<(DataV, u64)>, ErrorV>(pv),
                forall|k: &Data, v: N| call_requires(f, (k, v)),
                out@.len() == i,
                forall|j: int|
                    0 <= j < i ==> resummed(
                        f,
                        self@,
                        pv[j].0,
                        N::number_of(pv[j].1),
                        (#[trigger] out@[j])@,
                    ),
            decreases pairs@.len() - i,
        {
            assert(pairs@[i as int].0@ == pv[i as int].0);
            let k: Data = copy_data(&pairs[i].0);
            let v: N = pairs[i].1;
            let entry: Path<Sum<N>> = self.key(&k);
            let o: Option<N> = f(&k, v);
            match o {
                Some(new) => {
                    out.push(entry.set(new));
                },
                None => {
                    out.push(entry.delete());
                },
            }
            proof {
                assert(call_ensures(f, (&k, v), o));
                assert(out@[i as int]@ == resum(self@, k@, o));
                assert(resummed(f, self@, pv[i as int].0, N::number_of(pv[i as int].1), out@[i as int]@));
            }
            i = i + 1;
        }
        Ok(out)
    }
}

/// The write that gives the accumulator `k` of the map at `prefix` its new
/// value, or deletes it.
pub open spec fn resum<N: Summable>(prefix: Seq<u8>, k: DataV, o: Option<N>) -> OpV {
    match o {
        Some(new) => OpV::Put {
            key: child_of(prefix, cbor_bytes(k)),
            value: sum_bytes(N::tag_of(), new.bits_of()),
        },
        None => OpV::Delete { key: child_of(prefix, cbor_bytes(k)) },
    }
}

/// The write `w` is what `f` made of the accumulator.
pub open spec fn resummed<N: Summable, F: Fn(&Data, N) -> Option<N>>(
    f: F,
    prefix: Seq<u8>,
    key: DataV,
    value: N,
    w: OpV,
) -> bool {
    exists|k: Data, o: Option<N>|
        k@ == key && #[trigger] call_ensures(f, (&k, value), o) && w == resum(prefix, key, o)
}

/// The rows once the element `key` is deleted and the bound at `meta` is `value`.
pub open spec fn taken(s: Seq<RowV>, key: Seq<u8>, meta: Seq<u8>, value: Seq<u8>) -> Seq<RowV> {
    with_row(without_row(s, key), meta, value)
}

/// The key of the list element `i`.
pub open spec fn list_key(prefix: Seq<u8>, i: int) -> Seq<u8> {
    child_of(prefix, ordered_u64(i))
}

/// The key of the deque element `i`.
pub open spec fn deque_key(prefix: Seq<u8>, i: int) -> Seq<u8> {
    child_of(prefix, ordered_i64(i))
}

/// The first `n` elements of the list at `prefix`.
pub open spec fn list_items(s: Seq<RowV>, prefix: Seq<u8>, n: int) -> Result<Seq<DataV>, ErrorV>
    decreases n,
{
    if n <= 0 {
        Ok(Seq::empty())
    } else {
        match list_items(s, prefix, n - 1) {
            Err(e) => Err(e),
            Ok(xs) => match leaf_at(s, list_key(prefix, n - 1)) {
                Err(e) => Err(e),
                Ok(None) => Err(ErrorV::Corruption("list element missing below len"@)),
                Ok(Some(d)) => Ok(xs.push(d)),
            },
        }
    }
}

/// All elements of the list at `prefix`.
pub open spec fn list_at(s: Seq<RowV>, prefix: Seq<u8>) -> Result<Seq<DataV>, ErrorV> {
    match list_len(s, prefix) {
        Err(e) => Err(e),
        Ok(n) => list_items(s, prefix, n as int),
    }
}

proof fn lemma_list_err(s: Seq<RowV>, prefix: Seq<u8>, i: int, n: int)
    requires
        0 <= i <= n,
        list_items(s, prefix, i) is Err,
    ensures
        list_items(s, prefix, n) == list_items(s, prefix, i),
    decreases n,
{
    if i < n {
        lemma_list_err(s, prefix, i, n - 1);
    }
}

impl<V: Schema> Path<List<V>> {
    /// Navigate to the element at `index` (no bounds check until read).
    pub fn at(&self, index: u64) -> (r: Path<V>)
        ensures
            r@ == list_key(self@, index as int),
    {
        let ix = order_u64(index);
        self.child(&ix)
    }

    /// The number of elements.
    pub fn len(&self, db: &Db) -> (r: Result<u64, Error>)
        ensures
            match (r, list_len(db@, self@)) {
                (Ok(n), Ok(m)) => n == m,
                (Err(e), Err(w)) => e@ == w,
                _ => false,
            },
    {
        let k: Vec<u8> = len_key(self.prefix.as_slice());
        match db.read_u64(k.as_slice())? {
            Some(n) => Ok(n),
            None => Ok(0),
        }
    }

    /// Whether the list is empty.
    pub fn is_empty(&self, db: &Db) -> (r: Result<bool, Error>)
        ensures
            match (r, list_len(db@, self@)) {
                (Ok(b), Ok(m)) => b == (m == 0),
                (Err(e), Err(w)) => e@ == w,
                _ => false,
            },
    {
        let n: u64 = self.len(db)?;
        Ok(n == 0)
    }

    /// A reified write that deletes the whole list (elements and length).
    pub fn clear(&self) -> (r: Write)
        ensures
            r@ == (OpV::DeletePrefix { prefix: self@ }),
    {
        self.clear_here()
    }
}

impl Path<List<Leaf>> {
    /// Read the element at `index`.
    pub fn get(&self, db: &Db, index: u64) -> (r: Result<Option<Data>, Error>)
        ensures
            same_item(
                r,
                match list_len(db@, self@) {
                    Err(e) => Err(e),
                    Ok(n) => if index >= n {
                        Ok(None)
                    } else {
                        leaf_at(db@, list_key(self@, index as int))
                    },
                },
            ),
    {
        let n: u64 = self.len(db)?;
        if index >= n {
            return Ok(None);
        }
        self.at(index).get(db)
    }

    /// A reified list append, resolved against the length at commit. It does
    /// not touch the database.
    pub fn push_op(&self, value: &Data) -> (r: Write)
        ensures
            r@ == (OpV::ListPush { prefix: self@, value: cbor_bytes(value@) }),
            plain(value@, crate::data::cbor_depth()) ==> reads_as(cbor_bytes(value@), value@),
    {
        Write::new(
            Op::ListPush { prefix: copy_bytes(self.prefix.as_slice()), value: encode(value) },
        )
    }

    /// Append `value`, returning its index.
    pub fn push(&self, db: &mut Db, value: &Data) -> (r: Result<u64, Error>)
        requires
            old(db).wf(),
        ensures
            final(db).wf(),
            r is Ok && plain(value@, crate::data::cbor_depth()) ==> reads_as(cbor_bytes(value@), value@),
            match (
                r,
                list_len(old(db)@, self@),
                committed(
                    Seq::empty(),
                    old(db)@,
                    recorded(
                        empty_batch(),
                        OpV::ListPush { prefix: self@, value: cbor_bytes(value@) },
                    ),
                ),
            ) {
                (Ok(i), Ok(n), Ok(s)) => i == n && final(db)@ == s,
                (Err(e), Err(w), _) => e@ == w && final(db)@ == old(db)@,
                (Err(e), Ok(_), Err(w)) => e@ == w && final(db)@ == old(db)@,
                _ => false,
            },
    {
        let index: u64 = self.len(db)?;
        let none: FloatTable = FloatTable::new();
        db.run(&none, self.push_op(value))?;
        Ok(index)
    }

    /// Remove and return the last element.
    pub fn pop(&self, db: &mut Db) -> (r: Result<Option<Data>, Error>)
        requires
            old(db).wf(),
        ensures
            final(db).wf(),
            match list_len(old(db)@, self@) {
                Err(e) => same_item(r, Err(e)) && final(db)@ == old(db)@,
                Ok(n) => if n == 0 {
                    same_item(r, Ok(None)) && final(db)@ == old(db)@
                } else {
                    &&& same_item(r, leaf_at(old(db)@, list_key(self@, n - 1)))
                    &&& final(db)@ == (if r is Ok {
                        taken(
                            old(db)@,
                            list_key(self@, n - 1),
                            meta_of(self@, len_name()),
                            le(n - 1, 8),
                        )
                    } else {
                        old(db)@
                    })
                },
            },
    {
        let n: u64 = self.len(db)?;
        if n == 0 {
            return Ok(None);
        }
        let last: Path<Leaf> = self.at(n - 1);
        let value: Option<Data> = last.get(db)?;
        db.delete(last.prefix.as_slice());
        let k: Vec<u8> = len_key(self.prefix.as_slice());
        let b = le_bytes(n - 1);
        db.put(k.as_slice(), &b);
        Ok(value)
    }

    /// All elements in index order.
    pub fn iter(&self, db: &Db) -> (r: Result<Vec<Data>, Error>)
        ensures
            match (r, list_at(db@, self@)) {
                (Ok(v), Ok(w)) => items_v(v) == w,
                (Err(e), Err(w)) => e@ == w,
                _ => false,
            },
    {
        let n: u64 = self.len(db)?;
        let mut out: Vec<Data> = Vec::new();
        let mut i: u64 = 0;
        proof {
            lemma_items(out);
            assert(items_v(out) =~= Seq::<DataV>::empty());
        }
        while i < n
            invariant
                i <= n,
                list_len(db@, self@) == Ok::<u64, ErrorV>(n),
                list_items(db@, self@, i as int) == Ok::<Seq<DataV>, ErrorV>(items_v(out)),
            decreases n - i,
        {
            match self.at(i).get(db) {
                Err(e) => {
                    proof {
                        lemma_list_err(db@, self@, i + 1, n as int);
                    }
                    return Err(e);
                },
                Ok(None) => {
                    proof {
                        lemma_list_err(db@, self@, i + 1, n as int);
                    }
                    return corruption("list element missing below len");
                },
                Ok(Some(d)) => {
                    let ghost before = out;
                    out.push(d);
                    proof {
                        lemma_items_push(before, out, d);
                    }
                },
            }
            i = i + 1;
        }
        Ok(out)
    }
}

/// The bounds of the deque at `prefix`: its first index and the one behind its
/// last.
pub open spec fn bounds_of(s: Seq<RowV>, prefix: Seq<u8>) -> Result<(i64, i64), ErrorV> {
    match deque_head(s, prefix) {
        Err(e) => Err(e),
        Ok(h) => match deque_tail(s, prefix) {
            Err(e) => Err(e),
            Ok(t) => Ok((h, t)),
        },
    }
}

/// The elements of the deque at `prefix` from index `head` up to `to`.
pub open spec fn deque_items(s: Seq<RowV>, prefix: Seq<u8>, head: int, to: int) -> Result<
    Seq<DataV>,
    ErrorV,
>
    decreases to - head,
{
    if to <= head {
        Ok(Seq::empty())
    } else {
        match deque_items(s, prefix, head, to - 1) {
            Err(e) => Err(e),
            Ok(xs) => match leaf_at(s, deque_key(prefix, to - 1)) {
                Err(e) => Err(e),
                Ok(None) => Err(ErrorV::Corruption("deque element missing in range"@)),
                Ok(Some(d)) => Ok(xs.push(d)),
            },
        }
    }
}

/// All elements of the deque at `prefix`, from front to back.
pub open spec fn deque_at(s: Seq<RowV>, prefix: Seq<u8>) -> Result<Seq<DataV>, ErrorV> {
    match bounds_of(s, prefix) {
        Err(e) => Err(e),
        Ok((h, t)) => deque_items(s, prefix, h as int, t as int),
    }
}

proof fn lemma_deque_err(s: Seq<RowV>, prefix: Seq<u8>, head: int, i: int, n: int)
    requires
        head <= i <= n,
        deque_items(s, prefix, head, i) is Err,
    ensures
        deque_items(s, prefix, head, n) == deque_items(s, prefix, head, i),
    decreases n - head,
{
    if i < n {
        lemma_deque_err(s, prefix, head, i, n - 1);
    }
}

/// The rows once the deque elements from `from` up to `to` are deleted.
pub open spec fn range_deleted(s: Seq<RowV>, prefix: Seq<u8>, from: int, to: int) -> Seq<RowV>
    decreases to - from,
{
    if to <= from {
        s
    } else {
        without_row(range_deleted(s, prefix, from, to - 1), deque_key(prefix, to - 1))
    }
}

impl<V: Schema> Path<Deque<V>> {
    /// The first index, and the one behind the last.
    pub fn bounds(&self, db: &Db) -> (r: Result<(i64, i64), Error>)
        ensures
            match (r, bounds_of(db@, self@)) {
                (Ok(x), Ok(y)) => x == y,
                (Err(e), Err(w)) => e@ == w,
                _ => false,
            },
    {
        let hk: Vec<u8> = head_key(self.prefix.as_slice());
        let tk: Vec<u8> = tail_key(self.prefix.as_slice());
        let head: i64 = match db.read_i64(hk.as_slice())? {
            Some(n) => n,
            None => 0,
        };
        let tail: i64 = match db.read_i64(tk.as_slice())? {
            Some(n) => n,
            None => 0,
        };
        Ok((head, tail))
    }

    /// The number of elements.
    pub fn len(&self, db: &Db) -> (r: Result<u64, Error>)
        ensures
            match (r, bounds_of(db@, self@)) {
                (Ok(n), Ok((h, t))) => n == (if h < t {
                    t - h
                } else {
                    0
                }),
                (Err(e), Err(w)) => e@ == w,
                _ => false,
            },
    {
        let (h, t) = self.bounds(db)?;
        if h < t {
            Ok((t as i128 - h as i128) as u64)
        } else {
            Ok(0)
        }
    }

    /// Whether the deque is empty.
    pub fn is_empty(&self, db: &Db) -> (r: Result<bool, Error>)
        ensures
            match (r, bounds_of(db@, self@)) {
                (Ok(b), Ok((h, t))) => b == (h >= t),
                (Err(e), Err(w)) => e@ == w,
                _ => false,
            },
    {
        let n: u64 = self.len(db)?;
        Ok(n == 0)
    }

    /// A reified write that deletes the whole deque (elements and metadata).
    pub fn clear(&self) -> (r: Write)
        ensures
            r@ == (OpV::DeletePrefix { prefix: self@ }),
    {
        self.clear_here()
    }
}

impl Path<Deque<Leaf>> {
    fn item(&self, index: i64) -> (r: Path<Leaf>)
        ensures
            r@ == deque_key(self@, index as int),
    {
        let ix = order_i64(index);
        self.child(&ix)
    }

    /// A reified deque-back append, resolved at commit.
    pub fn push_back_op(&self, value: &Data) -> (r: Write)
        ensures
            r@ == (OpV::DequePushBack { prefix: self@, value: cbor_bytes(value@) }),
            plain(value@, crate::data::cbor_depth()) ==> reads_as(cbor_bytes(value@), value@),
    {
        Write::new(
            Op::DequePushBack { prefix: copy_bytes(self.prefix.as_slice()), value: encode(value) },
        )
    }

    /// A reified deque-front push, resolved at commit.
    pub fn push_front_op(&self, value: &Data) -> (r: Write)
        ensures
            r@ == (OpV::DequePushFront { prefix: self@, value: cbor_bytes(value@) }),
            plain(value@, crate::data::cbor_depth()) ==> reads_as(cbor_bytes(value@), value@),
    {
        Write::new(
            Op::DequePushFront {
                prefix: copy_bytes(self.prefix.as_slice()),
                value: encode(value),
            },
        )
    }

    /// Push to the back.
    pub fn push_back(&self, db: &mut Db, value: &Data) -> (r: Result<(), Error>)
        requires
            old(db).wf(),
        ensures
            final(db).wf(),
            plain(value@, crate::data::cbor_depth()) ==> reads_as(cbor_bytes(value@), value@),
            match (
                r,
                committed(
                    Seq::empty(),
                    old(db)@,
                    recorded(
                        empty_batch(),
                        OpV::DequePushBack { prefix: self@, value: cbor_bytes(value@) },
                    ),
                ),
            ) {
                (Ok(_), Ok(s)) => final(db)@ == s,
                (Err(e), Err(w)) => e@ == w && final(db)@ == old(db)@,
                _ => false,
            },
    {
        let none: FloatTable = FloatTable::new();
        db.run(&none, self.push_back_op(value))
    }

    /// Push to the front.
    pub fn push_front(&self, db: &mut Db, value: &Data) -> (r: Result<(), Error>)
        requires
            old(db).wf(),
        ensures
            final(db).wf(),
            plain(value@, crate::data::cbor_depth()) ==> reads_as(cbor_bytes(value@), value@),
            match (
                r,
                committed(
                    Seq::empty(),
                    old(db)@,
                    recorded(
                        empty_batch(),
                        OpV::DequePushFront { prefix: self@, value: cbor_bytes(value@) },
                    ),
                ),
            ) {
                (Ok(_), Ok(s)) => final(db)@ == s,
                (Err(e), Err(w)) => e@ == w && final(db)@ == old(db)@,
                _ => false,
            },
    {
        let none: FloatTable = FloatTable::new();
        db.run(&none, self.push_front_op(value))
    }

    /// Remove and return the front element.
    pub fn pop_front(&self, db: &mut Db) -> (r: Result<Option<Data>, Error>)
        requires
            old(db).wf(),
        ensures
            final(db).wf(),
            match bounds_of(old(db)@, self@) {
                Err(e) => same_item(r, Err(e)) && final(db)@ == old(db)@,
                Ok((h, t)) => if h >= t {
                    same_item(r, Ok(None)) && final(db)@ == old(db)@
                } else {
                    &&& same_item(r, leaf_at(old(db)@, deque_key(self@, h as int)))
                    &&& final(db)@ == (if r is Ok {
                        taken(
                            old(db)@,
                            deque_key(self@, h as int),
                            meta_of(self@, head_name()),
                            index_bytes(h + 1),
                        )
                    } else {
                        old(db)@
                    })
                },
            },
    {
        let (head, tail) = self.bounds(db)?;
        if head >= tail {
            return Ok(None);
        }
        let first: Path<Leaf> = self.item(head);
        let value: Option<Data> = first.get(db)?;
        db.delete(first.prefix.as_slice());
        let k: Vec<u8> = head_key(self.prefix.as_slice());
        let b = le_bytes(i64_bits(head + 1));
        db.put(k.as_slice(), &b);
        Ok(value)
    }

    /// Remove and return the back element.
    pub fn pop_back(&self, db: &mut Db) -> (r: Result<Option<Data>, Error>)
        requires
            old(db).wf(),
        ensures
            final(db).wf(),
            match bounds_of(old(db)@, self@) {
                Err(e) => same_item(r, Err(e)) && final(db)@ == old(db)@,
                Ok((h, t)) => if h >= t {
                    same_item(r, Ok(None)) && final(db)@ == old(db)@
                } else {
                    &&& same_item(r, leaf_at(old(db)@, deque_key(self@, t - 1)))
                    &&& final(db)@ == (if r is Ok {
                        taken(
                            old(db)@,
                            deque_key(self@, t - 1),
                            meta_of(self@, tail_name()),
                            index_bytes(t - 1),
                        )
                    } else {
                        old(db)@
                    })
                },
            },
    {
        let (head, tail) = self.bounds(db)?;
        if head >= tail {
            return Ok(None);
        }
        let last: Path<Leaf> = self.item(tail - 1);
        let value: Option<Data> = last.get(db)?;
        db.delete(last.prefix.as_slice());
        let k: Vec<u8> = tail_key(self.prefix.as_slice());
        let b = le_bytes(i64_bits(tail - 1));
        db.put(k.as_slice(), &b);
        Ok(value)
    }

    /// Read the front element without removing it.
    pub fn front(&self, db: &Db) -> (r: Result<Option<Data>, Error>)
        ensures
            same_item(
                r,
                match bounds_of(db@, self@) {
                    Err(e) => Err(e),
                    Ok((h, t)) => if h >= t {
                        Ok(None)
                    } else {
                        leaf_at(db@, deque_key(self@, h as int))
                    },
                },
            ),
    {
        let (head, tail) = self.bounds(db)?;
        if head >= tail {
            return Ok(None);
        }
        self.item(head).get(db)
    }

    /// Read the back element without removing it.
    pub fn back(&self, db: &Db) -> (r: Result<Option<Data>, Error>)
        ensures
            same_item(
                r,
                match bounds_of(db@, self@) {
                    Err(e) => Err(e),
                    Ok((h, t)) => if h >= t {
                        Ok(None)
                    } else {
                        leaf_at(db@, deque_key(self@, t - 1))
                    },
                },
            ),
    {
        let (head, tail) = self.bounds(db)?;
        if head >= tail {
            return Ok(None);
        }
        self.item(tail - 1).get(db)
    }

    /// All elements from front to back.
    pub fn iter(&self, db: &Db) -> (r: Result<Vec<Data>, Error>)
        ensures
            match (r, deque_at(db@, self@)) {
                (Ok(v), Ok(w)) => items_v(v) == w,
                (Err(e), Err(w)) => e@ == w,
                _ => false,
            },
    {
        let (head, tail) = self.bounds(db)?;
        let mut out: Vec<Data> = Vec::new();
        proof {
            lemma_items(out);
            assert(items_v(out) =~= Seq::<DataV>::empty());
        }
        if head >= tail {
            return Ok(out);
        }
        let mut i: i64 = head;
        while i < tail
            invariant
                head <= i <= tail,
                bounds_of(db@, self@) == Ok::<(i64, i64), ErrorV>((head, tail)),
                deque_items(db@, self@, head as int, i as int) == Ok::<Seq<DataV>, ErrorV>(
                    items_v(out),
                ),
            decreases tail - i,
        {
            match self.item(i).get(db) {
                Err(e) => {
                    proof {
                        lemma_deque_err(db@, self@, head as int, i + 1, tail as int);
                    }
                    return Err(e);
                },
                Ok(None) => {
                    proof {
                        lemma_deque_err(db@, self@, head as int, i + 1, tail as int);
                    }
                    return corruption("deque element missing in range");
                },
                Ok(Some(d)) => {
                    let ghost before = out;
                    out.push(d);
                    proof {
                        lemma_items_push(before, out, d);
                    }
                },
            }
            i = i + 1;
        }
        Ok(out)
    }

    /// Drop elements from the back until the length is at most `max_len`.
    /// Nothing changes when it already is.
    pub fn truncate_back(&self, db: &mut Db, max_len: u64) -> (r: Result<(), Error>)
        requires
            old(db).wf(),
        ensures
            final(db).wf(),
            match (r, bounds_of(old(db)@, self@)) {
                (Ok(_), Ok((h, t))) => final(db)@ == (if t - h <= max_len {
                    old(db)@
                } else {
                    with_row(
                        range_deleted(old(db)@, self@, h + max_len, t as int),
                        meta_of(self@, tail_name()),
                        index_bytes(h + max_len),
                    )
                }),
                (Err(e), Err(w)) => e@ == w && final(db)@ == old(db)@,
                _ => false,
            },
    {
        let (head, tail) = self.bounds(db)?;
        let len: i128 = tail as i128 - head as i128;
        if len <= max_len as i128 {
            return Ok(());
        }
        let new_tail: i64 = (head as i128 + max_len as i128) as i64;
        let mut i: i64 = new_tail;
        while i < tail
            invariant
                new_tail <= i <= tail,
                db.wf(),
                db@ == range_deleted(old(db)@, self@, new_tail as int, i as int),
            decreases tail - i,
        {
            let k: Path<Leaf> = self.item(i);
            db.delete(k.prefix.as_slice());
            i = i + 1;
        }
        let k: Vec<u8> = tail_key(self.prefix.as_slice());
        let b = le_bytes(i64_bits(new_tail));
        db.put(k.as_slice(), &b);
        Ok(())
    }
}

impl Batch {
    /// Append `value` to the back of a leaf list (resolved at commit).
    pub fn push(&mut self, list: &Path<List<Leaf>>, value: &Data)
        ensures
            final(self)@ == recorded(
                old(self)@,
                OpV::ListPush { prefix: list@, value: cbor_bytes(value@) },
            ),
            plain(value@, crate::data::cbor_depth()) ==> reads_as(cbor_bytes(value@), value@),
    {
        self.write(list.push_op(value))
    }

    /// Append `value` to the back of a leaf deque (resolved at commit).
    pub fn push_back(&mut self, deque: &Path<Deque<Leaf>>, value: &Data)
        ensures
            final(self)@ == recorded(
                old(self)@,
                OpV::DequePushBack { prefix: deque@, value: cbor_bytes(value@) },
            ),
            plain(value@, crate::data::cbor_depth()) ==> reads_as(cbor_bytes(value@), value@),
    {
        self.write(deque.push_back_op(value))
    }

    /// Push `value` to the front of a leaf deque (resolved at commit).
    pub fn push_front(&mut self, deque: &Path<Deque<Leaf>>, value: &Data)
        ensures
            final(self)@ == recorded(
                old(self)@,
                OpV::DequePushFront { prefix: deque@, value: cbor_bytes(value@) },
            ),
            plain(value@, crate::data::cbor_depth()) ==> reads_as(cbor_bytes(value@), value@),
    {
        self.write(deque.push_front_op(value))
    }
}

} // verus!
