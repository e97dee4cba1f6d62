//! Reified writes, and atomic batches of them.
//!
//! Blind writes are recorded as they come. Deletes of subtrees follow them, and
//! appends to lists and deques are resolved at commit time against the current
//! collection bounds, so that several appends in one batch land at contiguous
//! indices and the batch commits as one write.

use crate::bytes::{bytes_eq, copy_bytes, le, le_bytes};
use crate::codec::{
    child_key, child_of, meta_key, meta_of, order_i64, order_u64, ordered_i64, ordered_u64,
    prefix_upper_bound, upper_bound,
};
use crate::db::{
    cleared, i64_at, lookup, rows_v, scan_of, u64_at, with_row, without_row, Db, RowV,
};
use crate::error::{corruption, Error, ErrorV};
use crate::float::{FactV, FloatTable};
use crate::schema::{fold_tagged, i64_bits, merged, put_sum, read_sum, stored, twos, Tagged};
use crate::value::{Try, TryV};
use vstd::prelude::*;
use vstd::string::*;

verus! {

/// Durability policy of a committed batch.
#[derive(Clone, Copy, Debug, PartialEq, Eq, Structural)]
pub enum Durability {
    /// Write through the log and sync it before returning.
    SyncWal,
    /// Write through the log without forcing a sync.
    WalOnly,
    /// Skip the log. Only for projections that can be rebuilt from another
    /// durable source of truth.
    DisableWal,
}

/// A single reified storage operation, as plain data.
#[derive(Debug)]
pub enum Op {
    /// Blind put of a value at an exact key.
    Put { key: Vec<u8>, value: Vec<u8> },
    /// Blind delete of an exact key.
    Delete { key: Vec<u8> },
    /// Delete every key under `prefix`, the prefix among them.
    DeletePrefix { prefix: Vec<u8> },
    /// Blind associative merge, as sums use it.
    Merge { key: Vec<u8>, value: Vec<u8> },
    /// Append to a list; resolved against the current length at commit.
    ListPush { prefix: Vec<u8>, value: Vec<u8> },
    /// Append to a deque back; resolved at commit.
    DequePushBack { prefix: Vec<u8>, value: Vec<u8> },
    /// Push to a deque front; resolved at commit.
    DequePushFront { prefix: Vec<u8>, value: Vec<u8> },
}

pub enum OpV {
    Put { key: Seq<u8>, value: Seq<u8> },
    Delete { key: Seq<u8> },
    DeletePrefix { prefix: Seq<u8> },
    Merge { key: Seq<u8>, value: Seq<u8> },
    ListPush { prefix: Seq<u8>, value: Seq<u8> },
    DequePushBack { prefix: Seq<u8>, value: Seq<u8> },
    DequePushFront { prefix: Seq<u8>, value: Seq<u8> },
}

impl View for Op {
    type V = OpV;

    open spec fn view(&self) -> OpV {
        match *self {
            Op::Put { key, value } => OpV::Put { key: key@, value: value@ },
            Op::Delete { key } => OpV::Delete { key: key@ },
            Op::DeletePrefix { prefix } => OpV::DeletePrefix { prefix: prefix@ },
            Op::Merge { key, value } => OpV::Merge { key: key@, value: value@ },
            Op::ListPush { prefix, value } => OpV::ListPush { prefix: prefix@, value: value@ },
            Op::DequePushBack { prefix, value } => OpV::DequePushBack {
                prefix: prefix@,
                value: value@,
            },
            Op::DequePushFront { prefix, value } => OpV::DequePushFront {
                prefix: prefix@,
                value: value@,
            },
        }
    }
}

/// A typed, reified mutation produced by a terminal path operation.
#[derive(Debug)]
pub struct Write {
    pub op: Op,
}

impl View for Write {
    type V = OpV;

    open spec fn view(&self) -> OpV {
        self.op@
    }
}

impl Write {
    pub fn new(op: Op) -> (r: Write)
        ensures
            r@ == op@,
    {
        Write { op }
    }

    /// The underlying reified operation.
    pub fn op(&self) -> (r: &Op)
        ensures
            r@ == self@,
    {
        &self.op
    }

    /// Consume the write, yielding its operation.
    pub fn into_op(self) -> (r: Op)
        ensures
            r@ == self@,
    {
        self.op
    }
}

/// A change to the rows of a store.
#[derive(Debug)]
pub enum Change {
    Put { key: Vec<u8>, value: Vec<u8> },
    Delete { key: Vec<u8> },
    Merge { key: Vec<u8>, value: Vec<u8> },
    DeletePrefix { prefix: Vec<u8> },
}

pub enum ChangeV {
    Put { key: Seq<u8>, value: Seq<u8> },
    Delete { key: Seq<u8> },
    Merge { key: Seq<u8>, value: Seq<u8> },
    DeletePrefix { prefix: Seq<u8> },
}

impl View for Change {
    type V = ChangeV;

    open spec fn view(&self) -> ChangeV {
        match *self {
            Change::Put { key, value } => ChangeV::Put { key: key@, value: value@ },
            Change::Delete { key } => ChangeV::Delete { key: key@ },
            Change::Merge { key, value } => ChangeV::Merge { key: key@, value: value@ },
            Change::DeletePrefix { prefix } => ChangeV::DeletePrefix { prefix: prefix@ },
        }
    }
}

pub open spec fn changes_v(v: Seq<Change>) -> Seq<ChangeV> {
    v.map_values(|c: Change| c@)
}

/// The rows once one change is made. A merge that leaves no accumulator leaves
/// the rows as they were.
pub open spec fn changed(f: Seq<FactV>, s: Seq<RowV>, c: ChangeV) -> TryV<Seq<RowV>> {
    match c {
        ChangeV::Put { key, value } => TryV::Done(with_row(s, key, value)),
        ChangeV::Delete { key } => TryV::Done(without_row(s, key)),
        ChangeV::DeletePrefix { prefix } => TryV::Done(cleared(s, prefix)),
        ChangeV::Merge { key, value } => match merged(f, lookup(s, key), value) {
            TryV::Done(Some(b)) => TryV::Done(with_row(s, key, b)),
            TryV::Done(None) => TryV::Done(s),
            TryV::Fail(m) => TryV::Fail(m),
            TryV::Need(q) => TryV::Need(q),
        },
    }
}

/// The rows once the first `n` changes are made.
pub open spec fn changed_all(f: Seq<FactV>, s: Seq<RowV>, cs: Seq<ChangeV>, n: int) -> TryV<
    Seq<RowV>,
>
    decreases n,
{
    if n <= 0 || n > cs.len() {
        TryV::Done(s)
    } else {
        match changed_all(f, s, cs, n - 1) {
            TryV::Done(t) => changed(f, t, cs[n - 1]),
            other => other,
        }
    }
}

proof fn lemma_changed_stop(f: Seq<FactV>, s: Seq<RowV>, cs: Seq<ChangeV>, i: int, n: int)
    requires
        0 <= i <= n <= cs.len(),
        !(changed_all(f, s, cs, i) is Done),
    ensures
        changed_all(f, s, cs, n) == changed_all(f, s, cs, i),
    decreases n,
{
    if i < n {
        lemma_changed_stop(f, s, cs, i, n - 1);
    }
}

/// The end of a collection that an append goes to.
#[derive(Clone, Copy, Debug, PartialEq, Eq, Structural)]
pub enum End {
    ListBack,
    DequeBack,
    DequeFront,
}

/// An append that is to be resolved.
#[derive(Debug)]
pub struct Append {
    pub prefix: Vec<u8>,
    pub end: End,
    pub value: Vec<u8>,
}

pub struct AppendV {
    pub prefix: Seq<u8>,
    pub end: End,
    pub value: Seq<u8>,
}

impl View for Append {
    type V = AppendV;

    open spec fn view(&self) -> AppendV {
        AppendV { prefix: self.prefix@, end: self.end, value: self.value@ }
    }
}

pub open spec fn appends_v(v: Seq<Append>) -> Seq<AppendV> {
    v.map_values(|a: Append| a@)
}

/// An atomic batch of writes.
pub struct Batch {
    pub changes: Vec<Change>,
    pub clears: Vec<Vec<u8>>,
    pub appends: Vec<Append>,
}

pub struct BatchV {
    pub changes: Seq<ChangeV>,
    pub clears: Seq<Seq<u8>>,
    pub appends: Seq<AppendV>,
}

pub open spec fn keys_v(v: Seq<Vec<u8>>) -> Seq<Seq<u8>> {
    v.map_values(|k: Vec<u8>| k@)
}

impl View for Batch {
    type V = BatchV;

    open spec fn view(&self) -> BatchV {
        BatchV {
            changes: changes_v(self.changes@),
            clears: keys_v(self.clears@),
            appends: appends_v(self.appends@),
        }
    }
}

/// The batch once `op` is recorded.
pub open spec fn recorded(b: BatchV, op: OpV) -> BatchV {
    match op {
        OpV::Put { key, value } => BatchV {
            changes: b.changes.push(ChangeV::Put { key, value }),
            ..b
        },
        OpV::Delete { key } => BatchV { changes: b.changes.push(ChangeV::Delete { key }), ..b },
        OpV::Merge { key, value } => BatchV {
            changes: b.changes.push(ChangeV::Merge { key, value }),
            ..b
        },
        OpV::DeletePrefix { prefix } => BatchV { clears: b.clears.push(prefix), ..b },
        OpV::ListPush { prefix, value } => BatchV {
            appends: b.appends.push(AppendV { prefix, end: End::ListBack, value }),
            ..b
        },
        OpV::DequePushBack { prefix, value } => BatchV {
            appends: b.appends.push(AppendV { prefix, end: End::DequeBack, value }),
            ..b
        },
        OpV::DequePushFront { prefix, value } => BatchV {
            appends: b.appends.push(AppendV { prefix, end: End::DequeFront, value }),
            ..b
        },
    }
}

pub open spec fn empty_batch() -> BatchV {
    BatchV { changes: Seq::empty(), clears: Seq::empty(), appends: Seq::empty() }
}

/// The batch `b` with the first `n` operations recorded in it.
pub open spec fn recorded_all(b: BatchV, ops: Seq<OpV>, n: int) -> BatchV
    decreases n,
{
    if n <= 0 || n > ops.len() {
        b
    } else {
        recorded(recorded_all(b, ops, n - 1), ops[n - 1])
    }
}

/// The batch of the first `n` operations.
pub open spec fn batch_of(ops: Seq<OpV>, n: int) -> BatchV {
    recorded_all(empty_batch(), ops, n)
}

/// The name of a list's length.
pub open spec fn len_name() -> Seq<u8> {
    seq![0x6cu8, 0x65u8, 0x6eu8]
}

/// The name of a deque's first index.
pub open spec fn head_name() -> Seq<u8> {
    seq![0x68u8, 0x65u8, 0x61u8, 0x64u8]
}

/// The name of the index behind a deque's last.
pub open spec fn tail_name() -> Seq<u8> {
    seq![0x74u8, 0x61u8, 0x69u8, 0x6cu8]
}

/// The key of a list's length.
pub fn len_key(prefix: &[u8]) -> (r: Vec<u8>)
    ensures
        r@ == meta_of(prefix@, len_name()),
{
    let n: [u8; 3] = [0x6c, 0x65, 0x6e];
    assert(n@ =~= len_name());
    meta_key(prefix, &n)
}

/// The key of a deque's first index.
pub fn head_key(prefix: &[u8]) -> (r: Vec<u8>)
    ensures
        r@ == meta_of(prefix@, head_name()),
{
    let n: [u8; 4] = [0x68, 0x65, 0x61, 0x64];
    assert(n@ =~= head_name());
    meta_key(prefix, &n)
}

/// The key of the index behind a deque's last.
pub fn tail_key(prefix: &[u8]) -> (r: Vec<u8>)
    ensures
        r@ == meta_of(prefix@, tail_name()),
{
    let n: [u8; 4] = [0x74, 0x61, 0x69, 0x6c];
    assert(n@ =~= tail_name());
    meta_key(prefix, &n)
}

/// Puts of the first `n` values at the list indices from `len` on.
pub open spec fn list_puts(prefix: Seq<u8>, len: int, values: Seq<Seq<u8>>, n: int) -> Seq<ChangeV>
    decreases n,
{
    if n <= 0 || n > values.len() {
        Seq::empty()
    } else {
        list_puts(prefix, len, values, n - 1).push(
            ChangeV::Put {
                key: child_of(prefix, ordered_u64(len + n - 1)),
                value: values[n - 1],
            },
        )
    }
}

/// Puts of the first `n` values at the deque indices from `at` on, upwards or
/// downwards.
pub open spec fn deque_puts(
    prefix: Seq<u8>,
    at: int,
    back: bool,
    values: Seq<Seq<u8>>,
    n: int,
) -> Seq<ChangeV>
    decreases n,
{
    if n <= 0 || n > values.len() {
        Seq::empty()
    } else {
        deque_puts(prefix, at, back, values, n - 1).push(
            ChangeV::Put {
                key: child_of(
                    prefix,
                    ordered_i64(
                        if back {
                            at + n - 1
                        } else {
                            at - n
                        },
                    ),
                ),
                value: values[n - 1],
            },
        )
    }
}

pub open spec fn full() -> ErrorV {
    ErrorV::Corruption("collection index out of range"@)
}

/// The length of the list at `prefix`.
pub open spec fn list_len(s: Seq<RowV>, prefix: Seq<u8>) -> Result<u64, ErrorV> {
    match u64_at(s, meta_of(prefix, len_name())) {
        Ok(Some(n)) => Ok(n),
        Ok(None) => Ok(0),
        Err(e) => Err(e),
    }
}

/// The first index of the deque at `prefix`.
pub open spec fn deque_head(s: Seq<RowV>, prefix: Seq<u8>) -> Result<i64, ErrorV> {
    match i64_at(s, meta_of(prefix, head_name())) {
        Ok(Some(n)) => Ok(n),
        Ok(None) => Ok(0),
        Err(e) => Err(e),
    }
}

/// The index behind the last of the deque at `prefix`.
pub open spec fn deque_tail(s: Seq<RowV>, prefix: Seq<u8>) -> Result<i64, ErrorV> {
    match i64_at(s, meta_of(prefix, tail_name())) {
        Ok(Some(n)) => Ok(n),
        Ok(None) => Ok(0),
        Err(e) => Err(e),
    }
}

/// The stored form of a deque index.
pub open spec fn index_bytes(i: int) -> Seq<u8> {
    le(twos(i) as int, 8)
}

/// The changes that append `values` to the list at `prefix`.
pub open spec fn list_changes(s: Seq<RowV>, prefix: Seq<u8>, values: Seq<Seq<u8>>) -> Result<
    Seq<ChangeV>,
    ErrorV,
> {
    let n = values.len() as int;
    match list_len(s, prefix) {
        Err(e) => Err(e),
        Ok(len) => if len + n > u64::MAX {
            Err(full())
        } else {
            Ok(
                list_puts(prefix, len as int, values, n).push(
                    ChangeV::Put { key: meta_of(prefix, len_name()), value: le(len + n, 8) },
                ),
            )
        },
    }
}

/// The changes that append `backs` to the back and `fronts` to the front of the
/// deque at `prefix`.
pub open spec fn deque_changes(
    s: Seq<RowV>,
    prefix: Seq<u8>,
    backs: Seq<Seq<u8>>,
    fronts: Seq<Seq<u8>>,
) -> Result<Seq<ChangeV>, ErrorV> {
    let b = backs.len() as int;
    let f = fronts.len() as int;
    match deque_head(s, prefix) {
        Err(e) => Err(e),
        Ok(head) => match deque_tail(s, prefix) {
            Err(e) => Err(e),
            Ok(tail) => if head - f < i64::MIN || tail + b > i64::MAX {
                Err(full())
            } else {
                Ok(
                    (deque_puts(prefix, tail as int, true, backs, b) + deque_puts(
                        prefix,
                        head as int,
                        false,
                        fronts,
                        f,
                    )).push(
                        ChangeV::Put {
                            key: meta_of(prefix, head_name()),
                            value: index_bytes(head - f),
                        },
                    ).push(
                        ChangeV::Put {
                            key: meta_of(prefix, tail_name()),
                            value: index_bytes(tail + b),
                        },
                    ),
                )
            },
        },
    }
}

/// The changes of all the appends to the collection at `prefix`, a list or a
/// deque as `end` says.
pub open spec fn group_changes(
    s: Seq<RowV>,
    prefix: Seq<u8>,
    end: End,
    appends: Seq<AppendV>,
) -> Result<Seq<ChangeV>, ErrorV> {
    let n = appends.len() as int;
    match end {
        End::ListBack => list_changes(
            s,
            prefix,
            values_for(appends, prefix, End::ListBack, n),
        ),
        _ => deque_changes(
            s,
            prefix,
            values_for(appends, prefix, End::DequeBack, n),
            values_for(appends, prefix, End::DequeFront, n),
        ),
    }
}

/// The values that the appends among the first `n` add to one end of one
/// collection.
pub open spec fn values_for(appends: Seq<AppendV>, prefix: Seq<u8>, end: End, n: int) -> Seq<
    Seq<u8>,
>
    decreases n,
{
    if n <= 0 || n > appends.len() {
        Seq::empty()
    } else {
        let rest = values_for(appends, prefix, end, n - 1);
        let a = appends[n - 1];
        if a.prefix == prefix && a.end == end {
            rest.push(a.value)
        } else {
            rest
        }
    }
}

/// The append goes to the collection at `prefix`, a list or a deque as `end`
/// says.
pub open spec fn goes_to(a: AppendV, prefix: Seq<u8>, end: End) -> bool {
    a.prefix == prefix && (a.end == End::ListBack) == (end == End::ListBack)
}

/// One of the first `n` appends goes to the given collection.
pub open spec fn appended_to(appends: Seq<AppendV>, prefix: Seq<u8>, end: End, n: int) -> bool {
    exists|i: int| 0 <= i < n && #[trigger] goes_to(appends[i], prefix, end)
}

/// The changes of the groups that begin among the first `n` appends; a group
/// begins with the first append to a collection and holds all of them.
pub open spec fn append_changes(s: Seq<RowV>, appends: Seq<AppendV>, n: int) -> Result<
    Seq<ChangeV>,
    ErrorV,
>
    decreases n,
{
    if n <= 0 || n > appends.len() {
        Ok(Seq::empty())
    } else {
        match append_changes(s, appends, n - 1) {
            Err(e) => Err(e),
            Ok(cs) => {
                let a = appends[n - 1];
                if appended_to(appends, a.prefix, a.end, n - 1) {
                    Ok(cs)
                } else {
                    match group_changes(s, a.prefix, a.end, appends) {
                        Err(e) => Err(e),
                        Ok(more) => Ok(cs + more),
                    }
                }
            },
        }
    }
}

proof fn lemma_append_err(s: Seq<RowV>, appends: Seq<AppendV>, i: int, n: int)
    requires
        0 <= i <= n <= appends.len(),
        append_changes(s, appends, i) is Err,
    ensures
        append_changes(s, appends, n) == append_changes(s, appends, i),
    decreases n,
{
    if i < n {
        lemma_append_err(s, appends, i, n - 1);
    }
}

/// The delete of the subtree at `p`: a range, or where the range has no end
/// each key of the committed rows `s` in it.
pub open spec fn one_clear(s: Seq<RowV>, p: Seq<u8>) -> Seq<ChangeV> {
    if upper_bound(p) is Some {
        seq![ChangeV::DeletePrefix { prefix: p }]
    } else {
        scan_of(s, p).map_values(|r: RowV| ChangeV::Delete { key: r.0 })
    }
}

/// The deletes of the first `n` subtrees.
pub open spec fn clear_changes(s: Seq<RowV>, clears: Seq<Seq<u8>>, n: int) -> Seq<ChangeV>
    decreases n,
{
    if n <= 0 || n > clears.len() {
        Seq::empty()
    } else {
        clear_changes(s, clears, n - 1) + one_clear(s, clears[n - 1])
    }
}

/// The changes that a batch makes to the rows `s`: its blind writes, then its
/// subtree deletes, then its appends.
pub open spec fn resolved(s: Seq<RowV>, b: BatchV) -> Result<Seq<ChangeV>, ErrorV> {
    match append_changes(s, b.appends, b.appends.len() as int) {
        Err(e) => Err(e),
        Ok(more) => Ok(b.changes + clear_changes(s, b.clears, b.clears.len() as int) + more),
    }
}

/// The rows once a batch is committed.
pub open spec fn committed(f: Seq<FactV>, s: Seq<RowV>, b: BatchV) -> Result<Seq<RowV>, ErrorV> {
    match resolved(s, b) {
        Err(e) => Err(e),
        Ok(cs) => match changed_all(f, s, cs, cs.len() as int) {
            TryV::Done(t) => Ok(t),
            TryV::Fail(m) => Err(ErrorV::Corruption(m)),
            TryV::Need(q) => Err(ErrorV::Need(q)),
        },
    }
}

fn put_change(key: Vec<u8>, value: &[u8]) -> (r: Change)
    ensures
        r@ == (ChangeV::Put { key: key@, value: value@ }),
{
    Change::Put { key, value: copy_bytes(value) }
}

fn push_change(out: &mut Vec<Change>, c: Change)
    ensures
        changes_v(final(out)@) == changes_v(old(out)@).push(c@),
{
    out.push(c);
    assert(changes_v(out@) =~= changes_v(old(out)@).push(c@));
}

/// The delete of the subtree at `p`, behind `out`.
fn clear_into(out: &mut Vec<Change>, db: &Db, p: &[u8])
    ensures
        changes_v(final(out)@) == changes_v(old(out)@) + one_clear(db@, p@),
{
    let ghost before = changes_v(out@);
    match prefix_upper_bound(p) {
        Some(_) => {
            push_change(out, Change::DeletePrefix { prefix: copy_bytes(p) });
            assert(changes_v(out@) =~= before + one_clear(db@, p@));
        },
        None => {
            let rows: Vec<(Vec<u8>, Vec<u8>)> = db.scan(p);
            let ghost want = one_clear(db@, p@);
            let mut i: usize = 0;
            assert(changes_v(out@) =~= before + want.take(0));
            while i < rows.len()
                invariant
                    i <= rows@.len(),
                    rows_v(rows@) == scan_of(db@, p@),
                    want == scan_of(db@, p@).map_values(|r: RowV| ChangeV::Delete { key: r.0 }),
                    changes_v(out@) == before + want.take(i as int),
                decreases rows@.len() - i,
            {
                assert(rows_v(rows@)[i as int] == (rows@[i as int].0@, rows@[i as int].1@));
                let key: Vec<u8> = copy_bytes(rows[i].0.as_slice());
                push_change(out, Change::Delete { key });
                assert(want.take(i + 1) =~= want.take(i as int).push(want[i as int]));
                assert(changes_v(out@) =~= before + want.take(i + 1));
                i = i + 1;
            }
            assert(want.take(i as int) =~= want);
        },
    }
}

fn list_group(db: &Db, prefix: &[u8], values: &Vec<Vec<u8>>) -> (r: Result<Vec<Change>, Error>)
    ensures
        match (r, list_changes(db@, prefix@, keys_v(values@))) {
            (Ok(v), Ok(w)) => changes_v(v@) == w,
            (Err(e), Err(w)) => e@ == w,
            _ => false,
        },
{
    let lk: Vec<u8> = len_key(prefix);
    let len: u64 = match db.read_u64(lk.as_slice())? {
        Some(n) => n,
        None => 0,
    };
    if values.len() as u64 > u64::MAX - len {
        return corruption("collection index out of range");
    }
    let ghost vv = keys_v(values@);
    let mut out: Vec<Change> = Vec::new();
    let mut i: usize = 0;
    assert(changes_v(out@) =~= list_puts(prefix@, len as int, vv, 0));
    while i < values.len()
        invariant
            i <= values@.len(),
            vv == keys_v(values@),
            len + values@.len() <= u64::MAX,
            changes_v(out@) == list_puts(prefix@, len as int, vv, i as int),
        decreases values@.len() - i,
    {
        assert(vv[i as int] == values@[i as int]@);
        let ix = order_u64(len + i as u64);
        let key: Vec<u8> = child_key(prefix, &ix);
        push_change(&mut out, put_change(key, values[i].as_slice()));
        i = i + 1;
    }
    let b = le_bytes(len + values.len() as u64);
    push_change(&mut out, put_change(lk, &b));
    Ok(out)
}

/// The puts of `values` from `at` on, backwards or forwards, behind `out`.
fn put_side(out: &mut Vec<Change>, prefix: &[u8], at: i64, back: bool, values: &Vec<Vec<u8>>)
    requires
        back ==> at + values@.len() <= i64::MAX,
        !back ==> at - values@.len() >= i64::MIN,
    ensures
        changes_v(final(out)@) == changes_v(old(out)@) + deque_puts(
            prefix@,
            at as int,
            back,
            keys_v(values@),
            values@.len() as int,
        ),
{
    let ghost vv = keys_v(values@);
    let ghost before = changes_v(out@);
    let n: i128 = values.len() as i128;
    let mut i: usize = 0;
    assert(before + deque_puts(prefix@, at as int, back, vv, 0) =~= before);
    while i < values.len()
        invariant
            i <= values@.len(),
            n == values@.len(),
            vv == keys_v(values@),
            back ==> at + n <= i64::MAX,
            !back ==> at - n >= i64::MIN,
            changes_v(out@) == before + deque_puts(prefix@, at as int, back, vv, i as int),
        decreases values@.len() - i,
    {
        assert(vv[i as int] == values@[i as int]@);
        let ix: i128 = if back {
            at as i128 + i as i128
        } else {
            at as i128 - i as i128 - 1
        };
        let o = order_i64(ix as i64);
        let key: Vec<u8> = child_key(prefix, &o);
        push_change(out, put_change(key, values[i].as_slice()));
        assert(changes_v(out@) =~= before + deque_puts(prefix@, at as int, back, vv, i + 1));
        i = i + 1;
    }
}

fn deque_group(db: &Db, prefix: &[u8], backs: &Vec<Vec<u8>>, fronts: &Vec<Vec<u8>>) -> (r: Result<
    Vec<Change>,
    Error,
>)
    ensures
        match (r, deque_changes(db@, prefix@, keys_v(backs@), keys_v(fronts@))) {
            (Ok(v), Ok(w)) => changes_v(v@) == w,
            (Err(e), Err(w)) => e@ == w,
            _ => false,
        },
{
    let hk: Vec<u8> = head_key(prefix);
    let tk: Vec<u8> = tail_key(prefix);
    let head: i64 = match db.read_i64(hk.as_slice())? {
        Some(n) => n,
        None => 0,
    };
    let tail: i64 = match db.read_i64(tk.as_slice())? {
        Some(n) => n,
        None => 0,
    };
    let new_head: i128 = head as i128 - fronts.len() as i128;
    let new_tail: i128 = tail as i128 + backs.len() as i128;
    if new_head < i64::MIN as i128 || new_tail > i64::MAX as i128 {
        return corruption("collection index out of range");
    }
    let mut out: Vec<Change> = Vec::new();
    assert(changes_v(out@) =~= Seq::<ChangeV>::empty());
    put_side(&mut out, prefix, tail, true, backs);
    assert(changes_v(out@) =~= deque_puts(
        prefix@,
        tail as int,
        true,
        keys_v(backs@),
        backs@.len() as int,
    ));
    put_side(&mut out, prefix, head, false, fronts);
    let hb = le_bytes(i64_bits(new_head as i64));
    push_change(&mut out, put_change(hk, &hb));
    let tb = le_bytes(i64_bits(new_tail as i64));
    push_change(&mut out, put_change(tk, &tb));
    Ok(out)
}

impl Batch {
    pub fn new() -> (r: Batch)
        ensures
            r@ == empty_batch(),
    {
        let r = Batch { changes: Vec::new(), clears: Vec::new(), appends: Vec::new() };
        assert(r@.changes =~= empty_batch().changes);
        assert(r@.clears =~= empty_batch().clears);
        assert(r@.appends =~= empty_batch().appends);
        r
    }

    fn add_append(&mut self, prefix: Vec<u8>, end: End, value: Vec<u8>)
        ensures
            final(self)@ == (BatchV {
                appends: old(self)@.appends.push(
                    AppendV { prefix: prefix@, end, value: value@ },
                ),
                ..old(self)@
            }),
    {
        let ghost before = self.appends@;
        let a = Append { prefix, end, value };
        let ghost av = a@;
        self.appends.push(a);
        assert(appends_v(self.appends@) =~= appends_v(before).push(av));
    }

    /// Record a reified write in this batch.
    pub fn write(&mut self, write: Write)
        ensures
            final(self)@ == recorded(old(self)@, write@),
    {
        match write.into_op() {
            Op::Put { key, value } => push_change(&mut self.changes, Change::Put { key, value }),
            Op::Delete { key } => push_change(&mut self.changes, Change::Delete { key }),
            Op::Merge { key, value } => push_change(
                &mut self.changes,
                Change::Merge { key, value },
            ),
            Op::DeletePrefix { prefix } => {
                let ghost before = self.clears@;
                let ghost pv = prefix@;
                self.clears.push(prefix);
                assert(keys_v(self.clears@) =~= keys_v(before).push(pv));
            },
            Op::ListPush { prefix, value } => self.add_append(prefix, End::ListBack, value),
            Op::DequePushBack { prefix, value } => self.add_append(prefix, End::DequeBack, value),
            Op::DequePushFront { prefix, value } => self.add_append(prefix, End::DequeFront, value),
        }
    }

    /// Record several reified writes.
    pub fn extend(&mut self, writes: Vec<Write>)
        ensures
            final(self)@ == recorded_all(
                old(self)@,
                writes_v(writes@),
                writes@.len() as int,
            ),
    {
        let ghost wv = writes_v(writes@);
        let mut rest: Vec<Write> = writes;
        let ghost n = wv.len() as int;
        let mut rev: Vec<Write> = Vec::new();
        let mut i: usize = 0;
        let len: usize = rest.len();
        while i < len
            invariant
                i <= len,
                rest@.len() == len - i,
                rev@.len() == i,
                wv.len() == len,
                forall|j: int| 0 <= j < rest@.len() ==> (#[trigger] rest@[j])@ == wv[j],
                forall|j: int| 0 <= j < i ==> (#[trigger] rev@[j])@ == wv[len - 1 - j],
            decreases len - i,
        {
            match rest.pop() {
                Some(w) => {
                    rev.push(w);
                },
                None => {},
            }
            i = i + 1;
        }
        let mut k: usize = 0;
        while k < len
            invariant
                k <= len,
                rev@.len() == len - k,
                wv.len() == len,
                forall|j: int| 0 <= j < rev@.len() ==> (#[trigger] rev@[j])@ == wv[len - 1 - j],
                self@ == recorded_all(old(self)@, wv, k as int),
            decreases len - k,
        {
            match rev.pop() {
                Some(w) => {
                    assert(w@ == wv[k as int]);
                    self.write(w);
                },
                None => {},
            }
            k = k + 1;
        }
    }

    fn group_values(&self, prefix: &Vec<u8>, end: End, n: usize) -> (r: Vec<Vec<u8>>)
        requires
            n <= self.appends@.len(),
        ensures
            keys_v(r@) == values_for(self@.appends, prefix@, end, n as int),
    {
        let mut out: Vec<Vec<u8>> = Vec::new();
        let mut i: usize = 0;
        assert(keys_v(out@) =~= Seq::<Seq<u8>>::empty());
        while i < n
            invariant
                i <= n <= self.appends@.len(),
                keys_v(out@) == values_for(self@.appends, prefix@, end, i as int),
            decreases n - i,
        {
            assert(self@.appends[i as int] == self.appends@[i as int]@);
            if self.appends[i].end == end && bytes_eq(
                self.appends[i].prefix.as_slice(),
                prefix.as_slice(),
            ) {
                let ghost before = out@;
                let v: Vec<u8> = copy_bytes(self.appends[i].value.as_slice());
                let ghost vv = v@;
                out.push(v);
                assert(keys_v(out@) =~= keys_v(before).push(vv));
            }
            i = i + 1;
        }
        out
    }

    /// Whether one of the first `n` appends goes to the given collection.
    fn is_appended(&self, prefix: &Vec<u8>, end: End, n: usize) -> (r: bool)
        requires
            n <= self.appends@.len(),
        ensures
            r == appended_to(self@.appends, prefix@, end, n as int),
    {
        let mut i: usize = 0;
        while i < n
            invariant
                i <= n <= self.appends@.len(),
                forall|j: int| 0 <= j < i ==> !#[trigger] goes_to(self@.appends[j], prefix@, end),
            decreases n - i,
        {
            assert(self@.appends[i as int] == self.appends@[i as int]@);
            if (self.appends[i].end == End::ListBack) == (end == End::ListBack) && bytes_eq(
                self.appends[i].prefix.as_slice(),
                prefix.as_slice(),
            ) {
                assert(goes_to(self@.appends[i as int], prefix@, end));
                return true;
            }
            i = i + 1;
        }
        false
    }

    /// The changes of the appends, each group of appends to one collection at
    /// the place of its first.
    fn resolve_appends(&self, db: &Db) -> (r: Result<Vec<Change>, Error>)
        ensures
            match (r, append_changes(db@, self@.appends, self@.appends.len() as int)) {
                (Ok(v), Ok(w)) => changes_v(v@) == w,
                (Err(e), Err(w)) => e@ == w,
                _ => false,
            },
    {
        let ghost av = self@.appends;
        let mut out: Vec<Change> = Vec::new();
        let mut i: usize = 0;
        assert(changes_v(out@) =~= Seq::<ChangeV>::empty());
        while i < self.appends.len()
            invariant
                i <= self.appends@.len(),
                av == self@.appends,
                av.len() == self.appends@.len(),
                append_changes(db@, av, i as int) == Ok::<Seq<ChangeV>, ErrorV>(changes_v(out@)),
            decreases self.appends@.len() - i,
        {
            assert(av[i as int] == self.appends@[i as int]@);
            let end: End = self.appends[i].end;
            let n: usize = self.appends.len();
            if !self.is_appended(&self.appends[i].prefix, end, i) {
                let prefix = &self.appends[i].prefix;
                let r: Result<Vec<Change>, Error> = if end == End::ListBack {
                    let values: Vec<Vec<u8>> = self.group_values(prefix, End::ListBack, n);
                    list_group(db, prefix.as_slice(), &values)
                } else {
                    let backs: Vec<Vec<u8>> = self.group_values(prefix, End::DequeBack, n);
                    let fronts: Vec<Vec<u8>> = self.group_values(prefix, End::DequeFront, n);
                    deque_group(db, prefix.as_slice(), &backs, &fronts)
                };
                match r {
                    Err(e) => {
                        proof {
                            lemma_append_err(db@, av, i + 1, av.len() as int);
                        }
                        return Err(e);
                    },
                    Ok(mut more) => {
                        let ghost before = out@;
                        let ghost mv = more@;
                        out.append(&mut more);
                        assert(changes_v(out@) =~= changes_v(before) + changes_v(mv));
                    },
                }
            }
            i = i + 1;
        }
        Ok(out)
    }

    /// The changes that the batch makes.
    pub fn resolve(self, db: &Db) -> (r: Result<Vec<Change>, Error>)
        ensures
            match (r, resolved(db@, self@)) {
                (Ok(v), Ok(w)) => changes_v(v@) == w,
                (Err(e), Err(w)) => e@ == w,
                _ => false,
            },
    {
        let mut more: Vec<Change> = self.resolve_appends(db)?;
        let ghost b = self@;
        let mut out: Vec<Change> = self.changes;
        let clears: Vec<Vec<u8>> = self.clears;
        let mut i: usize = 0;
        assert(changes_v(out@) =~= b.changes + clear_changes(db@, b.clears, 0));
        while i < clears.len()
            invariant
                i <= clears@.len(),
                b.clears == keys_v(clears@),
                changes_v(out@) == b.changes + clear_changes(db@, b.clears, i as int),
            decreases clears@.len() - i,
        {
            clear_into(&mut out, db, clears[i].as_slice());
            assert(changes_v(out@) =~= b.changes + clear_changes(db@, b.clears, i + 1));
            i = i + 1;
        }
        let ghost before = out@;
        let ghost mv = more@;
        out.append(&mut more);
        assert(changes_v(out@) =~= changes_v(before) + changes_v(mv));
        Ok(out)
    }
}

impl Db {
    /// Makes one change.
    fn change(&mut self, floats: &FloatTable, c: &Change) -> (r: Try<()>)
        requires
            old(self).wf(),
        ensures
            final(self).wf(),
            match (r, changed(floats@, old(self)@, c@)) {
                (Try::Done(_), TryV::Done(t)) => final(self)@ == t,
                (Try::Fail(m), TryV::Fail(w)) => m@ == w,
                (Try::Need(q), TryV::Need(w)) => q@ == w,
                _ => false,
            },
    {
        match c {
            Change::Put { key, value } => {
                self.put(key.as_slice(), value.as_slice());
                Try::Done(())
            },
            Change::Delete { key } => {
                self.delete(key.as_slice());
                Try::Done(())
            },
            Change::DeletePrefix { prefix } => {
                self.clear(prefix.as_slice());
                Try::Done(())
            },
            Change::Merge { key, value } => {
                let acc: Option<Tagged> = match self.get(key.as_slice()) {
                    Some(b) => read_sum(b.as_slice()),
                    None => None,
                };
                match fold_tagged(floats, acc, value.as_slice()) {
                    Try::Done(Some(a)) => {
                        let b: Vec<u8> = put_sum(a.tag, a.bits);
                        self.put(key.as_slice(), b.as_slice());
                        Try::Done(())
                    },
                    Try::Done(None) => Try::Done(()),
                    Try::Fail(m) => Try::Fail(m),
                    Try::Need(q) => Try::Need(q),
                }
            },
        }
    }

    /// Makes all changes, or none of them.
    pub fn commit(&mut self, floats: &FloatTable, changes: &Vec<Change>) -> (r: Try<()>)
        requires
            old(self).wf(),
        ensures
            final(self).wf(),
            match (
                r,
                changed_all(floats@, old(self)@, changes_v(changes@), changes@.len() as int),
            ) {
                (Try::Done(_), TryV::Done(t)) => final(self)@ == t,
                (Try::Fail(m), TryV::Fail(w)) => m@ == w && final(self)@ == old(self)@,
                (Try::Need(q), TryV::Need(w)) => q@ == w && final(self)@ == old(self)@,
                _ => false,
            },
    {
        let mut next: Db = self.copy();
        let ghost cv = changes_v(changes@);
        let mut i: usize = 0;
        while i < changes.len()
            invariant
                *self == *old(self),
                self.wf(),
                i <= changes@.len(),
                cv == changes_v(changes@),
                next.wf(),
                changed_all(floats@, self@, cv, i as int) == TryV::Done(next@),
            decreases changes@.len() - i,
        {
            assert(cv[i as int] == changes@[i as int]@);
            match next.change(floats, &changes[i]) {
                Try::Done(_) => {},
                other => {
                    proof {
                        lemma_changed_stop(floats@, self@, cv, i + 1, cv.len() as int);
                    }
                    return other;
                },
            }
            i = i + 1;
        }
        self.rows = next.rows;
        Try::Done(())
    }

    /// Commits a batch: all of it, or nothing.
    pub fn commit_batch(&mut self, floats: &FloatTable, batch: Batch) -> (r: Result<(), Error>)
        requires
            old(self).wf(),
        ensures
            final(self).wf(),
            match (r, committed(floats@, old(self)@, batch@)) {
                (Ok(_), Ok(t)) => final(self)@ == t,
                (Err(e), Err(w)) => e@ == w && final(self)@ == old(self)@,
                _ => false,
            },
    {
        let changes: Vec<Change> = batch.resolve(self)?;
        match self.commit(floats, &changes) {
            Try::Done(_) => Ok(()),
            Try::Fail(m) => Err(Error::Corruption(m)),
            Try::Need(q) => Err(Error::Need(q)),
        }
    }

    /// Apply reified writes atomically.
    pub fn apply(&mut self, floats: &FloatTable, writes: Vec<Write>) -> (r: Result<(), Error>)
        requires
            old(self).wf(),
        ensures
            final(self).wf(),
            match (
                r,
                committed(
                    floats@,
                    old(self)@,
                    batch_of(writes_v(writes@), writes@.len() as int),
                ),
            ) {
                (Ok(_), Ok(t)) => final(self)@ == t,
                (Err(e), Err(w)) => e@ == w && final(self)@ == old(self)@,
                _ => false,
            },
    {
        let mut batch: Batch = Batch::new();
        batch.extend(writes);
        self.commit_batch(floats, batch)
    }

    /// Apply a single write.
    pub fn run(&mut self, floats: &FloatTable, write: Write) -> (r: Result<(), Error>)
        requires
            old(self).wf(),
        ensures
            final(self).wf(),
            match (
                r,
                committed(floats@, old(self)@, recorded(empty_batch(), write@)),
            ) {
                (Ok(_), Ok(t)) => final(self)@ == t,
                (Err(e), Err(w)) => e@ == w && final(self)@ == old(self)@,
                _ => false,
            },
    {
        let mut batch: Batch = Batch::new();
        batch.write(write);
        self.commit_batch(floats, batch)
    }
}

pub open spec fn writes_v(v: Seq<Write>) -> Seq<OpV> {
    v.map_values(|w: Write| w@)
}

} // verus!
