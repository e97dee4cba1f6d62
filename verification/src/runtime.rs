//! Event-sourced state: the tape of events is the truth, and the store is what
//! a reducer makes of it.
//!
//! Events get a sequence number and a timestamp before they are reduced. Replay
//! goes by those, never by a clock.

use crate::codec::{child_key, child_of, put_segment, segment, uvarint};
use crate::data::{cbor_bytes, encode, Data, DataV};
use crate::db::{Db, RowV};
use crate::dynpath::{add_of, clear_of, delete_of, push_of, put_of};
use crate::error::{Error, ErrorV};
use crate::explain::{explain, planned, Plan};
use crate::float::{extends, FactV, FloatTable};
use crate::learning::law_commits_are_steady;
use crate::nav::{copy_query, navs_v, Nav, Query, QueryV};
use crate::op::{batch_of, committed, writes_v, Op, OpV, Write};
use crate::path::{leaf_at, read_leaf};
use crate::query::{same_data, same_list, same_pairs};
use crate::shape::{field_segment, Shape};
use crate::terminal::{
    entries, entries_of, named_v, one, one_of, project, projected, select, selected, subtree,
    subtree_of,
};
use crate::text::{chars_of, dec, dec_u64, string_of, trim, trimmed};
use vstd::prelude::*;
use vstd::string::*;
use vstd::utf8::encode_utf8;

verus! {

/// What an event is stamped with: its place on the tape, and milliseconds that
/// never step backwards.
#[derive(Clone, Copy, Debug, PartialEq, Eq, Structural)]
pub struct Meta {
    pub seq: u64,
    pub ts_ms: u64,
}

/// One line of the tape.
#[derive(Debug)]
pub struct Record<E> {
    pub seq: u64,
    pub ts_ms: u64,
    pub event: E,
}

impl<E> Record<E> {
    /// The stamp of the record.
    pub open spec fn stamp(&self) -> Meta {
        Meta { seq: self.seq, ts_ms: self.ts_ms }
    }

    /// The stamp of the record.
    pub fn meta(&self) -> (r: Meta)
        ensures
            r == self.stamp(),
    {
        Meta { seq: self.seq, ts_ms: self.ts_ms }
    }
}

/// A transaction of a reducer: the writes of one event. They are not seen by
/// reads of the store before they are committed.
pub struct Tx {
    pub writes: Vec<Write>,
    pub meta: Meta,
}

/// The model of a transaction.
pub struct TxV {
    pub ops: Seq<OpV>,
    pub meta: Meta,
}

impl View for Tx {
    type V = TxV;

    open spec fn view(&self) -> TxV {
        TxV { ops: writes_v(self.writes@), meta: self.meta }
    }
}

impl TxV {
    /// With more operations.
    pub open spec fn with(self, ops: Seq<OpV>) -> TxV {
        TxV { ops: self.ops + ops, ..self }
    }
}

/// The outcome of recording operations.
pub open spec fn recorded_in(
    r: Result<(), Error>,
    want: Result<Seq<OpV>, ErrorV>,
    before: TxV,
    after: TxV,
) -> bool {
    match (r, want) {
        (Ok(_), Ok(ops)) => after == before.with(ops),
        (Err(e), Err(w)) => e@ == w && after == before,
        _ => false,
    }
}

/// One operation, if there is one.
pub open spec fn single(r: Result<OpV, ErrorV>) -> Result<Seq<OpV>, ErrorV> {
    match r {
        Ok(op) => Ok(seq![op]),
        Err(e) => Err(e),
    }
}

impl Tx {
    pub fn new(meta: Meta) -> (r: Tx)
        ensures
            r@ == (TxV { ops: Seq::empty(), meta }),
    {
        let r = Tx { writes: Vec::new(), meta };
        assert(r@.ops =~= Seq::<OpV>::empty());
        r
    }

    /// The stamp of the event.
    pub fn meta(&self) -> (r: Meta)
        ensures
            r == self@.meta,
    {
        self.meta
    }

    /// The place of the event on the tape.
    pub fn seq(&self) -> (r: u64)
        ensures
            r == self@.meta.seq,
    {
        self.meta.seq
    }

    /// Record a write.
    pub fn write(&mut self, write: Write)
        ensures
            final(self)@ == old(self)@.with(seq![write@]),
    {
        let ghost before = self.writes@;
        self.writes.push(write);
        assert(writes_v(self.writes@) =~= writes_v(before) + seq![write@]);
    }

    /// Record several writes.
    pub fn extend(&mut self, writes: Vec<Write>)
        ensures
            final(self)@ == old(self)@.with(writes_v(writes@)),
    {
        let ghost before = self.writes@;
        let ghost more = writes@;
        let mut rest: Vec<Write> = writes;
        self.writes.append(&mut rest);
        assert(writes_v(self.writes@) =~= writes_v(before) + writes_v(more));
    }

    /// Put `value` where `navs` leads.
    pub fn put(&mut self, schema: &Shape, navs: &Vec<Nav>, value: &Data) -> (r: Result<(), Error>)
        ensures
            recorded_in(
                r,
                put_of(schema@, None, navs_v(*navs), value@),
                old(self)@,
                final(self)@,
            ),
    {
        let ws: Vec<Write> = crate::dynpath::put(schema, None, navs, value)?;
        self.extend(ws);
        Ok(())
    }

    /// Delete where `navs` leads.
    pub fn delete(&mut self, schema: &Shape, navs: &Vec<Nav>) -> (r: Result<(), Error>)
        ensures
            recorded_in(
                r,
                single(delete_of(schema@, None, navs_v(*navs))),
                old(self)@,
                final(self)@,
            ),
    {
        let w: Write = crate::dynpath::delete(schema, None, navs)?;
        self.write(w);
        Ok(())
    }

    /// Add to the sum where `navs` leads.
    pub fn add(&mut self, schema: &Shape, navs: &Vec<Nav>, delta: &Data) -> (r: Result<(), Error>)
        ensures
            recorded_in(
                r,
                single(add_of(schema@, None, navs_v(*navs), delta@)),
                old(self)@,
                final(self)@,
            ),
    {
        let w: Write = crate::dynpath::add(schema, None, navs, delta)?;
        self.write(w);
        Ok(())
    }

    /// Append to the list or deque where `navs` leads.
    pub fn push(&mut self, schema: &Shape, navs: &Vec<Nav>, value: &Data) -> (r: Result<(), Error>)
        ensures
            recorded_in(
                r,
                single(push_of(schema@, None, navs_v(*navs), value@)),
                old(self)@,
                final(self)@,
            ),
    {
        let w: Write = crate::dynpath::push(schema, None, navs, value)?;
        self.write(w);
        Ok(())
    }

    /// Delete all that lies where `navs` leads.
    pub fn clear(&mut self, schema: &Shape, navs: &Vec<Nav>) -> (r: Result<(), Error>)
        ensures
            recorded_in(
                r,
                single(clear_of(schema@, None, navs_v(*navs))),
                old(self)@,
                final(self)@,
            ),
    {
        let w: Write = crate::dynpath::clear(schema, None, navs)?;
        self.write(w);
        Ok(())
    }
}

/// What makes writes of events. A reducer goes by the committed rows, the stamp
/// and the event alone, so that replay does what was done before.
pub trait Reducer<E> {
    /// The reducer can be used.
    spec fn ready(&self) -> bool;

    /// The operations for an event, or why there are none.
    spec fn reduced(&self, f: Seq<FactV>, s: Seq<RowV>, meta: Meta, event: E) -> Result<
        Seq<OpV>,
        ErrorV,
    >;

    /// With more facts the operations are the same, unless a fact was wanted.
    proof fn lemma_steady(
        &self,
        f: Seq<FactV>,
        g: Seq<FactV>,
        s: Seq<RowV>,
        meta: Meta,
        event: E,
    )
        requires
            extends(f, g),
            !(self.reduced(f, s, meta, event) matches Err(ErrorV::Need(_))),
        ensures
            self.reduced(g, s, meta, event) == self.reduced(f, s, meta, event),
    ;

    /// Records the writes for an event.
    fn reduce(&self, floats: &FloatTable, db: &Db, tx: &mut Tx, event: &E) -> (r: Result<(), Error>)
        requires
            self.ready(),
        ensures
            match (r, self.reduced(floats@, db@, old(tx)@.meta, *event)) {
                (Ok(_), Ok(ops)) => final(tx)@ == old(tx)@.with(ops),
                (Err(e), Err(w)) => e@ == w,
                _ => false,
            },
    ;
}

/// The key of the number of events applied.
pub open spec fn applied_key() -> Seq<u8> {
    child_of(segment(encode_utf8("__durable"@)), uvarint(0))
}

fn applied_leaf() -> (r: Vec<u8>)
    ensures
        r@ == applied_key(),
{
    let mut prefix: Vec<u8> = Vec::new();
    put_segment(&mut prefix, "__durable".as_bytes());
    assert(prefix@ =~= segment(encode_utf8("__durable"@)));
    let seg: Vec<u8> = field_segment(0);
    child_key(prefix.as_slice(), seg.as_slice())
}

/// The number of events applied, as the rows have it.
pub open spec fn applied_in(s: Seq<RowV>) -> Result<u64, ErrorV> {
    match leaf_at(s, applied_key()) {
        Err(e) => Err(e),
        Ok(None) => Ok(0u64),
        Ok(Some(d)) => match d {
            DataV::UInt(n) => Ok(n),
            _ => Err(ErrorV::Deserialize("applied offset is not an integer"@)),
        },
    }
}

/// The rows once a record is applied: what the reducer writes and the number of
/// events applied, at once.
pub open spec fn applied_record<E, R: Reducer<E>>(
    r: R,
    f: Seq<FactV>,
    s: Seq<RowV>,
    rec: Record<E>,
) -> Result<Seq<RowV>, ErrorV> {
    if rec.seq == u64::MAX {
        Err(ErrorV::Log("sequence number out of range"@))
    } else {
        match r.reduced(f, s, rec.stamp(), rec.event) {
            Err(e) => Err(e),
            Ok(ops) => {
                let all = ops.push(
                    OpV::Put {
                        key: applied_key(),
                        value: cbor_bytes(DataV::UInt((rec.seq + 1) as u64)),
                    },
                );
                committed(f, s, batch_of(all, all.len() as int))
            },
        }
    }
}

/// What a run over records did: the rows, how many were applied, and what
/// stopped it.
pub struct RunV {
    pub rows: Seq<RowV>,
    pub done: int,
    pub err: Option<ErrorV>,
}

/// The run over `n` records from the place `from` on, up to the first that
/// fails.
pub open spec fn run_over<E, R: Reducer<E>>(
    r: R,
    f: Seq<FactV>,
    s: Seq<RowV>,
    recs: Seq<Record<E>>,
    from: int,
    n: int,
) -> RunV
    decreases n,
{
    if n <= 0 {
        RunV { rows: s, done: 0, err: None }
    } else {
        let p = run_over(r, f, s, recs, from, n - 1);
        if p.err is Some {
            p
        } else {
            match applied_record(r, f, p.rows, recs[from + n - 1]) {
                Ok(t) => RunV { rows: t, done: n, err: None },
                Err(e) => RunV { err: Some(e), ..p },
            }
        }
    }
}

/// The rows that a replay of the whole tape gives.
pub open spec fn replayed<E, R: Reducer<E>>(r: R, f: Seq<FactV>, recs: Seq<Record<E>>) -> RunV {
    run_over(r, f, Seq::empty(), recs, 0, recs.len() as int)
}

/// The next timestamp: the clock's, unless that would not be later.
pub open spec fn next_ts_of(last: u64, now: u64) -> u64 {
    let least = if last < u64::MAX {
        (last + 1) as u64
    } else {
        last
    };
    if now > least {
        now
    } else {
        least
    }
}

/// The next timestamp behind `last` where the clock says `now`.
pub fn next_ts(last: u64, now: u64) -> (r: u64)
    ensures
        r == next_ts_of(last, now),
{
    let least: u64 = if last < u64::MAX {
        last + 1
    } else {
        last
    };
    if now > least {
        now
    } else {
        least
    }
}

/// The `i`th reading of the clock; zero where there is none.
pub open spec fn reading(clock: Seq<u64>, i: int) -> u64 {
    if 0 <= i < clock.len() {
        clock[i]
    } else {
        0
    }
}

/// The timestamp of event `i` of a batch.
pub open spec fn batch_ts(last: u64, clock: Seq<u64>, i: int) -> u64
    decreases i + 1,
{
    if i < 0 {
        last
    } else {
        next_ts_of(batch_ts(last, clock, i - 1), reading(clock, i))
    }
}

/// The greatest timestamp of the first `n` records.
pub open spec fn max_ts<E>(recs: Seq<Record<E>>, n: int) -> u64
    decreases n,
{
    if n <= 0 || n > recs.len() {
        0
    } else if recs[n - 1].ts_ms > max_ts(recs, n - 1) {
        recs[n - 1].ts_ms
    } else {
        max_ts(recs, n - 1)
    }
}

/// The records of a batch of events behind a tape of `len` records.
pub open spec fn stamped<E>(len: int, last: u64, clock: Seq<u64>, events: Seq<E>, recs: Seq<Record<E>>) -> bool {
    &&& recs.len() == events.len()
    &&& forall|i: int|
        0 <= i < recs.len() ==> (#[trigger] recs[i]).seq == len + i && recs[i].ts_ms
            == batch_ts(last, clock, i) && recs[i].event == events[i]
}

/// An event-sourced runtime.
pub struct Runtime<E, R: Reducer<E>> {
    pub log: Vec<Record<E>>,
    pub applied: u64,
    pub last_ts_ms: u64,
    pub db: Db,
    pub schema: Shape,
    pub namespace: Option<String>,
    pub reducer: R,
}

/// The stamps of records.
pub open spec fn stamps_of<E>(recs: Seq<Record<E>>) -> Seq<Meta> {
    Seq::new(recs.len(), |i: int| recs[i].stamp())
}

/// A query in the runtime's namespace, unless it names one itself.
pub open spec fn scoped_of(q: QueryV, ns: Option<Seq<char>>) -> QueryV {
    match q.namespace {
        Some(_) => q,
        None => QueryV { namespace: ns, ..q },
    }
}

/// The message of two stores that differ.
pub open spec fn verify_message(left: nat, right: nat) -> Seq<char> {
    "verify failed: incremental ("@ + dec(left) + " keys) != replay ("@ + dec(right) + " keys)"@
}

/// How many records are applied once a run that began at `start` with `before`
/// applied is over.
pub open spec fn applied_after<E>(log: Seq<Record<E>>, start: int, before: u64, run: RunV) -> u64 {
    if run.done > 0 {
        (log[start + run.done - 1].seq + 1) as u64
    } else {
        before
    }
}

/// The outcome of a run over records that began at `start` with `before`
/// applied.
pub open spec fn ran<E, R: Reducer<E>>(
    r: Result<u64, Error>,
    after: Runtime<E, R>,
    run: RunV,
    start: int,
    before: u64,
    n: int,
) -> bool {
    &&& after.db@ == run.rows
    &&& after.applied == applied_after(after.log@, start, before, run)
    &&& match (r, run.err) {
        (Ok(k), None) => k == n,
        (Err(e), Some(w)) => e@ == w,
        _ => false,
    }
}

/// The run over the records that the store has not seen yet.
pub open spec fn pending_run<E, R: Reducer<E>>(rt: Runtime<E, R>, f: Seq<FactV>) -> RunV {
    if rt.applied >= rt.log@.len() {
        RunV { rows: rt.db@, done: 0, err: None }
    } else {
        run_over(
            rt.reducer,
            f,
            rt.db@,
            rt.log@,
            rt.applied as int,
            rt.log@.len() - rt.applied,
        )
    }
}

/// How many records are applied once the store has seen those it had not seen
/// yet, or those before the first that fails.
pub open spec fn pending_applied<E, R: Reducer<E>>(rt: Runtime<E, R>, f: Seq<FactV>) -> u64 {
    applied_after(rt.log@, rt.applied as int, rt.applied, pending_run(rt, f))
}

/// What applying the records did that the store had not seen yet.
pub open spec fn caught_up<E, R: Reducer<E>>(
    a: Runtime<E, R>,
    b: Runtime<E, R>,
    f: Seq<FactV>,
    r: Result<u64, Error>,
) -> bool {
    &&& b.log@ == a.log@
    &&& b.last_ts_ms == a.last_ts_ms
    &&& b.db@ == pending_run(a, f).rows
    &&& b.applied == pending_applied(a, f)
    &&& match (r, pending_run(a, f).err) {
        (Ok(k), None) => k == if a.applied >= a.log@.len() {
            0
        } else {
            a.log@.len() - a.applied
        },
        (Err(e), Some(w)) => e@ == w,
        _ => false,
    }
}

/// What appending one event did: the records before it are applied first, and
/// where that fails nothing is appended.
pub open spec fn appended<E, R: Reducer<E>>(
    a: Runtime<E, R>,
    b: Runtime<E, R>,
    f: Seq<FactV>,
    event: E,
    now: u64,
    r: Result<Meta, Error>,
) -> bool {
    match pending_run(a, f).err {
        Some(w) => {
            &&& b.log@ == a.log@
            &&& b.last_ts_ms == a.last_ts_ms
            &&& b.db@ == pending_run(a, f).rows
            &&& b.applied == pending_applied(a, f)
            &&& (r matches Err(e) && e@ == w)
        },
        None => {
            let rec = Record {
                seq: a.log@.len() as u64,
                ts_ms: next_ts_of(a.last_ts_ms, now),
                event,
            };
            let done = applied_record(a.reducer, f, pending_run(a, f).rows, rec);
            &&& b.log@ == a.log@.push(rec)
            &&& b.last_ts_ms == rec.ts_ms
            &&& match (r, done) {
                (Ok(m), Ok(t)) => m == rec.stamp() && b.db@ == t && b.applied == rec.seq + 1,
                (Err(e), Err(w)) => e@ == w && b.db@ == pending_run(a, f).rows && b.applied
                    == pending_applied(a, f),
                _ => false,
            }
        },
    }
}

/// What appending events did, as one batch: those before them are applied first,
/// and where that fails nothing is appended.
pub open spec fn batch_appended<E, R: Reducer<E>>(
    a: Runtime<E, R>,
    b: Runtime<E, R>,
    f: Seq<FactV>,
    events: Seq<E>,
    clock: Seq<u64>,
    r: Result<Vec<Meta>, Error>,
) -> bool {
    if events.len() == 0 {
        b == a && (r matches Ok(ms) && ms@.len() == 0)
    } else {
        match pending_run(a, f).err {
            Some(w) => {
                &&& b.log@ == a.log@
                &&& b.last_ts_ms == a.last_ts_ms
                &&& b.db@ == pending_run(a, f).rows
                &&& b.applied == pending_applied(a, f)
                &&& (r matches Err(e) && e@ == w)
            },
            None => {
                let n = a.log@.len() as int;
                let recs = b.log@.skip(n);
                let run = run_over(
                    a.reducer,
                    f,
                    pending_run(a, f).rows,
                    b.log@,
                    n,
                    events.len() as int,
                );
                &&& b.log@.len() == n + events.len()
                &&& b.log@.take(n) == a.log@
                &&& stamped(n, a.last_ts_ms, clock, events, recs)
                &&& b.last_ts_ms == recs.last().ts_ms
                &&& b.db@ == run.rows
                &&& b.applied == applied_after(b.log@, n, pending_applied(a, f), run)
                &&& match (r, run.err) {
                    (Ok(ms), None) => ms@ == stamps_of(recs) && b.applied == n + events.len(),
                    (Err(e), Some(w)) => e@ == w,
                    _ => false,
                }
            },
        }
    }
}

/// What emptying the store and applying the tape from its first record did.
pub open spec fn rebuilt<E, R: Reducer<E>>(
    a: Runtime<E, R>,
    b: Runtime<E, R>,
    f: Seq<FactV>,
    r: Result<u64, Error>,
) -> bool {
    &&& b.log@ == a.log@
    &&& b.last_ts_ms == a.last_ts_ms
    &&& ran(r, b, replayed(a.reducer, f, a.log@), 0, 0, a.log@.len() as int)
}

/// A runtime whose store is `db` and has seen `applied` records of the tape.
pub open spec fn at_rest<E, R: Reducer<E>>(
    db: Db,
    log: Vec<Record<E>>,
    schema: Shape,
    namespace: Option<String>,
    reducer: R,
    applied: u64,
) -> Runtime<E, R> {
    Runtime {
        log,
        applied,
        last_ts_ms: max_ts(log@, log@.len() as int),
        db,
        schema,
        namespace,
        reducer,
    }
}

proof fn lemma_batch_ts(last: u64, clock: Seq<u64>, i: int, j: int)
    requires
        -1 <= i <= j,
    ensures
        batch_ts(last, clock, i) <= batch_ts(last, clock, j),
        i < j && batch_ts(last, clock, j) < u64::MAX ==> batch_ts(last, clock, i) < batch_ts(
            last,
            clock,
            j,
        ),
    decreases j - i,
{
    if i < j {
        lemma_batch_ts(last, clock, i, j - 1);
    }
}

proof fn lemma_run_err<E, R: Reducer<E>>(
    r: R,
    f: Seq<FactV>,
    s: Seq<RowV>,
    recs: Seq<Record<E>>,
    from: int,
    i: int,
    n: int,
)
    requires
        i <= n,
        run_over(r, f, s, recs, from, i).err is Some,
    ensures
        run_over(r, f, s, recs, from, n) == run_over(r, f, s, recs, from, i),
    decreases n,
{
    if i < n {
        lemma_run_err(r, f, s, recs, from, i, n - 1);
    }
}

proof fn lemma_run_done<E, R: Reducer<E>>(
    r: R,
    f: Seq<FactV>,
    s: Seq<RowV>,
    recs: Seq<Record<E>>,
    from: int,
    n: int,
)
    requires
        run_over(r, f, s, recs, from, n).err is None,
        0 <= n,
    ensures
        run_over(r, f, s, recs, from, n).done == n,
{
}

/// What an event log that grew, and nothing else of a runtime, keeps.
pub open spec fn same_setup<E, R: Reducer<E>>(a: Runtime<E, R>, b: Runtime<E, R>) -> bool {
    a.reducer == b.reducer && a.schema == b.schema && a.namespace == b.namespace
}

/// Applies one record: the rows are as they were where that fails.
fn reduce_record<E, R: Reducer<E>>(
    reducer: &R,
    floats: &FloatTable,
    db: &mut Db,
    rec: &Record<E>,
) -> (r: Result<(), Error>)
    requires
        reducer.ready(),
        old(db).wf(),
    ensures
        final(db).wf(),
        match (r, applied_record(*reducer, floats@, old(db)@, *rec)) {
            (Ok(_), Ok(t)) => final(db)@ == t && rec.seq < u64::MAX,
            (Err(e), Err(w)) => e@ == w && final(db)@ == old(db)@,
            _ => false,
        },
{
    if rec.seq == u64::MAX {
        return Err(Error::Log("sequence number out of range".to_owned()));
    }
    let mut tx: Tx = Tx::new(rec.meta());
    reducer.reduce(floats, db, &mut tx, &rec.event)?;
    let ghost ops = tx@.ops;
    tx.write(
        Write::new(Op::Put { key: applied_leaf(), value: encode(&Data::UInt(rec.seq + 1)) }),
    );
    proof {
        let done = OpV::Put {
            key: applied_key(),
            value: cbor_bytes(DataV::UInt((rec.seq + 1) as u64)),
        };
        let all = reducer.reduced(floats@, old(db)@, rec.stamp(), rec.event)->Ok_0.push(done);
        assert(tx@.ops =~= all);
        assert(tx.writes@.len() == all.len());
    }
    db.apply(floats, tx.writes)
}

impl<E, R: Reducer<E>> Runtime<E, R> {
    /// The rows are in order, and no record has a later timestamp than the last.
    pub open spec fn wf(&self) -> bool {
        &&& self.db.wf()
        &&& self.reducer.ready()
        &&& forall|i: int|
            0 <= i < self.log@.len() ==> (#[trigger] self.log@[i]).ts_ms <= self.last_ts_ms
    }

    fn apply_from(&mut self, floats: &FloatTable, start: usize) -> (r: Result<u64, Error>)
        requires
            old(self).wf(),
            start <= old(self).log@.len(),
        ensures
            final(self).wf(),
            same_setup(*final(self), *old(self)),
            final(self).log@ == old(self).log@,
            final(self).last_ts_ms == old(self).last_ts_ms,
            ran(
                r,
                *final(self),
                run_over(
                    old(self).reducer,
                    floats@,
                    old(self).db@,
                    old(self).log@,
                    start as int,
                    old(self).log@.len() - start,
                ),
                start as int,
                old(self).applied,
                old(self).log@.len() - start,
            ),
    {
        let ghost red = self.reducer;
        let ghost s0 = self.db@;
        let ghost recs = self.log@;
        let ghost total = recs.len() - start;
        let ghost applied0 = self.applied;
        let mut i: usize = start;
        while i < self.log.len()
            invariant
                start <= i <= self.log@.len(),
                self.wf(),
                same_setup(*self, *old(self)),
                self.log@ == old(self).log@,
                self.last_ts_ms == old(self).last_ts_ms,
                recs == self.log@,
                red == self.reducer,
                red == old(self).reducer,
                s0 == old(self).db@,
                applied0 == old(self).applied,
                total == recs.len() - start,
                run_over(red, floats@, s0, recs, start as int, i - start) == (RunV {
                    rows: self.db@,
                    done: i - start,
                    err: None,
                }),
                self.applied == if i > start {
                    (recs[i - 1].seq + 1) as u64
                } else {
                    applied0
                },
            decreases self.log@.len() - i,
        {
            match reduce_record(&self.reducer, floats, &mut self.db, &self.log[i]) {
                Err(e) => {
                    proof {
                        lemma_run_err(
                            red,
                            floats@,
                            s0,
                            recs,
                            start as int,
                            i + 1 - start,
                            total,
                        );
                    }
                    return Err(e);
                },
                Ok(_) => {},
            }
            self.applied = self.log[i].seq + 1;
            i = i + 1;
        }
        Ok((self.log.len() - start) as u64)
    }

    /// Applies the records that the store has not seen yet, and says how many
    /// they were.
    pub fn catch_up(&mut self, floats: &FloatTable) -> (r: Result<u64, Error>)
        requires
            old(self).wf(),
        ensures
            final(self).wf(),
            same_setup(*final(self), *old(self)),
            caught_up(*old(self), *final(self), floats@, r),
            old(self).applied >= old(self).log@.len() ==> *final(self) == *old(self),
    {
        if self.applied >= self.log.len() as u64 {
            return Ok(0);
        }
        let start: usize = self.applied as usize;
        self.apply_from(floats, start)
    }

    /// A runtime over a store and a tape, caught up with the tape.
    pub fn open(
        floats: &FloatTable,
        db: Db,
        log: Vec<Record<E>>,
        schema: Shape,
        namespace: Option<String>,
        reducer: R,
    ) -> (r: Result<Self, Error>)
        requires
            db.wf(),
            reducer.ready(),
        ensures
            match applied_in(db@) {
                Err(w) => r matches Err(e) && e@ == w,
                Ok(n) => {
                    let a = at_rest(db, log, schema, namespace, reducer, n);
                    match (r, pending_run(a, floats@).err) {
                        (Ok(b), None) => {
                            &&& b.wf()
                            &&& same_setup(b, a)
                            &&& b.log@ == log@
                            &&& b.last_ts_ms == a.last_ts_ms
                            &&& b.db@ == pending_run(a, floats@).rows
                            &&& b.applied == pending_applied(a, floats@)
                        },
                        (Err(e), Some(w)) => e@ == w,
                        _ => false,
                    }
                },
            },
    {
        let mut rt: Self = Self::load(db, log, schema, namespace, reducer)?;
        let _ = rt.catch_up(floats)?;
        Ok(rt)
    }

    /// A runtime over a store and a tape; the records that the store has not
    /// seen are left to `catch_up`, which can be tried again once a fact is
    /// learned.
    pub fn load(db: Db, log: Vec<Record<E>>, schema: Shape, namespace: Option<String>, reducer: R) -> (r:
        Result<Self, Error>)
        requires
            db.wf(),
            reducer.ready(),
        ensures
            match (r, applied_in(db@)) {
                (Ok(rt), Ok(n)) => rt.wf() && rt == at_rest(
                    db,
                    log,
                    schema,
                    namespace,
                    reducer,
                    n,
                ),
                (Err(e), Err(w)) => e@ == w,
                _ => false,
            },
    {
        let key: Vec<u8> = applied_leaf();
        let applied: u64 = match read_leaf(&db, key.as_slice())? {
            None => 0,
            Some(Data::UInt(n)) => n,
            Some(_) => {
                return Err(Error::Deserialize("applied offset is not an integer".to_owned()));
            },
        };
        let last_ts_ms: u64 = max_ts_on_tape(&log);
        Ok(Runtime { log, applied, last_ts_ms, db, schema, namespace, reducer })
    }

    /// The records for `events`, stamped behind the tape; `clock` has one
    /// reading for each.
    pub fn stamp(&self, events: Vec<E>, clock: &Vec<u64>) -> (r: Vec<Record<E>>)
        requires
            self.log@.len() + events@.len() <= u64::MAX,
        ensures
            stamped(self.log@.len() as int, self.last_ts_ms, clock@, events@, r@),
    {
        let ghost ev = events@;
        let ghost n = ev.len();
        let len: usize = events.len();
        let mut rest: Vec<E> = events;
        let mut rev: Vec<E> = Vec::new();
        let mut i: usize = 0;
        while i < len
            invariant
                i <= len,
                len == ev.len(),
                rest@ == ev.take(len - i),
                rev@.len() == i,
                forall|j: int| 0 <= j < i ==> #[trigger] rev@[j] == ev[len - 1 - j],
            decreases len - i,
        {
            match rest.pop() {
                Some(e) => {
                    rev.push(e);
                },
                None => {},
            }
            assert(rest@ =~= ev.take(len - i - 1));
            i = i + 1;
        }
        let mut out: Vec<Record<E>> = Vec::new();
        let mut ts: u64 = self.last_ts_ms;
        let base: u64 = self.log.len() as u64;
        let mut k: usize = 0;
        while k < len
            invariant
                k <= len,
                len == ev.len(),
                base == self.log@.len(),
                base + len <= u64::MAX,
                rev@.len() == len - k,
                forall|j: int| 0 <= j < rev@.len() ==> #[trigger] rev@[j] == ev[len - 1 - j],
                ts == batch_ts(self.last_ts_ms, clock@, k - 1),
                out@.len() == k,
                forall|i: int|
                    0 <= i < k ==> (#[trigger] out@[i]).seq == base + i && out@[i].ts_ms
                        == batch_ts(self.last_ts_ms, clock@, i) && out@[i].event == ev[i],
            decreases len - k,
        {
            let now: u64 = if k < clock.len() {
                clock[k]
            } else {
                0
            };
            ts = next_ts(ts, now);
            match rev.pop() {
                Some(event) => {
                    assert(event == ev[k as int]);
                    out.push(Record { seq: base + k as u64, ts_ms: ts, event });
                },
                None => {},
            }
            k = k + 1;
        }
        out
    }

    /// Takes stamped records onto the tape and applies them, in order.
    pub fn accept(&mut self, floats: &FloatTable, records: Vec<Record<E>>) -> (r: Result<u64, Error>)
        requires
            old(self).wf(),
            forall|i: int|
                0 <= i < records@.len() ==> (#[trigger] records@[i]).ts_ms <= records@.last().ts_ms
                    && records@[i].ts_ms >= old(self).last_ts_ms,
        ensures
            final(self).wf(),
            same_setup(*final(self), *old(self)),
            final(self).log@ == old(self).log@ + records@,
            final(self).last_ts_ms == if records@.len() > 0 {
                records@.last().ts_ms
            } else {
                old(self).last_ts_ms
            },
            ran(
                r,
                *final(self),
                run_over(
                    old(self).reducer,
                    floats@,
                    old(self).db@,
                    old(self).log@ + records@,
                    old(self).log@.len() as int,
                    records@.len() as int,
                ),
                old(self).log@.len() as int,
                old(self).applied,
                records@.len() as int,
            ),
    {
        let start: usize = self.log.len();
        let n: usize = records.len();
        if n > 0 {
            self.last_ts_ms = records[n - 1].ts_ms;
        }
        let ghost more = records@;
        let mut rest: Vec<Record<E>> = records;
        self.log.append(&mut rest);
        proof {
            assert(self.log@ == old(self).log@ + more);
            assert forall|i: int| 0 <= i < self.log@.len() implies (#[trigger] self.log@[i]).ts_ms
                <= self.last_ts_ms by {
                if i < start {
                    assert(self.log@[i] == old(self).log@[i]);
                    if n > 0 {
                        assert(more[0].ts_ms >= old(self).last_ts_ms);
                    }
                } else {
                    assert(self.log@[i] == more[i - start]);
                }
            }
        }
        self.apply_from(floats, start)
    }

    /// Stamps `events`, takes them onto the tape, and applies them, once all
    /// before them are applied. The stamps come back.
    pub fn append_batch(&mut self, floats: &FloatTable, events: Vec<E>, clock: &Vec<u64>) -> (r:
        Result<Vec<Meta>, Error>)
        requires
            old(self).wf(),
            old(self).log@.len() + events@.len() <= u64::MAX,
        ensures
            final(self).wf(),
            same_setup(*final(self), *old(self)),
            batch_appended(*old(self), *final(self), floats@, events@, clock@, r),
    {
        let n: usize = events.len();
        if n == 0 {
            return Ok(Vec::new());
        }
        let _ = self.catch_up(floats)?;
        let start: usize = self.log.len();
        let ghost last = self.last_ts_ms;
        let recs: Vec<Record<E>> = self.stamp(events, clock);
        let ghost rv = recs@;
        proof {
            lemma_batch_ts(last, clock@, 0, n - 1);
            assert forall|i: int| 0 <= i < rv.len() implies (#[trigger] rv[i]).ts_ms
                <= rv.last().ts_ms && rv[i].ts_ms >= last by {
                lemma_batch_ts(last, clock@, i, n - 1);
                lemma_batch_ts(last, clock@, -1, i);
            }
        }
        let accepted: Result<u64, Error> = self.accept(floats, recs);
        proof {
            assert(self.log@.take(start as int) =~= old(self).log@);
            assert(self.log@.skip(start as int) =~= rv);
        }
        let _ = accepted?;
        proof {
            lemma_run_done(
                old(self).reducer,
                floats@,
                pending_run(*old(self), floats@).rows,
                self.log@,
                start as int,
                n as int,
            );
        }
        let out: Vec<Meta> = self.stamps_from(start as u64);
        assert(out@ =~= stamps_of(rv));
        Ok(out)
    }

    /// Stamps one event, takes it onto the tape and applies it.
    pub fn append(&mut self, floats: &FloatTable, event: E, now: u64) -> (r: Result<Meta, Error>)
        requires
            old(self).wf(),
            old(self).log@.len() < u64::MAX,
        ensures
            final(self).wf(),
            same_setup(*final(self), *old(self)),
            appended(*old(self), *final(self), floats@, event, now, r),
    {
        let mut events: Vec<E> = Vec::new();
        events.push(event);
        let mut clock: Vec<u64> = Vec::new();
        clock.push(now);
        let ghost ev = events@;
        let ghost ck = clock@;
        let r: Result<Vec<Meta>, Error> = self.append_batch(floats, events, &clock);
        proof {
            let n = old(self).log@.len() as int;
            if pending_run(*old(self), floats@).err is None {
                let recs = self.log@.skip(n);
                let rec = Record {
                    seq: n as u64,
                    ts_ms: next_ts_of(old(self).last_ts_ms, now),
                    event,
                };
                assert(recs.len() == 1);
                assert(batch_ts(old(self).last_ts_ms, ck, -1) == old(self).last_ts_ms);
                assert(batch_ts(old(self).last_ts_ms, ck, 0) == rec.ts_ms);
                assert(recs[0].seq == n + 0 && recs[0].event == ev[0]);
                assert(recs[0] == rec);
                assert(self.log@ =~= self.log@.take(n) + recs);
                assert(self.log@ =~= old(self).log@.push(rec));
                reveal_with_fuel(run_over, 2);
                assert(self.log@[n] == rec);
            }
        }
        match r {
            Ok(ms) => {
                assert(ms@.len() == 1);
                Ok(ms[0])
            },
            Err(e) => Err(e),
        }
    }

    /// Empties the store and applies the tape from its first record.
    pub fn rebuild(&mut self, floats: &FloatTable) -> (r: Result<u64, Error>)
        requires
            old(self).wf(),
        ensures
            final(self).wf(),
            same_setup(*final(self), *old(self)),
            rebuilt(*old(self), *final(self), floats@, r),
    {
        self.db = Db::new();
        self.applied = 0;
        self.apply_from(floats, 0)
    }

    /// The store of a replay from the first record.
    fn replay(&self, floats: &FloatTable) -> (r: Result<Db, Error>)
        requires
            self.reducer.ready(),
        ensures
            match (r, replayed(self.reducer, floats@, self.log@).err) {
                (Ok(db), None) => db@ == replayed(self.reducer, floats@, self.log@).rows,
                (Err(e), Some(w)) => e@ == w,
                _ => false,
            },
    {
        let mut db: Db = Db::new();
        let ghost s0 = Seq::<RowV>::empty();
        let mut i: usize = 0;
        while i < self.log.len()
            invariant
                i <= self.log@.len(),
                db.wf(),
                self.reducer.ready(),
                s0 == Seq::<RowV>::empty(),
                run_over(self.reducer, floats@, s0, self.log@, 0, i as int) == (RunV {
                    rows: db@,
                    done: i as int,
                    err: None,
                }),
            decreases self.log@.len() - i,
        {
            match reduce_record(&self.reducer, floats, &mut db, &self.log[i]) {
                Err(e) => {
                    proof {
                        lemma_run_err(
                            self.reducer,
                            floats@,
                            s0,
                            self.log@,
                            0,
                            i + 1,
                            self.log@.len() as int,
                        );
                    }
                    return Err(e);
                },
                Ok(_) => {},
            }
            i = i + 1;
        }
        Ok(db)
    }

    /// The store is what a replay of the tape gives.
    pub fn verify(&self, floats: &FloatTable) -> (r: Result<(), Error>)
        requires
            self.reducer.ready(),
        ensures
            ({
                let run = replayed(self.reducer, floats@, self.log@);
                match r {
                    Ok(_) => run.err is None && self.db@ == run.rows,
                    Err(e) => match run.err {
                        Some(w) => e@ == w,
                        None => self.db@ != run.rows && e@ == ErrorV::Query(
                            verify_message(self.db@.len(), run.rows.len()),
                        ),
                    },
                }
            }),
    {
        let other: Db = self.replay(floats)?;
        if same_rows(&self.db, &other) {
            Ok(())
        } else {
            let mut m: String = "verify failed: incremental (".to_owned();
            m.append(dec_u64(self.db.rows.len() as u64).as_str());
            m.append(" keys) != replay (");
            m.append(dec_u64(other.rows.len() as u64).as_str());
            m.append(" keys)");
            Err(Error::Query(m))
        }
    }

    fn scoped(&self, query: &Query) -> (r: Query)
        ensures
            r@ == scoped_of(query@, self.space()),
    {
        let mut q: Query = copy_query(query);
        if q.namespace.is_none() {
            q.namespace = match &self.namespace {
                Some(s) => Some(s.clone()),
                None => None,
            };
        }
        q
    }

    /// The namespace of the runtime.
    pub open spec fn space(&self) -> Option<Seq<char>> {
        match self.namespace {
            Some(s) => Some(s@),
            None => None,
        }
    }

    /// The item at the one place that a point query leads to.
    pub fn one(&self, floats: &FloatTable, query: &Query) -> (r: Result<Option<Data>, Error>)
        ensures
            match (r, one_of(floats@, self.db@, self.schema@, scoped_of(query@, self.space()))) {
                (Ok(None), Ok(None)) => true,
                (Ok(Some(d)), Ok(Some(v))) => d@ == v,
                (Err(e), Err(w)) => e@ == w,
                _ => false,
            },
    {
        one(floats, &self.db, &self.schema, &self.scoped(query))
    }

    /// The items at all places that a query leads to.
    pub fn select(&self, floats: &FloatTable, query: &Query) -> (r: Result<Vec<Data>, Error>)
        ensures
            same_list(
                r,
                selected(floats@, self.db@, self.schema@, scoped_of(query@, self.space())),
            ),
    {
        select(floats, &self.db, &self.schema, &self.scoped(query))
    }

    /// The nested item at the one place that a point query leads to.
    pub fn subtree(&self, floats: &FloatTable, query: &Query) -> (r: Result<Data, Error>)
        ensures
            same_data(
                r,
                subtree_of(floats@, self.db@, self.schema@, scoped_of(query@, self.space())),
            ),
    {
        subtree(floats, &self.db, &self.schema, &self.scoped(query))
    }

    /// The pairs of the map at the one place that a point query leads to.
    pub fn entries(&self, floats: &FloatTable, query: &Query) -> (r: Result<
        Vec<(Data, Data)>,
        Error,
    >)
        ensures
            same_pairs(
                r,
                entries_of(floats@, self.db@, self.schema@, scoped_of(query@, self.space())),
            ),
    {
        entries(floats, &self.db, &self.schema, &self.scoped(query))
    }

    /// Many named queries read at once.
    pub fn project(&self, floats: &FloatTable, spec: &Vec<(String, Query)>) -> (r: Result<Data, Error>)
        ensures
            ({
                let qs = Seq::new(
                    spec@.len(),
                    |i: int| (spec@[i].0@, scoped_of(spec@[i].1@, self.space())),
                );
                match (r, projected(floats@, self.db@, self.schema@, qs, qs.len() as int)) {
                    (Ok(d), Ok(ps)) => d@ == DataV::Dict(ps),
                    (Err(e), Err(w)) => e@ == w,
                    _ => false,
                }
            }),
    {
        let mut qs: Vec<(String, Query)> = Vec::new();
        let mut i: usize = 0;
        while i < spec.len()
            invariant
                i <= spec@.len(),
                qs@.len() == i,
                forall|j: int|
                    0 <= j < i ==> (#[trigger] qs@[j]).0@ == spec@[j].0@ && qs@[j].1@ == scoped_of(
                        spec@[j].1@,
                        self.space(),
                    ),
            decreases spec@.len() - i,
        {
            qs.push((spec[i].0.clone(), self.scoped(&spec[i].1)));
            i = i + 1;
        }
        assert(named_v(qs@) =~= Seq::new(
            spec@.len(),
            |i: int| (spec@[i].0@, scoped_of(spec@[i].1@, self.space())),
        ));
        project(floats, &self.db, &self.schema, &qs)
    }

    /// The plan of a query, made without the store.
    pub fn explain(&self, floats: &FloatTable, query: &Query) -> (r: Result<Plan, Error>)
        ensures
            match (r, planned(floats@, self.schema@, scoped_of(query@, self.space()))) {
                (Ok(p), Ok(v)) => p@ == v,
                (Err(e), Err(w)) => e@ == w,
                _ => false,
            },
    {
        explain(floats, &self.schema, &self.scoped(query))
    }

    /// How many records are on the tape.
    pub fn log_len(&self) -> (r: u64)
        ensures
            r == self.log@.len(),
    {
        self.log.len() as u64
    }

    /// How many records the store has applied.
    pub fn applied(&self) -> (r: u64)
        ensures
            r == self.applied,
    {
        self.applied
    }

    /// The stamps of the records from `start` on.
    pub fn stamps_from(&self, start: u64) -> (r: Vec<Meta>)
        ensures
            r@ == stamps_of(self.log@).skip(
                if start <= self.log@.len() {
                    start as int
                } else {
                    self.log@.len() as int
                },
            ),
    {
        let mut out: Vec<Meta> = Vec::new();
        let from: usize = if start <= self.log.len() as u64 {
            start as usize
        } else {
            self.log.len()
        };
        let mut i: usize = from;
        while i < self.log.len()
            invariant
                from <= i <= self.log@.len(),
                out@ == stamps_of(self.log@).subrange(from as int, i as int),
            decreases self.log@.len() - i,
        {
            out.push(self.log[i].meta());
            assert(out@ =~= stamps_of(self.log@).subrange(from as int, i + 1));
            i = i + 1;
        }
        assert(out@ =~= stamps_of(self.log@).skip(from as int));
        out
    }
}

/// The two stores hold the same rows.
fn same_rows(a: &Db, b: &Db) -> (r: bool)
    ensures
        r == (a@ == b@),
{
    if a.rows.len() != b.rows.len() {
        assert(a@.len() != b@.len());
        return false;
    }
    let mut i: usize = 0;
    while i < a.rows.len()
        invariant
            i <= a.rows@.len(),
            a.rows@.len() == b.rows@.len(),
            forall|j: int| 0 <= j < i ==> #[trigger] a@[j] == b@[j],
        decreases a.rows@.len() - i,
    {
        assert(a@[i as int] == (a.rows@[i as int].0@, a.rows@[i as int].1@));
        assert(b@[i as int] == (b.rows@[i as int].0@, b.rows@[i as int].1@));
        if !crate::bytes::bytes_eq(a.rows[i].0.as_slice(), b.rows[i].0.as_slice())
            || !crate::bytes::bytes_eq(a.rows[i].1.as_slice(), b.rows[i].1.as_slice()) {
            assert(a@[i as int] != b@[i as int]);
            return false;
        }
        i = i + 1;
    }
    assert(a@ =~= b@);
    true
}

fn max_ts_on_tape<E>(log: &Vec<Record<E>>) -> (r: u64)
    ensures
        r == max_ts(log@, log@.len() as int),
        forall|i: int| 0 <= i < log@.len() ==> (#[trigger] log@[i]).ts_ms <= r,
{
    let mut max: u64 = 0;
    let mut i: usize = 0;
    while i < log.len()
        invariant
            i <= log@.len(),
            max == max_ts(log@, i as int),
            forall|j: int| 0 <= j < i ==> (#[trigger] log@[j]).ts_ms <= max,
        decreases log@.len() - i,
    {
        if log[i].ts_ms > max {
            max = log[i].ts_ms;
        }
        i = i + 1;
    }
    max
}

/// Timestamps never step backwards: within a batch each is later than the one
/// before it, and the first is later than all before the batch, as far as 64
/// bits count.
pub proof fn law_timestamps_increase(last: u64, clock: Seq<u64>, i: int, j: int)
    requires
        -1 <= i < j,
        batch_ts(last, clock, j) < u64::MAX,
    ensures
        batch_ts(last, clock, -1) == last,
        batch_ts(last, clock, i) < batch_ts(last, clock, j),
{
    lemma_batch_ts(last, clock, i, j);
}

/// Replay does what was done step by step: a run over the first records and
/// then over more is the run over all of them.
pub proof fn law_incremental_is_replay<E, R: Reducer<E>>(
    r: R,
    f: Seq<FactV>,
    s: Seq<RowV>,
    recs: Seq<Record<E>>,
    n: int,
    k: int,
)
    requires
        0 <= n,
        0 <= k,
        run_over(r, f, s, recs, 0, n).err is None,
    ensures
        ({
            let all = run_over(r, f, s, recs, 0, n + k);
            let more = run_over(r, f, run_over(r, f, s, recs, 0, n).rows, recs, n, k);
            all.rows == more.rows && all.err == more.err && all.done == n + more.done
        }),
    decreases k,
{
    lemma_run_done(r, f, s, recs, 0, n);
    if k > 0 {
        law_incremental_is_replay(r, f, s, recs, n, k - 1);
    }
}

/// Every record has its place on the tape as its number.
pub open spec fn numbered<E>(log: Seq<Record<E>>) -> bool {
    forall|i: int| 0 <= i < log.len() ==> (#[trigger] log[i]).seq == i
}

/// The records are on the tape in order of their timestamps.
pub open spec fn timed<E>(log: Seq<Record<E>>) -> bool {
    forall|i: int, j: int|
        0 <= i < j < log.len() ==> (#[trigger] log[i]).ts_ms <= (#[trigger] log[j]).ts_ms
}

/// The projection is what a replay of the events applied gives.
pub open spec fn faithful<E, R: Reducer<E>>(rt: Runtime<E, R>, f: Seq<FactV>) -> bool {
    let run = run_over(rt.reducer, f, Seq::empty(), rt.log@, 0, rt.applied as int);
    &&& numbered(rt.log@)
    &&& rt.applied <= rt.log@.len()
    &&& run.err is None
    &&& run.rows == rt.db@
}

/// A run goes by the records that it is over.
proof fn lemma_run_front<E, R: Reducer<E>>(
    r: R,
    f: Seq<FactV>,
    s: Seq<RowV>,
    recs: Seq<Record<E>>,
    more: Seq<Record<E>>,
    from: int,
    n: int,
)
    requires
        0 <= from,
        from + n <= recs.len(),
        recs.len() <= more.len(),
        forall|i: int| 0 <= i < recs.len() ==> more[i] == #[trigger] recs[i],
    ensures
        run_over(r, f, s, more, from, n) == run_over(r, f, s, recs, from, n),
    decreases n,
{
    if n > 0 {
        lemma_run_front(r, f, s, recs, more, from, n - 1);
        assert(more[from + n - 1] == recs[from + n - 1]);
    }
}

/// What a run did is the run over the records that it applied.
proof fn lemma_run_part<E, R: Reducer<E>>(
    r: R,
    f: Seq<FactV>,
    s: Seq<RowV>,
    recs: Seq<Record<E>>,
    from: int,
    n: int,
)
    requires
        0 <= n,
    ensures
        ({
            let p = run_over(r, f, s, recs, from, n);
            &&& 0 <= p.done <= n
            &&& p.err is None ==> p.done == n
            &&& run_over(r, f, s, recs, from, p.done) == (RunV {
                rows: p.rows,
                done: p.done,
                err: None,
            })
            &&& p.done > 0 ==> recs[from + p.done - 1].seq < u64::MAX
        }),
    decreases n,
{
    if n > 0 {
        lemma_run_part(r, f, s, recs, from, n - 1);
    }
}

/// A run on from where a faithful store stands leaves a faithful store.
proof fn lemma_on_from<E, R: Reducer<E>>(
    r: R,
    f: Seq<FactV>,
    log: Seq<Record<E>>,
    s: Seq<RowV>,
    from: int,
    n: int,
)
    requires
        0 <= from,
        0 <= n,
        from + n <= log.len(),
        from <= u64::MAX,
        numbered(log),
        run_over(r, f, Seq::empty(), log, 0, from).err is None,
        run_over(r, f, Seq::empty(), log, 0, from).rows == s,
    ensures
        ({
            let p = run_over(r, f, s, log, from, n);
            let done = applied_after(log, from, from as u64, p);
            let all = run_over(r, f, Seq::empty(), log, 0, done as int);
            &&& done == from + p.done
            &&& done <= from + n
            &&& all.err is None
            &&& all.rows == p.rows
            &&& p.err is None ==> done == from + n
        }),
{
    let p = run_over(r, f, s, log, from, n);
    lemma_run_part(r, f, s, log, from, n);
    law_incremental_is_replay(r, f, Seq::empty(), log, from, p.done);
    if p.done > 0 {
        assert(log[from + p.done - 1].seq == from + p.done - 1);
    }
}

proof fn lemma_pending<E, R: Reducer<E>>(a: Runtime<E, R>, f: Seq<FactV>)
    requires
        faithful(a, f),
    ensures
        ({
            let p = pending_run(a, f);
            let done = pending_applied(a, f);
            let all = run_over(a.reducer, f, Seq::empty(), a.log@, 0, done as int);
            &&& done <= a.log@.len()
            &&& all.err is None
            &&& all.rows == p.rows
            &&& p.err is None ==> done == a.log@.len()
        }),
{
    if a.applied < a.log@.len() {
        lemma_on_from(
            a.reducer,
            f,
            a.log@,
            a.db@,
            a.applied as int,
            a.log@.len() - a.applied,
        );
    }
}

/// Catching up keeps the projection to the tape, however far it comes: it is
/// what a replay of the records applied gives, and of all where it succeeds.
pub proof fn law_catch_up_keeps_to_the_tape<E, R: Reducer<E>>(
    a: Runtime<E, R>,
    b: Runtime<E, R>,
    f: Seq<FactV>,
    r: Result<u64, Error>,
)
    requires
        faithful(a, f),
        same_setup(b, a),
        caught_up(a, b, f, r),
    ensures
        faithful(b, f),
        r is Ok ==> b.applied == b.log@.len() && replayed(b.reducer, f, b.log@).err is None
            && replayed(b.reducer, f, b.log@).rows == b.db@,
{
    lemma_pending(a, f);
}

/// A store that nothing is in yet keeps to the tape, where the records are
/// numbered by their places.
pub proof fn law_fresh_stores_keep_to_the_tape<E, R: Reducer<E>>(
    rt: Runtime<E, R>,
    f: Seq<FactV>,
)
    requires
        numbered(rt.log@),
        rt.db@.len() == 0,
        applied_in(rt.db@) == Ok::<u64, ErrorV>(rt.applied),
    ensures
        rt.applied == 0,
        faithful(rt, f),
{
    assert(rt.db@ =~= Seq::<RowV>::empty());
    assert(crate::db::lookup(rt.db@, applied_key()) is None);
}

/// An append keeps the projection to the tape, whatever comes of it: it is what
/// a replay of the records applied gives, and of the longer tape where the
/// append succeeds.
pub proof fn law_append_keeps_to_the_tape<E, R: Reducer<E>>(
    a: Runtime<E, R>,
    b: Runtime<E, R>,
    f: Seq<FactV>,
    event: E,
    now: u64,
    r: Result<Meta, Error>,
)
    requires
        faithful(a, f),
        a.log@.len() < u64::MAX,
        same_setup(b, a),
        appended(a, b, f, event, now, r),
    ensures
        faithful(b, f),
        r is Ok ==> b.applied == b.log@.len() && replayed(b.reducer, f, b.log@).err is None
            && replayed(b.reducer, f, b.log@).rows == b.db@,
{
    let none = Seq::<RowV>::empty();
    let n = a.log@.len() as int;
    lemma_pending(a, f);
    if pending_run(a, f).err is None {
        assert(b.log@.len() == n + 1);
        assert forall|i: int| 0 <= i < b.log@.len() implies (#[trigger] b.log@[i]).seq == i by {
            if i < n {
                assert(a.log@[i].seq == i);
            }
        }
        lemma_run_front(a.reducer, f, none, a.log@, b.log@, 0, n);
    }
}

/// Appending a batch keeps the projection to the tape, whatever comes of it.
pub proof fn law_batch_keeps_to_the_tape<E, R: Reducer<E>>(
    a: Runtime<E, R>,
    b: Runtime<E, R>,
    f: Seq<FactV>,
    events: Seq<E>,
    clock: Seq<u64>,
    r: Result<Vec<Meta>, Error>,
)
    requires
        faithful(a, f),
        a.log@.len() + events.len() <= u64::MAX,
        same_setup(b, a),
        batch_appended(a, b, f, events, clock, r),
    ensures
        faithful(b, f),
        r is Ok && events.len() > 0 ==> b.applied == b.log@.len() && replayed(
            b.reducer,
            f,
            b.log@,
        ).err is None && replayed(b.reducer, f, b.log@).rows == b.db@,
{
    let none = Seq::<RowV>::empty();
    let n = a.log@.len() as int;
    lemma_pending(a, f);
    if events.len() > 0 && pending_run(a, f).err is None {
        let recs = b.log@.skip(n);
        assert forall|i: int| 0 <= i < b.log@.len() implies (#[trigger] b.log@[i]).seq == i by {
            if i < n {
                assert(b.log@.take(n)[i] == b.log@[i]);
                assert(a.log@[i].seq == i);
            } else {
                assert(recs[i - n] == b.log@[i]);
            }
        }
        assert forall|i: int| 0 <= i < a.log@.len() implies b.log@[i] == #[trigger] a.log@[i] by {
            assert(b.log@.take(n)[i] == b.log@[i]);
        }
        lemma_run_front(a.reducer, f, none, a.log@, b.log@, 0, n);
        lemma_on_from(
            a.reducer,
            f,
            b.log@,
            pending_run(a, f).rows,
            n,
            events.len() as int,
        );
    }
}

/// Rebuilding makes the projection what a replay gives, whatever it was before.
pub proof fn law_rebuild_keeps_to_the_tape<E, R: Reducer<E>>(
    a: Runtime<E, R>,
    b: Runtime<E, R>,
    f: Seq<FactV>,
    r: Result<u64, Error>,
)
    requires
        numbered(a.log@),
        same_setup(b, a),
        rebuilt(a, b, f, r),
    ensures
        faithful(b, f),
        r is Ok ==> b.applied == b.log@.len() && replayed(b.reducer, f, b.log@).err is None
            && replayed(b.reducer, f, b.log@).rows == b.db@,
{
    lemma_on_from(a.reducer, f, a.log@, Seq::empty(), 0, a.log@.len() as int);
}

proof fn lemma_record_steady<E, R: Reducer<E>>(
    r: R,
    f: Seq<FactV>,
    g: Seq<FactV>,
    s: Seq<RowV>,
    rec: Record<E>,
)
    requires
        extends(f, g),
        applied_record(r, f, s, rec) is Ok,
    ensures
        applied_record(r, g, s, rec) == applied_record(r, f, s, rec),
{
    r.lemma_steady(f, g, s, rec.stamp(), rec.event);
    let ops = r.reduced(f, s, rec.stamp(), rec.event)->Ok_0;
    let all = ops.push(
        OpV::Put {
            key: applied_key(),
            value: cbor_bytes(DataV::UInt((rec.seq + 1) as u64)),
        },
    );
    law_commits_are_steady(f, g, s, batch_of(all, all.len() as int));
}

proof fn lemma_run_steady<E, R: Reducer<E>>(
    r: R,
    f: Seq<FactV>,
    g: Seq<FactV>,
    s: Seq<RowV>,
    recs: Seq<Record<E>>,
    from: int,
    n: int,
)
    requires
        extends(f, g),
        run_over(r, f, s, recs, from, n).err is None,
    ensures
        run_over(r, g, s, recs, from, n) == run_over(r, f, s, recs, from, n),
    decreases n,
{
    if n > 0 {
        lemma_run_steady(r, f, g, s, recs, from, n - 1);
        let p = run_over(r, f, s, recs, from, n - 1);
        lemma_record_steady(r, f, g, p.rows, recs[from + n - 1]);
    }
}

/// Learning facts keeps the projection to the tape: what was reduced with the
/// facts known then is what a replay with those known now gives.
pub proof fn law_learning_keeps_to_the_tape<E, R: Reducer<E>>(
    rt: Runtime<E, R>,
    f: Seq<FactV>,
    g: Seq<FactV>,
)
    requires
        extends(f, g),
        faithful(rt, f),
    ensures
        faithful(rt, g),
{
    lemma_run_steady(rt.reducer, f, g, Seq::empty(), rt.log@, 0, rt.applied as int);
}

/// One call leads from the one state of a runtime to the other.
pub open spec fn stepped<E, R: Reducer<E>>(
    a: Runtime<E, R>,
    b: Runtime<E, R>,
    f: Seq<FactV>,
) -> bool {
    &&& same_setup(b, a)
    &&& {
        ||| exists|r: Result<u64, Error>| caught_up(a, b, f, r)
        ||| exists|r: Result<u64, Error>| rebuilt(a, b, f, r)
        ||| a.log@.len() < u64::MAX && exists|event: E, now: u64, r: Result<Meta, Error>|
            appended(a, b, f, event, now, r)
        ||| exists|events: Seq<E>, clock: Seq<u64>, r: Result<Vec<Meta>, Error>|
            a.log@.len() + events.len() <= u64::MAX && #[trigger] batch_appended(
                a,
                b,
                f,
                events,
                clock,
                r,
            )
    }
}

/// Timestamps never step backwards: a call adds records that are no earlier
/// than any on the tape.
proof fn lemma_step_timed<E, R: Reducer<E>>(a: Runtime<E, R>, b: Runtime<E, R>, f: Seq<FactV>)
    requires
        stepped(a, b, f),
        timed(a.log@),
        forall|i: int| 0 <= i < a.log@.len() ==> (#[trigger] a.log@[i]).ts_ms <= a.last_ts_ms,
    ensures
        timed(b.log@),
        a.last_ts_ms <= b.last_ts_ms,
        forall|i: int| 0 <= i < b.log@.len() ==> (#[trigger] b.log@[i]).ts_ms <= b.last_ts_ms,
{
    if exists|r: Result<u64, Error>| caught_up(a, b, f, r) {
    } else if exists|r: Result<u64, Error>| rebuilt(a, b, f, r) {
    } else if a.log@.len() < u64::MAX && exists|event: E, now: u64, r: Result<Meta, Error>|
        appended(a, b, f, event, now, r) {
        if pending_run(a, f).err is None {
            let n = a.log@.len() as int;
            assert(b.log@.len() == n + 1);
            assert forall|i: int| 0 <= i < n implies #[trigger] b.log@[i] == a.log@[i] by {}
        }
    } else {
        let (events, clock, r) = choose|events: Seq<E>, clock: Seq<u64>, r: Result<Vec<Meta>, Error>|
            a.log@.len() + events.len() <= u64::MAX && #[trigger] batch_appended(
                a,
                b,
                f,
                events,
                clock,
                r,
            );
        if events.len() > 0 && pending_run(a, f).err is None {
            let n = a.log@.len() as int;
            let recs = b.log@.skip(n);
            let m = events.len() - 1;
            lemma_batch_ts(a.last_ts_ms, clock, -1, m);
            assert(recs.last() == recs[m]);
            assert forall|i: int, j: int| 0 <= i < j < b.log@.len() implies (#[trigger] b.log@[i]).ts_ms
                <= (#[trigger] b.log@[j]).ts_ms by {
                if i < n {
                    assert(b.log@.take(n)[i] == b.log@[i]);
                }
                if j < n {
                    assert(b.log@.take(n)[j] == b.log@[j]);
                } else {
                    assert(recs[j - n] == b.log@[j]);
                    lemma_batch_ts(a.last_ts_ms, clock, -1, j - n);
                    if i >= n {
                        assert(recs[i - n] == b.log@[i]);
                        lemma_batch_ts(a.last_ts_ms, clock, i - n, j - n);
                    }
                }
            }
            assert forall|i: int| 0 <= i < b.log@.len() implies (#[trigger] b.log@[i]).ts_ms
                <= b.last_ts_ms by {
                if i < n {
                    assert(b.log@.take(n)[i] == b.log@[i]);
                } else {
                    assert(recs[i - n] == b.log@[i]);
                    lemma_batch_ts(a.last_ts_ms, clock, i - n, m);
                }
            }
        }
    }
}

/// Over any sequence of calls, with facts learned on the way, the live
/// projection is what a replay from zero gives of the records applied, and the
/// timestamps of the tape never step backwards.
pub proof fn law_histories_keep_to_the_tape<E, R: Reducer<E>>(
    states: Seq<Runtime<E, R>>,
    facts: Seq<Seq<FactV>>,
    n: int,
)
    requires
        0 <= n < states.len(),
        facts.len() == states.len(),
        faithful(states[0], facts[0]),
        timed(states[0].log@),
        states[0].wf(),
        forall|i: int|
            0 <= i < states.len() - 1 ==> #[trigger] stepped(states[i], states[i + 1], facts[i]),
        forall|i: int| 0 <= i < facts.len() - 1 ==> #[trigger] extends(facts[i], facts[i + 1]),
    ensures
        faithful(states[n], facts[n]),
        timed(states[n].log@),
        states[0].last_ts_ms <= states[n].last_ts_ms,
        forall|i: int|
            0 <= i < states[n].log@.len() ==> (#[trigger] states[n].log@[i]).ts_ms
                <= states[n].last_ts_ms,
    decreases n,
{
    if n > 0 {
        law_histories_keep_to_the_tape(states, facts, n - 1);
        let f = facts[n - 1];
        let a = states[n - 1];
        let b = states[n];
        assert(stepped(states[n - 1], states[n - 1 + 1], facts[n - 1]));
        assert(extends(facts[n - 1], facts[n - 1 + 1]));
        lemma_step_timed(a, b, f);
        if exists|r: Result<u64, Error>| caught_up(a, b, f, r) {
            let r = choose|r: Result<u64, Error>| caught_up(a, b, f, r);
            law_catch_up_keeps_to_the_tape(a, b, f, r);
        } else if exists|r: Result<u64, Error>| rebuilt(a, b, f, r) {
            let r = choose|r: Result<u64, Error>| rebuilt(a, b, f, r);
            law_rebuild_keeps_to_the_tape(a, b, f, r);
        } else if a.log@.len() < u64::MAX && exists|event: E, now: u64, r: Result<Meta, Error>|
            appended(a, b, f, event, now, r) {
            let (event, now, r) = choose|event: E, now: u64, r: Result<Meta, Error>|
                appended(a, b, f, event, now, r);
            law_append_keeps_to_the_tape(a, b, f, event, now, r);
        } else {
            let (events, clock, r) =
                choose|events: Seq<E>, clock: Seq<u64>, r: Result<Vec<Meta>, Error>|
                a.log@.len() + events.len() <= u64::MAX && #[trigger] batch_appended(
                    a,
                    b,
                    f,
                    events,
                    clock,
                    r,
                );
            law_batch_keeps_to_the_tape(a, b, f, events, clock, r);
        }
        law_learning_keeps_to_the_tape(b, f, facts[n]);
    }
}

/// The lines of a text from `from` on, without their ends, and without those
/// that are blank.
pub open spec fn lines_from(s: Seq<char>, from: int, i: int) -> Seq<Seq<char>>
    decreases s.len() - i,
{
    if i < 0 || from < 0 || i >= s.len() {
        if 0 <= from <= s.len() {
            full(s.subrange(from, s.len() as int))
        } else {
            Seq::empty()
        }
    } else if s[i] == '\n' {
        if from <= i {
            full(s.subrange(from, i)) + lines_from(s, i + 1, i + 1)
        } else {
            lines_from(s, i + 1, i + 1)
        }
    } else {
        lines_from(s, from, i + 1)
    }
}

/// The line, unless it is blank.
pub open spec fn full(line: Seq<char>) -> Seq<Seq<char>> {
    if trimmed(line).len() == 0 {
        Seq::empty()
    } else {
        seq![line]
    }
}

fn push_full(out: &mut Vec<String>, line: Vec<char>)
    ensures
        crate::text::texts(final(out)@) == crate::text::texts(old(out)@) + full(line@),
{
    let ghost before = out@;
    if trim(line.as_slice()).len() > 0 {
        out.push(string_of(line.as_slice()));
        assert(crate::text::texts(out@) =~= crate::text::texts(before) + seq![line@]);
    } else {
        assert(crate::text::texts(out@) =~= crate::text::texts(before) + full(line@));
    }
}

/// The records of a tape as text: its lines that are not blank.
pub fn tape_lines(tape: &str) -> (r: Vec<String>)
    ensures
        crate::text::texts(r@) == lines_from(tape@, 0, 0),
{
    let s: Vec<char> = chars_of(tape);
    let mut out: Vec<String> = Vec::new();
    let mut from: usize = 0;
    let mut i: usize = 0;
    assert(crate::text::texts(out@) + lines_from(s@, 0, 0) =~= lines_from(s@, 0, 0));
    while i < s.len()
        invariant
            from <= i <= s@.len(),
            s@ == tape@,
            crate::text::texts(out@) + lines_from(s@, from as int, i as int) == lines_from(
                tape@,
                0,
                0,
            ),
        decreases s@.len() - i,
    {
        if s[i] == '\n' {
            let line: Vec<char> = crate::auth::chars_between(&s, from, i);
            let ghost before = crate::text::texts(out@);
            push_full(&mut out, line);
            assert(crate::text::texts(out@) + lines_from(s@, i + 1, i + 1) =~= before + lines_from(
                s@,
                from as int,
                i as int,
            ));
            from = i + 1;
        }
        i = i + 1;
    }
    let line: Vec<char> = crate::auth::chars_between(&s, from, i);
    push_full(&mut out, line);
    out
}

} // verus!
