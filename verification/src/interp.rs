//! The interpreter: a stack machine over a program whose executions are plain
//! values, which is what makes flows suspendable at hops. At a hop, and where
//! it needs the host or a fact about floats, the machine stops with the frames
//! intact; it goes on once it has the reply.

use crate::float::{FactV, FloatTable};
use crate::ir::{BinOp, Const, Function, Instr, Program, ProgramV, UnOp};
use crate::machine::{
    act, arg, arith, assigned, bin_op, blamed, call_native, closure_frame, concats, do_array, do_at,
    do_bin, do_call, do_cast, do_closure, do_const, do_get_field, do_get_index, do_iter_new,
    do_iter_next, do_map, do_set_field, do_set_index, do_spawn, do_store, do_un, dropped, field_set,
    global, indexed, jumped, leave, len_of, line_of, map_of, named_list, nav_where, new_frame, passed,
    number_in, nums, on_floats, op_name, ordered, pair_cells, pairs_of, peek, pushed, record_shape,
    rel_by, shape, sort_keys, sort_place, sort_rel, sorted, step, steps, steps_left, store_field,
    tagged_list, tail, text_const, un_op, up_to, with_cell, Act, Env, FrameV, Got, HostCallV, Nat,
    OutcomeV, StateV,
};
use crate::names::NameMap;
use crate::text::{chars_of, dec_i64, dec_u64, parse_int, string_of, text_eq, texts, trim};
use crate::value::{
    compare, is_scalar, kind_of, rel_of_floats, rel_of_text, same_text, str_at, truthy, Ask, Cell,
    CellV, Heap, LibId, NativeId, Rel, Try, TryV, Value,
};
use vstd::prelude::*;
use vstd::string::*;

verus! {

/// How many steps one run may take.
pub const STEP_LIMIT: u64 = 50_000_000;

/// A call frame.
#[derive(Debug)]
pub struct Frame {
    pub fn_idx: usize,
    pub pc: usize,
    pub locals: Vec<Value>,
    pub stack: Vec<Value>,
}

impl View for Frame {
    type V = FrameV;

    open spec fn view(&self) -> FrameV {
        FrameV {
            fn_idx: self.fn_idx,
            pc: self.pc,
            locals: self.locals@,
            stack: self.stack@,
        }
    }
}

/// What only the host can do.
pub enum HostCall {
    Print(String),
    /// Send `vars` to the hop `hop` at `target`, without a reply.
    Cast { target: Value, hop: String, vars: Value },
    /// Schedule a new flow on this machine.
    Spawn { callee: Value, args: Vec<Value> },
    Session,
    User,
    Native(NativeId, Vec<Value>),
    Lib(LibId, Vec<Value>),
}

impl View for HostCall {
    type V = HostCallV;

    open spec fn view(&self) -> HostCallV {
        match *self {
            HostCall::Print(s) => HostCallV::Print(s@),
            HostCall::Cast { target, hop, vars } => HostCallV::Cast { target, hop: hop@, vars },
            HostCall::Spawn { callee, args } => HostCallV::Spawn { callee, args: args@ },
            HostCall::Session => HostCallV::Session,
            HostCall::User => HostCallV::User,
            HostCall::Native(id, args) => HostCallV::Native(id, args@),
            HostCall::Lib(id, args) => HostCallV::Lib(id, args@),
        }
    }
}

/// Why the machine stopped.
pub enum Outcome {
    Done(Value),
    /// A hop: ship `vars` to `target`, park the execution, resume with the
    /// reply.
    Suspend { target: Value, hop: String, vars: Value },
    /// The host is to do something, and to hand its reply back.
    Host(HostCall),
    /// A fact about floats is to be learned first.
    Need(Ask),
    Error(String),
}

impl View for Outcome {
    type V = OutcomeV;

    open spec fn view(&self) -> OutcomeV {
        match *self {
            Outcome::Done(v) => OutcomeV::Done(v),
            Outcome::Suspend { target, hop, vars } => OutcomeV::Suspend { target, hop: hop@, vars },
            Outcome::Host(c) => OutcomeV::Host(c@),
            Outcome::Need(q) => OutcomeV::Need(q@),
            Outcome::Error(m) => OutcomeV::Error(m@),
        }
    }
}

/// What an instruction does to the frames.
pub enum Move {
    Go,
    Enter(Frame),
    Leave(Value),
    Stop(Outcome),
    Fail(String),
    Need(Ask),
}

/// The machine: heap and globals, and the frames of one execution.
pub struct Machine {
    pub heap: Heap,
    pub globals: NameMap<Value>,
    pub frames: Vec<Frame>,
}

pub open spec fn frames_v(v: Seq<Frame>) -> Seq<FrameV> {
    v.map_values(|f: Frame| f@)
}

impl View for Machine {
    type V = StateV;

    open spec fn view(&self) -> StateV {
        StateV { h: self.heap@, g: self.globals@, frames: frames_v(self.frames@) }
    }
}

pub open spec fn env(h: Heap, g: NameMap<Value>, fr: Frame) -> Env {
    Env { h: h@, g: g@, fr: fr@ }
}

/// The move is the act that the machine's rules say; where the instruction
/// fails or wants a fact, nothing has changed.
pub open spec fn moved(r: Move, a: Act, before: Env, after: Env) -> bool {
    match (r, a) {
        (Move::Go, Act::Go(e)) => after == e,
        (Move::Enter(f), Act::Enter(e, fr)) => after == e && f@ == fr,
        (Move::Leave(v), Act::Leave(w)) => v == w && after == before,
        (Move::Stop(o), Act::Stop(e, q)) => after == e && o@ == q,
        (Move::Fail(m), Act::Fail(w)) => m@ == w && after == before,
        (Move::Need(x), Act::Need(y)) => x@ == y && after == before,
        _ => false,
    }
}

fn underflow() -> (r: Move)
    ensures
        r matches Move::Fail(m) && m@ == "stack underflow"@,
{
    Move::Fail("stack underflow".to_owned())
}

fn corrupt() -> (r: Move)
    ensures
        r matches Move::Fail(m) && m@ == "corrupt program"@,
{
    Move::Fail("corrupt program".to_owned())
}

/// `a`, `b`, `c` and `d` in one text.
fn cat4(a: &str, b: &str, c: &str, d: &str) -> (r: String)
    ensures
        r@ == a@ + b@ + c@ + d@,
{
    let mut r: String = a.to_owned();
    r.append(b);
    r.append(c);
    r.append(d);
    r
}

/// `a` and `b` in one text.
fn cat2(a: &str, b: &str) -> (r: String)
    ensures
        r@ == a@ + b@,
{
    let mut r: String = a.to_owned();
    r.append(b);
    r
}

impl Frame {
    /// The value `k` below the top of the stack.
    fn peek(&self, k: usize) -> (r: Value)
        requires
            k < self.stack@.len(),
        ensures
            r == peek(self@, k as int),
    {
        self.stack[self.stack.len() - 1 - k]
    }

    /// Drops the top `n` values.
    fn drop_top(&mut self, n: usize)
        requires
            n <= old(self).stack@.len(),
        ensures
            final(self)@ == dropped(old(self)@, n as int),
    {
        let keep: usize = self.stack.len() - n;
        self.stack.truncate(keep);
        assert(self.stack@ =~= old(self).stack@.take(keep as int));
    }

    /// Pushes `v`.
    fn push(&mut self, v: Value)
        ensures
            final(self)@ == pushed(old(self)@, v),
    {
        self.stack.push(v);
    }

    /// How many values the top `n` are.
    fn up_to(&self, n: usize) -> (r: usize)
        ensures
            r == up_to(self@, n as int),
            r <= self.stack@.len(),
    {
        if n <= self.stack.len() {
            n
        } else {
            self.stack.len()
        }
    }

    /// The top `n` values in push order.
    fn tail(&self, n: usize) -> (r: Vec<Value>)
        ensures
            r@ == tail(self@, n as int),
    {
        let k: usize = self.up_to(n);
        let from: usize = self.stack.len() - k;
        let mut r: Vec<Value> = Vec::new();
        let mut i: usize = from;
        while i < self.stack.len()
            invariant
                from <= i <= self.stack@.len(),
                r@ == self.stack@.subrange(from as int, i as int),
            decreases self.stack@.len() - i,
        {
            r.push(self.stack[i]);
            assert(r@ =~= self.stack@.subrange(from as int, i + 1));
            i = i + 1;
        }
        assert(r@ =~= self.stack@.skip(from as int));
        r
    }
}

/// The text constant `k`.
fn text_of_const(prog: &Program, k: u32) -> (r: Option<&str>)
    ensures
        match (r, text_const(prog@, k)) {
            (Some(s), Some(t)) => s@ == t,
            (None, None) => true,
            _ => false,
        },
{
    if (k as usize) < prog.consts.len() {
        assert(prog@.consts[k as int] == prog.consts@[k as int]@);
        if let Const::Str(s) = &prog.consts[k as usize] {
            return Some(s.as_str());
        }
    }
    None
}

/// The global `name`; nil where there is none.
pub fn get_global(globals: &NameMap<Value>, name: &str) -> (r: Value)
    requires
        globals.wf(),
    ensures
        r == global(globals@, name@),
{
    match globals.get(name) {
        Some(v) => v,
        None => Value::Nil,
    }
}

fn op_const(prog: &Program, heap: &mut Heap, fr: &mut Frame, k: u32, g: Ghost<NameMap<Value>>) -> (r:
    Move)
    ensures
        moved(
            r,
            do_const(prog@, env(*old(heap), g@, *old(fr)), k),
            env(*old(heap), g@, *old(fr)),
            env(*final(heap), g@, *final(fr)),
        ),
{
    if (k as usize) < prog.consts.len() {
        assert(prog@.consts[k as int] == prog.consts@[k as int]@);
        match &prog.consts[k as usize] {
            Const::Str(s) => {
                let v: Value = heap.str(s.as_str());
                fr.push(v);
            },
            Const::Int(i) => {
                fr.push(Value::Int(*i));
            },
            Const::Float(b) => {
                fr.push(Value::Float(*b));
            },
        }
        Move::Go
    } else {
        corrupt()
    }
}

fn op_store(fr: &mut Frame, i: u16, h: Ghost<Heap>, g: Ghost<NameMap<Value>>) -> (r: Move)
    ensures
        moved(
            r,
            do_store(env(h@, g@, *old(fr)), i),
            env(h@, g@, *old(fr)),
            env(h@, g@, *final(fr)),
        ),
{
    if fr.stack.len() < 1 {
        return underflow();
    }
    if (i as usize) < fr.locals.len() {
        let v: Value = fr.peek(0);
        fr.locals.set(i as usize, v);
        fr.drop_top(1);
        Move::Go
    } else {
        corrupt()
    }
}

/// The map of the pairs in `flat`.
fn build_map(heap: &Heap, flat: &Vec<Value>) -> (r: Result<Vec<(Value, Value)>, String>)
    requires
        flat@.len() % 2 == 0,
    ensures
        match (r, map_of(heap@, flat@, flat@.len() as int / 2)) {
            (Ok(m), Ok(n)) => m@ == n,
            (Err(m), Err(w)) => m@ == w,
            _ => false,
        },
{
    let mut m: Vec<(Value, Value)> = Vec::new();
    let half: usize = flat.len() / 2;
    let mut i: usize = 0;
    while i < half
        invariant
            i <= half,
            flat@.len() == 2 * half,
            flat.len() == 2 * half,
            map_of(heap@, flat@, i as int) == Ok::<Seq<(Value, Value)>, Seq<char>>(m@),
        decreases half - i,
    {
        let k: Value = flat[2 * i];
        let v: Value = flat[2 * i + 1];
        assert(2 * (i + 1) - 2 == 2 * i && 2 * (i + 1) - 1 == 2 * i + 1);
        if !heap.is_scalar(k) {
            proof {
                lemma_map_err(heap@, flat@, i + 1, half as int);
            }
            return Err(cat2("map key must be scalar, got ", k.kind()));
        }
        match v {
            Value::Nil => {},
            _ => {
                heap.entry_put(&mut m, k, v);
            },
        }
        i = i + 1;
    }
    Ok(m)
}

proof fn lemma_map_err(h: Seq<CellV>, flat: Seq<Value>, i: int, n: int)
    requires
        0 < i <= n,
        map_of(h, flat, i) is Err,
    ensures
        map_of(h, flat, n) == map_of(h, flat, i),
    decreases n,
{
    if i < n {
        lemma_map_err(h, flat, i, n - 1);
    }
}

fn op_array(heap: &mut Heap, fr: &mut Frame, n: usize, g: Ghost<NameMap<Value>>) -> (r: Move)
    ensures
        moved(
            r,
            do_array(env(*old(heap), g@, *old(fr)), n as int),
            env(*old(heap), g@, *old(fr)),
            env(*final(heap), g@, *final(fr)),
        ),
{
    let items: Vec<Value> = fr.tail(n);
    let k: usize = fr.up_to(n);
    fr.drop_top(k);
    let v: Value = heap.array(items);
    fr.push(v);
    Move::Go
}

fn op_map(heap: &mut Heap, fr: &mut Frame, n: u16, g: Ghost<NameMap<Value>>) -> (r: Move)
    ensures
        moved(
            r,
            do_map(env(*old(heap), g@, *old(fr)), n as int),
            env(*old(heap), g@, *old(fr)),
            env(*final(heap), g@, *final(fr)),
        ),
{
    let two: usize = 2 * n as usize;
    let flat: Vec<Value> = fr.tail(two);
    if flat.len() % 2 != 0 {
        return corrupt();
    }
    match build_map(heap, &flat) {
        Err(m) => Move::Fail(m),
        Ok(m) => {
            let k: usize = fr.up_to(two);
            fr.drop_top(k);
            let v: Value = heap.map(m);
            fr.push(v);
            Move::Go
        },
    }
}

/// What `obj` has for `key`.
pub fn get_index(heap: &Heap, obj: Value, key: Value) -> (r: Result<Value, String>)
    ensures
        match (r, indexed(heap@, obj, key)) {
            (Ok(v), Ok(w)) => v == w,
            (Err(m), Err(w)) => m@ == w,
            _ => false,
        },
{
    match (obj, key) {
        (Value::Array(a), Value::Int(i)) => match heap.items_at(a) {
            Some(xs) => if i >= 0 && (i as u64) < xs.len() as u64 {
                Ok(xs[i as usize])
            } else {
                Ok(Value::Nil)
            },
            None => Ok(Value::Nil),
        },
        (Value::Dict(m), _) => if heap.is_scalar(key) {
            let entries: Vec<(Value, Value)> = heap.entries(m);
            Ok(heap.entry_get(&entries, key))
        } else {
            Err(cat4("cannot index ", obj.kind(), " with ", key.kind()))
        },
        (Value::Nil, _) => Err("indexing nil".to_owned()),
        _ => Err(cat4("cannot index ", obj.kind(), " with ", key.kind())),
    }
}

fn op_get_index(heap: &Heap, fr: &mut Frame, g: Ghost<NameMap<Value>>) -> (r: Move)
    ensures
        moved(
            r,
            do_get_index(env(*heap, g@, *old(fr))),
            env(*heap, g@, *old(fr)),
            env(*heap, g@, *final(fr)),
        ),
{
    if fr.stack.len() < 2 {
        return underflow();
    }
    match get_index(heap, fr.peek(1), fr.peek(0)) {
        Ok(v) => {
            fr.drop_top(2);
            fr.push(v);
            Move::Go
        },
        Err(m) => Move::Fail(m),
    }
}

/// Puts `c` in cell `i`.
pub fn set_cell(heap: &mut Heap, i: usize, c: Cell)
    ensures
        final(heap)@ == with_cell(old(heap)@, i, c@),
{
    if i < heap.cells.len() {
        let ghost cv = c@;
        heap.cells.set(i, c);
        assert(heap@ =~= old(heap)@.update(i as int, cv));
    }
}

/// Gives `obj` the value `v` for `key`.
pub fn set_index(heap: &mut Heap, obj: Value, key: Value, v: Value) -> (r: Result<(), String>)
    ensures
        match (r, assigned(old(heap)@, obj, key, v)) {
            (Ok(_), Ok(h)) => final(heap)@ == h,
            (Err(m), Err(w)) => m@ == w && final(heap)@ == old(heap)@,
            _ => false,
        },
{
    match (obj, key) {
        (Value::Array(a), Value::Int(i)) => {
            let mut xs: Vec<Value> = heap.items(a);
            if i < 0 || i as u64 > xs.len() as u64 {
                let at: String = dec_i64(i);
                let n: String = dec_u64(xs.len() as u64);
                return Err(cat4("array index ", at.as_str(), " out of range 0..=", n.as_str()));
            }
            if i as usize == xs.len() {
                xs.push(v);
            } else {
                xs.set(i as usize, v);
            }
            set_cell(heap, a, Cell::Array(xs));
            Ok(())
        },
        (Value::Dict(m), _) => if heap.is_scalar(key) {
            let mut entries: Vec<(Value, Value)> = heap.entries(m);
            match v {
                Value::Nil => {
                    heap.entry_del(&mut entries, key);
                },
                _ => {
                    heap.entry_put(&mut entries, key, v);
                },
            }
            set_cell(heap, m, Cell::Dict(entries));
            Ok(())
        } else {
            Err(cat4("cannot index-assign ", obj.kind(), " with ", key.kind()))
        },
        _ => Err(cat4("cannot index-assign ", obj.kind(), " with ", key.kind())),
    }
}

fn op_set_index(heap: &mut Heap, fr: &mut Frame, g: Ghost<NameMap<Value>>) -> (r: Move)
    ensures
        moved(
            r,
            do_set_index(env(*old(heap), g@, *old(fr))),
            env(*old(heap), g@, *old(fr)),
            env(*final(heap), g@, *final(fr)),
        ),
{
    if fr.stack.len() < 3 {
        return underflow();
    }
    match set_index(heap, fr.peek(2), fr.peek(1), fr.peek(0)) {
        Ok(_) => {
            fr.drop_top(3);
            Move::Go
        },
        Err(m) => Move::Fail(m),
    }
}

fn put_list(heap: &mut Heap, tag: &str, items: Vec<Value>) -> (v: Value)
    ensures
        (final(heap)@, v) == tagged_list(old(heap)@, tag@, items@),
{
    let a: Value = heap.array(items);
    heap.tagged(tag, a)
}

/// What stands behind the field `name` of the callable `store`: shape
/// constructors, the tape, and the path vocabulary of collecting and terminal
/// navigators.
pub fn get_store_field(heap: &mut Heap, name: &str) -> (r: Option<Value>)
    ensures
        match (r, store_field(old(heap)@, name@)) {
            (Some(v), Some((h, w))) => v == w && final(heap)@ == h,
            (None, None) => final(heap)@ == old(heap)@,
            _ => false,
        },
{
    if text_eq(name, "leaf") || text_eq(name, "sum") {
        let k: Value = heap.str("k");
        let v: Value = heap.str(name);
        let mut m: Vec<(Value, Value)> = Vec::new();
        m.push((k, v));
        assert(m@ =~= seq![(k, v)]);
        return Some(heap.map(m));
    }
    if text_eq(name, "map") {
        return Some(Value::Native(NativeId::ShapeMap));
    }
    if text_eq(name, "list") {
        return Some(Value::Native(NativeId::ShapeList));
    }
    if text_eq(name, "deque") {
        return Some(Value::Native(NativeId::ShapeDeque));
    }
    if text_eq(name, "record") {
        return Some(Value::Native(NativeId::ShapeRecord));
    }
    if text_eq(name, "append") {
        return Some(Value::Native(NativeId::StoreAppend));
    }
    if text_eq(name, "items") {
        return Some(Value::Native(NativeId::StoreItems));
    }
    if text_eq(name, "verify") {
        return Some(Value::Native(NativeId::StoreVerify));
    }
    if text_eq(name, "all") || text_eq(name, "keys") || text_eq(name, "vals") || text_eq(
        name,
        "first",
    ) || text_eq(name, "last") || text_eq(name, "entries") {
        let s: Value = heap.str(name);
        return Some(heap.tagged("nav", s));
    }
    if text_eq(name, "where") {
        return Some(Value::Native(NativeId::NavWhere));
    }
    if text_eq(name, "slice") {
        return Some(Value::Native(NativeId::NavSlice));
    }
    if text_eq(name, "set") {
        return Some(Value::Native(NativeId::NavSet));
    }
    if text_eq(name, "add") {
        return Some(Value::Native(NativeId::NavAdd));
    }
    if text_eq(name, "push") {
        return Some(Value::Native(NativeId::NavPush));
    }
    if text_eq(name, "del") {
        let s: Value = heap.str("del");
        let mut items: Vec<Value> = Vec::new();
        items.push(s);
        assert(items@ =~= seq![s]);
        return Some(put_list(heap, "term", items));
    }
    None
}

fn op_get_field(prog: &Program, heap: &mut Heap, fr: &mut Frame, k: u32, g: Ghost<NameMap<Value>>) -> (r:
    Move)
    ensures
        moved(
            r,
            do_get_field(prog@, env(*old(heap), g@, *old(fr)), k),
            env(*old(heap), g@, *old(fr)),
            env(*final(heap), g@, *final(fr)),
        ),
{
    if fr.stack.len() < 1 {
        return underflow();
    }
    match text_of_const(prog, k) {
        None => corrupt(),
        Some(name) => {
            let obj: Value = fr.peek(0);
            match obj {
                Value::Dict(_) => {
                    let v: Value = heap.get_field(obj, name);
                    fr.drop_top(1);
                    fr.push(v);
                    Move::Go
                },
                Value::Native(NativeId::StoreCall) => match get_store_field(heap, name) {
                    Some(v) => {
                        fr.drop_top(1);
                        fr.push(v);
                        Move::Go
                    },
                    None => Move::Fail(cat2("store has no field .", name)),
                },
                _ => Move::Fail(cat4("field .", name, " of ", obj.kind())),
            }
        },
    }
}

/// Gives the field `name` of `obj` the value `v`.
pub fn set_field(heap: &mut Heap, obj: Value, name: &str, v: Value) -> (r: Result<(), String>)
    ensures
        match (r, field_set(old(heap)@, obj, name@, v)) {
            (Ok(_), Ok(h)) => final(heap)@ == h,
            (Err(m), Err(w)) => m@ == w && final(heap)@ == old(heap)@,
            _ => false,
        },
{
    match obj {
        Value::Dict(m) => {
            let mut entries: Vec<(Value, Value)> = heap.entries(m);
            let key: Value = heap.str(name);
            match v {
                Value::Nil => {
                    heap.entry_del(&mut entries, key);
                },
                _ => {
                    heap.entry_put(&mut entries, key, v);
                },
            }
            set_cell(heap, m, Cell::Dict(entries));
            Ok(())
        },
        _ => Err(cat2("cannot set field on ", obj.kind())),
    }
}

fn op_set_field(prog: &Program, heap: &mut Heap, fr: &mut Frame, k: u32, g: Ghost<NameMap<Value>>) -> (r:
    Move)
    ensures
        moved(
            r,
            do_set_field(prog@, env(*old(heap), g@, *old(fr)), k),
            env(*old(heap), g@, *old(fr)),
            env(*final(heap), g@, *final(fr)),
        ),
{
    if fr.stack.len() < 2 {
        return underflow();
    }
    match text_of_const(prog, k) {
        None => corrupt(),
        Some(name) => match set_field(heap, fr.peek(1), name, fr.peek(0)) {
            Ok(_) => {
                fr.drop_top(2);
                Move::Go
            },
            Err(m) => Move::Fail(m),
        },
    }
}

/// What an operator gives: a value, or a new text.
enum Given {
    Val(Value),
    Text(String),
}

spec fn same_got(r: Try<Given>, s: TryV<Got>) -> bool {
    match (r, s) {
        (Try::Done(Given::Val(v)), TryV::Done(Got::Val(w))) => v == w,
        (Try::Done(Given::Text(v)), TryV::Done(Got::Text(w))) => v@ == w,
        (Try::Fail(m), TryV::Fail(w)) => m@ == w,
        (Try::Need(q), TryV::Need(w)) => q@ == w,
        _ => false,
    }
}

fn to_nums(floats: &FloatTable, a: Value, b: Value) -> (r: Try<Option<(u64, u64)>>)
    ensures
        match (r, nums(floats@, a, b)) {
            (Try::Done(x), TryV::Done(y)) => x == y,
            (Try::Fail(m), TryV::Fail(w)) => m@ == w,
            (Try::Need(q), TryV::Need(w)) => q@ == w,
            _ => false,
        },
{
    match (a, b) {
        (Value::Int(i), Value::Int(j)) => match floats.of_int(i as i128) {
            None => Try::Need(Ask::OfInt(i as i128)),
            Some(x) => match floats.of_int(j as i128) {
                None => Try::Need(Ask::OfInt(j as i128)),
                Some(y) => Try::Done(Some((x, y))),
            },
        },
        (Value::Int(i), Value::Float(y)) => match floats.of_int(i as i128) {
            None => Try::Need(Ask::OfInt(i as i128)),
            Some(x) => Try::Done(Some((x, y))),
        },
        (Value::Float(x), Value::Int(j)) => match floats.of_int(j as i128) {
            None => Try::Need(Ask::OfInt(j as i128)),
            Some(y) => Try::Done(Some((x, y))),
        },
        (Value::Float(x), Value::Float(y)) => Try::Done(Some((x, y))),
        _ => Try::Done(None),
    }
}

fn run_floats(floats: &FloatTable, op: BinOp, a: Value, b: Value, m: String) -> (r: Try<Given>)
    ensures
        same_got(r, on_floats(floats@, op, a, b, m@)),
{
    match to_nums(floats, a, b) {
        Try::Done(Some((x, y))) => match floats.computed(op, x, y) {
            None => Try::Need(Ask::Arith(op, x, y)),
            Some(z) => match Value::float(z) {
                Ok(v) => Try::Done(Given::Val(v)),
                Err(m) => Try::Fail(m),
            },
        },
        Try::Done(None) => Try::Fail(m),
        Try::Fail(w) => Try::Fail(w),
        Try::Need(q) => Try::Need(q),
    }
}

fn op_str(op: BinOp) -> (r: &'static str)
    ensures
        r@ == op_name(op),
{
    match op {
        BinOp::Add => "Add",
        BinOp::Sub => "Sub",
        _ => "Mul",
    }
}

fn run_arith(floats: &FloatTable, op: BinOp, a: Value, b: Value) -> (r: Try<Given>)
    ensures
        same_got(r, arith(floats@, op, a, b)),
{
    match (a, b) {
        (Value::Int(x), Value::Int(y)) => {
            let r: Option<i64> = match op {
                BinOp::Add => x.checked_add(y),
                BinOp::Sub => x.checked_sub(y),
                _ => x.checked_mul(y),
            };
            match r {
                Some(z) => Try::Done(Given::Val(Value::Int(z))),
                None => Try::Fail("integer overflow".to_owned()),
            }
        },
        _ => {
            let mut m: String = cat4("cannot ", op_str(op), " ", a.kind());
            m.append(" and ");
            m.append(b.kind());
            run_floats(floats, op, a, b, m)
        },
    }
}

/// The remainder of `x` by `y` that is not negative.
fn modulo(x: i64, y: i64) -> (r: i64)
    requires
        y != 0,
    ensures
        r == (x as int % (if y < 0 { -y } else { y as int })) as i64,
        r == x as int % (if y < 0 { -y } else { y as int }),
{
    let m: i128 = if y < 0 {
        -(y as i128)
    } else {
        y as i128
    };
    if x >= 0 {
        let r: u64 = x as u64 % m as u64;
        return r as i64;
    }
    let ux: u64 = (-(x as i128)) as u64;
    let um: u64 = m as u64;
    let r: u64 = ux % um;
    proof {
        let q = ux as int / um as int;
        vstd::arithmetic::div_mod::lemma_fundamental_div_mod(ux as int, um as int);
        assert(um * q == q * um) by (nonlinear_arith);
        if r == 0 {
            assert(x as int == (-q) * um + 0) by (nonlinear_arith)
                requires
                    x == -ux,
                    ux == q * um + r,
                    r == 0,
            ;
            vstd::arithmetic::div_mod::lemma_fundamental_div_mod_converse(
                x as int,
                um as int,
                -q,
                0,
            );
        } else {
            assert(x as int == (-q - 1) * um + (um - r)) by (nonlinear_arith)
                requires
                    x == -ux,
                    ux == q * um + r,
            ;
            vstd::arithmetic::div_mod::lemma_fundamental_div_mod_converse(
                x as int,
                um as int,
                -q - 1,
                um - r,
            );
        }
    }
    if r == 0 {
        0
    } else {
        (um - r) as i64
    }
}

fn run_ordered(heap: &Heap, floats: &FloatTable, a: Value, b: Value) -> (r: Try<Rel>)
    ensures
        match (r, ordered(heap@, floats@, a, b)) {
            (Try::Done(x), TryV::Done(y)) => x == y,
            (Try::Fail(m), TryV::Fail(w)) => m@ == w,
            (Try::Need(q), TryV::Need(w)) => q@ == w,
            _ => false,
        },
{
    match (a, b) {
        (Value::Int(x), Value::Int(y)) => Try::Done(
            if x < y {
                Rel::Less
            } else if x == y {
                Rel::Equal
            } else {
                Rel::Greater
            },
        ),
        (Value::Str(x), Value::Str(y)) => Try::Done(rel_of_text(heap.str_at(x), heap.str_at(y))),
        _ => match to_nums(floats, a, b) {
            Try::Done(Some((x, y))) => if Value::float(x).is_err() || Value::float(y).is_err() {
                Try::Fail("incomparable values".to_owned())
            } else {
                Try::Done(rel_of_floats(x, y))
            },
            Try::Done(None) => Try::Fail(cat4("cannot compare ", a.kind(), " and ", b.kind())),
            Try::Fail(m) => Try::Fail(m),
            Try::Need(q) => Try::Need(q),
        },
    }
}

fn can_concat(v: Value) -> (r: bool)
    ensures
        r == concats(v),
{
    match v {
        Value::Str(_) | Value::Int(_) | Value::Float(_) => true,
        _ => false,
    }
}

fn run_bin(heap: &Heap, floats: &FloatTable, op: BinOp, a: Value, b: Value) -> (r: Try<Given>)
    ensures
        same_got(r, bin_op(heap@, floats@, op, a, b)),
{
    match op {
        BinOp::Add | BinOp::Sub | BinOp::Mul => run_arith(floats, op, a, b),
        BinOp::Div => {
            let m: String = cat4("cannot divide ", a.kind(), " by ", b.kind());
            run_floats(floats, op, a, b, m)
        },
        BinOp::Mod => match (a, b) {
            (Value::Int(x), Value::Int(y)) => if y == 0 {
                Try::Fail("mod by zero".to_owned())
            } else {
                Try::Done(Given::Val(Value::Int(modulo(x, y))))
            },
            _ => {
                let m: String = cat4("cannot mod ", a.kind(), " by ", b.kind());
                run_floats(floats, op, a, b, m)
            },
        },
        BinOp::Concat => if can_concat(a) && can_concat(b) {
            match heap.coerce_str(floats, a) {
                Try::Done(x) => match heap.coerce_str(floats, b) {
                    Try::Done(y) => Try::Done(Given::Text(cat2(x.as_str(), y.as_str()))),
                    Try::Fail(m) => Try::Fail(m),
                    Try::Need(q) => Try::Need(q),
                },
                Try::Fail(m) => Try::Fail(m),
                Try::Need(q) => Try::Need(q),
            }
        } else {
            Try::Fail(cat4("cannot concat ", a.kind(), " and ", b.kind()))
        },
        BinOp::Eq => match heap.compare(heap.cells.len(), a, b) {
            Some(r) => Try::Done(Given::Val(Value::Bool(r == Rel::Equal))),
            None => Try::Fail("value is nested too deeply".to_owned()),
        },
        BinOp::Ne => match heap.compare(heap.cells.len(), a, b) {
            Some(r) => Try::Done(Given::Val(Value::Bool(r != Rel::Equal))),
            None => Try::Fail("value is nested too deeply".to_owned()),
        },
        BinOp::Lt | BinOp::Le | BinOp::Gt | BinOp::Ge => match run_ordered(heap, floats, a, b) {
            Try::Done(r) => {
                let b: bool = match op {
                    BinOp::Lt => r == Rel::Less,
                    BinOp::Le => r != Rel::Greater,
                    BinOp::Gt => r == Rel::Greater,
                    _ => r != Rel::Less,
                };
                Try::Done(Given::Val(Value::Bool(b)))
            },
            Try::Fail(m) => Try::Fail(m),
            Try::Need(q) => Try::Need(q),
        },
    }
}

fn op_bin(heap: &mut Heap, floats: &FloatTable, fr: &mut Frame, op: BinOp, g: Ghost<
    NameMap<Value>,
>) -> (r: Move)
    ensures
        moved(
            r,
            do_bin(floats@, env(*old(heap), g@, *old(fr)), op),
            env(*old(heap), g@, *old(fr)),
            env(*final(heap), g@, *final(fr)),
        ),
{
    if fr.stack.len() < 2 {
        return underflow();
    }
    match run_bin(heap, floats, op, fr.peek(1), fr.peek(0)) {
        Try::Done(Given::Val(v)) => {
            fr.drop_top(2);
            fr.push(v);
            Move::Go
        },
        Try::Done(Given::Text(s)) => {
            fr.drop_top(2);
            let i: usize = heap.put(Cell::Str(s));
            fr.push(Value::Str(i));
            Move::Go
        },
        Try::Fail(m) => Move::Fail(m),
        Try::Need(q) => Move::Need(q),
    }
}

fn run_un(op: UnOp, a: Value) -> (r: Result<Value, String>)
    ensures
        match (r, un_op(op, a)) {
            (Ok(v), Ok(w)) => v == w,
            (Err(m), Err(w)) => m@ == w,
            _ => false,
        },
{
    match op {
        UnOp::Not => Ok(Value::Bool(!a.truthy())),
        UnOp::Neg => match a {
            Value::Int(i) => if i == i64::MIN {
                Err("integer overflow".to_owned())
            } else {
                Ok(Value::Int(-i))
            },
            Value::Float(b) => if b < 0x8000_0000_0000_0000 {
                Ok(Value::Float(b + 0x8000_0000_0000_0000))
            } else {
                Ok(Value::Float(b - 0x8000_0000_0000_0000))
            },
            _ => Err(cat2("cannot negate ", a.kind())),
        },
    }
}

fn op_un(fr: &mut Frame, op: UnOp, h: Ghost<Heap>, g: Ghost<NameMap<Value>>) -> (r: Move)
    ensures
        moved(
            r,
            do_un(env(h@, g@, *old(fr)), op),
            env(h@, g@, *old(fr)),
            env(h@, g@, *final(fr)),
        ),
{
    if fr.stack.len() < 1 {
        return underflow();
    }
    match run_un(op, fr.peek(0)) {
        Ok(v) => {
            fr.drop_top(1);
            fr.push(v);
            Move::Go
        },
        Err(m) => Move::Fail(m),
    }
}

fn target(pc: usize, d: i32) -> (r: usize)
    ensures
        r == jumped(pc, d),
{
    let t: i128 = pc as i128 + d as i128;
    if t >= 0 && t <= usize::MAX as i128 {
        t as usize
    } else {
        usize::MAX
    }
}

/// The frame of a call.
pub fn make_frame(f: &Function, fn_idx: usize, caps: &Vec<Value>, args: &Vec<Value>) -> (r: Option<
    Frame,
>)
    ensures
        match (r, new_frame(f@, fn_idx, caps@, args@)) {
            (Some(x), Some(y)) => x@ == y,
            (None, None) => true,
            _ => false,
        },
{
    let n: usize = f.n_locals as usize;
    let base: usize = f.n_caps as usize;
    let count: usize = if args.len() < f.n_params as usize {
        args.len()
    } else {
        f.n_params as usize
    };
    let top: usize = base + count;
    if caps.len() > n || (count > 0 && top > n) {
        return None;
    }
    let mut locals: Vec<Value> = Vec::new();
    let mut i: usize = 0;
    let ghost want = new_frame(f@, fn_idx, caps@, args@)->0.locals;
    while i < n
        invariant
            i <= n,
            n == f.n_locals,
            base == f.n_caps,
            count == passed(f@, args@.len()),
            top == f.n_caps + count,
            caps@.len() <= n,
            new_frame(f@, fn_idx, caps@, args@) is Some,
            want == new_frame(f@, fn_idx, caps@, args@)->0.locals,
            locals@ == want.take(i as int),
        decreases n - i,
    {
        let v: Value = if base <= i && i < top {
            args[i - base]
        } else if i < caps.len() {
            caps[i]
        } else {
            Value::Nil
        };
        locals.push(v);
        assert(locals@ =~= want.take(i + 1));
        i = i + 1;
    }
    assert(want.take(i as int) =~= want);
    let stack: Vec<Value> = Vec::new();
    assert(stack@ =~= Seq::<Value>::empty());
    Some(Frame { fn_idx, pc: 0, locals, stack })
}

/// The frame of a call of the closure in cell `c`.
pub fn frame_of_closure(prog: &Program, heap: &Heap, c: usize, args: &Vec<Value>) -> (r: Option<
    Frame,
>)
    ensures
        match (r, closure_frame(prog@, heap@, c, args@)) {
            (Some(x), Some(y)) => x@ == y,
            (None, None) => true,
            _ => false,
        },
{
    match heap.closure_at(c) {
        None => None,
        Some((fi, caps)) => {
            if fi < prog.fns.len() {
                assert(prog@.fns[fi as int] == prog.fns@[fi as int]@);
                make_frame(&prog.fns[fi], fi, caps, args)
            } else {
                None
            }
        },
    }
}

/// What a native gives.
enum Native {
    Val(Value),
    Host(HostCall),
}

spec fn same_nat(r: Try<Native>, s: TryV<Nat>, before: Seq<CellV>, after: Seq<CellV>) -> bool {
    match (r, s) {
        (Try::Done(Native::Val(v)), TryV::Done(Nat::Val(h, w))) => v == w && after == h,
        (Try::Done(Native::Host(c)), TryV::Done(Nat::Host(d))) => c@ == d && after == before,
        (Try::Fail(m), TryV::Fail(w)) => m@ == w && after == before,
        (Try::Need(q), TryV::Need(w)) => q@ == w && after == before,
        _ => false,
    }
}

fn arg_at(args: &Vec<Value>, i: usize) -> (r: Value)
    ensures
        r == arg(args@, i as int),
{
    if i < args.len() {
        args[i]
    } else {
        Value::Nil
    }
}

fn line(heap: &Heap, floats: &FloatTable, args: &Vec<Value>) -> (r: Try<String>)
    ensures
        same_text(r, line_of(heap@, floats@, args@, args@.len() as int)),
{
    let mut s: String = String::new();
    let mut i: usize = 0;
    while i < args.len()
        invariant
            i <= args@.len(),
            line_of(heap@, floats@, args@, i as int) == TryV::Done(s@),
        decreases args@.len() - i,
    {
        match heap.coerce_str(floats, args[i]) {
            Try::Done(t) => {
                if i > 0 {
                    s.append(" ");
                }
                s.append(t.as_str());
            },
            other => {
                proof {
                    lemma_line_stop(heap@, floats@, args@, i + 1, args@.len() as int);
                }
                return other;
            },
        }
        i = i + 1;
    }
    Try::Done(s)
}

proof fn lemma_line_stop(h: Seq<CellV>, f: Seq<FactV>, args: Seq<Value>, i: int, n: int)
    requires
        0 <= i <= n <= args.len(),
        !(line_of(h, f, args, i) is Done),
    ensures
        line_of(h, f, args, n) == line_of(h, f, args, i),
    decreases n,
{
    if i < n {
        lemma_line_stop(h, f, args, i, n - 1);
    }
}

fn number(floats: &FloatTable, s: &Vec<char>) -> (r: Try<Value>)
    ensures
        match (r, number_in(floats@, s@)) {
            (Try::Done(v), TryV::Done(w)) => v == w,
            (Try::Fail(m), TryV::Fail(w)) => m@ == w,
            (Try::Need(q), TryV::Need(w)) => q@ == w,
            _ => false,
        },
{
    match parse_int(s.as_slice()) {
        Some(i) => Try::Done(Value::Int(i)),
        None => {
            let t: String = string_of(s.as_slice());
            match floats.parsed(t.as_str()) {
                None => Try::Need(Ask::Parse(t)),
                Some(Some(b)) => match Value::float(b) {
                    Ok(v) => Try::Done(v),
                    Err(_) => Try::Done(Value::Nil),
                },
                Some(None) => Try::Done(Value::Nil),
            }
        },
    }
}

fn keys_of(heap: &Heap, ks: &Vec<Value>) -> (r: Option<Vec<String>>)
    ensures
        match (r, sort_keys(heap@, ks@, ks@.len() as int)) {
            (Some(v), Some(w)) => texts(v@) == w,
            (None, None) => true,
            _ => false,
        },
{
    let mut out: Vec<String> = Vec::new();
    let mut i: usize = 0;
    assert(texts(out@) =~= Seq::<Seq<char>>::empty());
    while i < ks.len()
        invariant
            i <= ks@.len(),
            sort_keys(heap@, ks@, i as int) == Some(texts(out@)),
        decreases ks@.len() - i,
    {
        match heap.as_str(ks[i]) {
            Some(s) => {
                let ghost before = out@;
                out.push(s.to_owned());
                assert(texts(out@) =~= texts(before).push(s@));
            },
            None => {
                proof {
                    lemma_keys_none(heap@, ks@, i + 1, ks@.len() as int);
                }
                return None;
            },
        }
        i = i + 1;
    }
    Some(out)
}

proof fn lemma_keys_none(h: Seq<CellV>, ks: Seq<Value>, i: int, n: int)
    requires
        0 <= i <= n <= ks.len(),
        sort_keys(h, ks, i) is None,
    ensures
        sort_keys(h, ks, n) is None,
    decreases n,
{
    if i < n {
        lemma_keys_none(h, ks, i, n - 1);
    }
}

fn rel_in_sort(heap: &Heap, keys: &Vec<String>, x: Value, y: Value) -> (r: Option<Rel>)
    ensures
        r == sort_rel(heap@, texts(keys@), x, y),
{
    if keys.len() == 0 {
        return heap.compare(heap.cells.len(), x, y);
    }
    let mut i: usize = 0;
    while i < keys.len()
        invariant
            i <= keys@.len(),
            keys@.len() > 0,
            rel_by(heap@, texts(keys@), x, y, 0) == rel_by(heap@, texts(keys@), x, y, i as int),
        decreases keys@.len() - i,
    {
        let k = keys[i].as_str();
        assert(texts(keys@)[i as int] == k@);
        match heap.compare(heap.cells.len(), heap.get_field(x, k), heap.get_field(y, k)) {
            Some(Rel::Equal) => {},
            other => {
                return other;
            },
        }
        i = i + 1;
    }
    Some(Rel::Equal)
}

/// The items sorted by `keys`, or in the order of values without keys; equal
/// items keep their order. None where the values nest too deeply to compare.
pub fn sort_values(heap: &Heap, keys: &Vec<String>, xs: &Vec<Value>) -> (r: Option<Vec<Value>>)
    ensures
        match (r, sorted(heap@, texts(keys@), xs@, xs@.len() as int)) {
            (Some(v), Some(w)) => v@ == w,
            (None, None) => true,
            _ => false,
        },
{
    let mut out: Vec<Value> = Vec::new();
    let mut i: usize = 0;
    while i < xs.len()
        invariant
            i <= xs@.len(),
            sorted(heap@, texts(keys@), xs@, i as int) == Some(out@),
        decreases xs@.len() - i,
    {
        let x: Value = xs[i];
        match find_place(heap, keys, &out, x) {
            Some(at) => {
                out.insert(at, x);
            },
            None => {
                proof {
                    lemma_sorted_none(heap@, texts(keys@), xs@, i + 1, xs@.len() as int);
                }
                return None;
            },
        }
        i = i + 1;
    }
    Some(out)
}

fn find_place(heap: &Heap, keys: &Vec<String>, xs: &Vec<Value>, x: Value) -> (r: Option<usize>)
    ensures
        match (r, sort_place(heap@, texts(keys@), xs@, x, xs@.len() as int)) {
            (Some(v), Some(w)) => v == w && v <= xs@.len(),
            (None, None) => true,
            _ => false,
        },
{
    let mut n: usize = xs.len();
    while n > 0
        invariant
            n <= xs@.len(),
            sort_place(heap@, texts(keys@), xs@, x, xs@.len() as int) == sort_place(
                heap@,
                texts(keys@),
                xs@,
                x,
                n as int,
            ),
        decreases n,
    {
        match rel_in_sort(heap, keys, xs[n - 1], x) {
            None => {
                return None;
            },
            Some(Rel::Greater) => {},
            Some(_) => {
                return Some(n);
            },
        }
        n = n - 1;
    }
    Some(0)
}

proof fn lemma_sorted_none(h: Seq<CellV>, keys: Seq<Seq<char>>, xs: Seq<Value>, i: int, n: int)
    requires
        0 <= i <= n <= xs.len(),
        sorted(h, keys, xs, i) is None,
    ensures
        sorted(h, keys, xs, n) is None,
    decreases n,
{
    if i < n {
        lemma_sorted_none(h, keys, xs, i, n - 1);
    }
}

fn put_shape(heap: &mut Heap, k: &str, of: Value) -> (v: Value)
    ensures
        Nat::Val(final(heap)@, v) == shape(old(heap)@, k@, of),
{
    let a: Value = heap.str("k");
    let b: Value = heap.str(k);
    let mut m: Vec<(Value, Value)> = Vec::new();
    m.push((a, b));
    match of {
        Value::Nil => {
            assert(m@ =~= seq![(a, b)]);
        },
        _ => {
            let c: Value = heap.str("of");
            m.push((c, of));
            assert(m@ =~= seq![(a, b), (c, of)]);
        },
    }
    heap.map(m)
}

fn put_record(heap: &mut Heap, fields: Value) -> (v: Value)
    ensures
        Nat::Val(final(heap)@, v) == record_shape(old(heap)@, fields),
{
    let a: Value = heap.str("fields");
    let b: Value = heap.str("k");
    let c: Value = heap.str("record");
    let mut m: Vec<(Value, Value)> = Vec::new();
    m.push((a, fields));
    m.push((b, c));
    assert(m@ =~= seq![(a, fields), (b, c)]);
    heap.map(m)
}

fn put_named(heap: &mut Heap, tag: &str, name: &str, rest: Vec<Value>) -> (v: Value)
    ensures
        Nat::Val(final(heap)@, v) == named_list(old(heap)@, tag@, name@, rest@),
{
    let s: Value = heap.str(name);
    let mut items: Vec<Value> = Vec::new();
    items.push(s);
    let mut more: Vec<Value> = rest;
    items.append(&mut more);
    assert(items@ =~= seq![s] + rest@);
    put_list(heap, tag, items)
}

fn put_where(heap: &mut Heap, args: &Vec<Value>) -> (v: Value)
    ensures
        Nat::Val(final(heap)@, v) == nav_where(old(heap)@, args@),
{
    let mut rest: Vec<Value> = Vec::new();
    if args.len() < 2 {
        rest.push(arg_at(args, 0));
        assert(rest@ =~= seq![arg(args@, 0)]);
        return put_named(heap, "nav", "where", rest);
    }
    if args.len() < 3 {
        let s: Value = heap.str("where");
        let t: Value = heap.str("==");
        rest.push(s);
        rest.push(args[0]);
        rest.push(t);
        rest.push(args[1]);
        assert(rest@ =~= seq![s, args@[0], t, args@[1]]);
        return put_list(heap, "nav", rest);
    }
    rest.push(args[0]);
    rest.push(args[1]);
    rest.push(args[2]);
    assert(rest@ =~= seq![args@[0], args@[1], args@[2]]);
    put_named(heap, "nav", "where", rest)
}

/// The length of `v` as `len` gives it.
pub fn length(heap: &Heap, v: Value) -> (r: Result<Value, String>)
    ensures
        match (r, len_of(heap@, v)) {
            (Ok(x), Ok(y)) => x == y,
            (Err(m), Err(w)) => m@ == w,
            _ => false,
        },
{
    match v {
        Value::Array(a) => {
            let xs: Vec<Value> = heap.items(a);
            Ok(Value::Int(xs.len() as i64))
        },
        Value::Dict(m) => {
            let xs: Vec<(Value, Value)> = heap.entries(m);
            Ok(Value::Int(xs.len() as i64))
        },
        Value::Str(s) => {
            let b = heap.str_at(s).as_bytes();
            Ok(Value::Int(b.len() as i64))
        },
        Value::Nil => Ok(Value::Int(0)),
        _ => Err(cat2("len of ", v.kind())),
    }
}

fn native_sort(heap: &mut Heap, floats: &FloatTable, args: &Vec<Value>) -> (r: Try<Native>)
    ensures
        same_nat(
            r,
            call_native(old(heap)@, floats@, NativeId::SortBy, args@),
            old(heap)@,
            final(heap)@,
        ),
{
    let keys: Option<Vec<String>> = match arg_at(args, 1) {
        Value::Array(ks) => {
            let items: Vec<Value> = heap.items(ks);
            keys_of(heap, &items)
        },
        _ => {
            let none: Vec<String> = Vec::new();
            assert(texts(none@) =~= Seq::<Seq<char>>::empty());
            Some(none)
        },
    };
    match keys {
        None => Try::Fail("sort_by keys must be strings".to_owned()),
        Some(keys) => match arg_at(args, 0) {
            Value::Array(a) => {
                let items: Vec<Value> = heap.items(a);
                match sort_values(heap, &keys, &items) {
                    Some(s) => {
                        set_cell(heap, a, Cell::Array(s));
                        Try::Done(Native::Val(Value::Nil))
                    },
                    None => Try::Fail("value is nested too deeply".to_owned()),
                }
            },
            _ => Try::Fail("sort_by expects an array".to_owned()),
        },
    }
}

fn native_text(heap: &mut Heap, floats: &FloatTable, id: NativeId, args: &Vec<Value>) -> (r: Try<
    Native,
>)
    requires
        id == NativeId::Print || id == NativeId::Error || id == NativeId::Tostring || id
            == NativeId::Tonumber,
    ensures
        same_nat(r, call_native(old(heap)@, floats@, id, args@), old(heap)@, final(heap)@),
{
    match id {
        NativeId::Print => match line(heap, floats, args) {
            Try::Done(s) => Try::Done(Native::Host(HostCall::Print(s))),
            Try::Fail(m) => Try::Fail(m),
            Try::Need(q) => Try::Need(q),
        },
        NativeId::Error => match heap.coerce_str(floats, arg_at(args, 0)) {
            Try::Done(s) => Try::Fail(s),
            Try::Fail(m) => Try::Fail(m),
            Try::Need(q) => Try::Need(q),
        },
        NativeId::Tostring => match heap.coerce_str(floats, arg_at(args, 0)) {
            Try::Done(s) => {
                let i: usize = heap.put(Cell::Str(s));
                Try::Done(Native::Val(Value::Str(i)))
            },
            Try::Fail(m) => Try::Fail(m),
            Try::Need(q) => Try::Need(q),
        },
        _ => match arg_at(args, 0) {
            Value::Int(i) => Try::Done(Native::Val(Value::Int(i))),
            Value::Float(b) => Try::Done(Native::Val(Value::Float(b))),
            Value::Str(s) => {
                let cs: Vec<char> = chars_of(heap.str_at(s));
                let t: Vec<char> = trim(cs.as_slice());
                match number(floats, &t) {
                    Try::Done(v) => Try::Done(Native::Val(v)),
                    Try::Fail(m) => Try::Fail(m),
                    Try::Need(q) => Try::Need(q),
                }
            },
            _ => Try::Done(Native::Val(Value::Nil)),
        },
    }
}

/// Runs the natives that need no host; hands the others on.
fn run_native(heap: &mut Heap, floats: &FloatTable, id: NativeId, args: Vec<Value>) -> (r: Try<
    Native,
>)
    ensures
        same_nat(r, call_native(old(heap)@, floats@, id, args@), old(heap)@, final(heap)@),
{
    match id {
        NativeId::Print | NativeId::Error | NativeId::Tostring | NativeId::Tonumber => native_text(
            heap,
            floats,
            id,
            &args,
        ),
        NativeId::Push => {
            if args.len() < 2 {
                return Try::Fail("push(array, value)".to_owned());
            }
            let v: Value = args[args.len() - 1];
            match args[0] {
                Value::Array(a) => {
                    let mut xs: Vec<Value> = heap.items(a);
                    xs.push(v);
                    set_cell(heap, a, Cell::Array(xs));
                    Try::Done(Native::Val(Value::Nil))
                },
                o => Try::Fail(cat2("push into ", o.kind())),
            }
        },
        NativeId::Len => match length(heap, arg_at(&args, 0)) {
            Ok(v) => Try::Done(Native::Val(v)),
            Err(m) => Try::Fail(m),
        },
        NativeId::SortBy => native_sort(heap, floats, &args),
        NativeId::Floor => match arg_at(&args, 0) {
            Value::Int(i) => Try::Done(Native::Val(Value::Int(i))),
            Value::Float(b) => match floats.floored(b) {
                Some(i) => Try::Done(Native::Val(Value::Int(i))),
                None => Try::Need(Ask::Floor(b)),
            },
            _ => Try::Fail("floor expects a number".to_owned()),
        },
        NativeId::TypeOf => {
            let v: Value = heap.str(arg_at(&args, 0).kind());
            Try::Done(Native::Val(v))
        },
        NativeId::ShapeMap => Try::Done(Native::Val(put_shape(heap, "map", arg_at(&args, 0)))),
        NativeId::ShapeList => Try::Done(Native::Val(put_shape(heap, "list", arg_at(&args, 0)))),
        NativeId::ShapeDeque => Try::Done(Native::Val(put_shape(heap, "deque", arg_at(&args, 0)))),
        NativeId::ShapeRecord => Try::Done(Native::Val(put_record(heap, arg_at(&args, 0)))),
        NativeId::NavWhere => Try::Done(Native::Val(put_where(heap, &args))),
        NativeId::NavSlice => {
            let mut rest: Vec<Value> = Vec::new();
            rest.push(arg_at(&args, 0));
            rest.push(arg_at(&args, 1));
            assert(rest@ =~= seq![arg(args@, 0), arg(args@, 1)]);
            Try::Done(Native::Val(put_named(heap, "nav", "slice", rest)))
        },
        NativeId::NavSet | NativeId::NavAdd | NativeId::NavPush => {
            let mut rest: Vec<Value> = Vec::new();
            rest.push(arg_at(&args, 0));
            assert(rest@ =~= seq![arg(args@, 0)]);
            match id {
                NativeId::NavSet => Try::Done(Native::Val(put_named(heap, "term", "set", rest))),
                NativeId::NavAdd => Try::Done(Native::Val(put_named(heap, "term", "add", rest))),
                _ => Try::Done(Native::Val(put_named(heap, "term", "push", rest))),
            }
        },
        _ => Try::Done(Native::Host(HostCall::Native(id, args))),
    }
}

fn op_call(prog: &Program, floats: &FloatTable, heap: &mut Heap, fr: &mut Frame, n: u8, g: Ghost<
    NameMap<Value>,
>) -> (r: Move)
    ensures
        moved(
            r,
            do_call(prog@, floats@, env(*old(heap), g@, *old(fr)), n as int),
            env(*old(heap), g@, *old(fr)),
            env(*final(heap), g@, *final(fr)),
        ),
{
    let args: Vec<Value> = fr.tail(n as usize);
    let k: usize = fr.up_to(n as usize);
    if fr.stack.len() - k < 1 {
        return Move::Fail("stack underflow (callee)".to_owned());
    }
    let callee: Value = fr.peek(k);
    proof {
        let below = dropped(fr@, k as int);
        assert(peek(below, 0) == callee);
        assert(dropped(below, 1).stack =~= dropped(fr@, k + 1).stack);
    }
    match callee {
        Value::Closure(c) => match frame_of_closure(prog, heap, c, &args) {
            Some(new) => {
                fr.drop_top(k + 1);
                Move::Enter(new)
            },
            None => corrupt(),
        },
        Value::Native(id) => match run_native(heap, floats, id, args) {
            Try::Done(Native::Val(v)) => {
                fr.drop_top(k + 1);
                fr.push(v);
                Move::Go
            },
            Try::Done(Native::Host(c)) => {
                fr.drop_top(k + 1);
                Move::Stop(Outcome::Host(c))
            },
            Try::Fail(m) => Move::Fail(m),
            Try::Need(q) => Move::Need(q),
        },
        Value::Lib(id) => {
            fr.drop_top(k + 1);
            Move::Stop(Outcome::Host(HostCall::Lib(id, args)))
        },
        Value::Nil => Move::Fail("calling nil (unknown function?)".to_owned()),
        o => Move::Fail(cat2("cannot call a ", o.kind())),
    }
}

fn op_closure(heap: &mut Heap, fr: &mut Frame, fi: u32, n: u8, g: Ghost<NameMap<Value>>) -> (r:
    Move)
    ensures
        moved(
            r,
            do_closure(env(*old(heap), g@, *old(fr)), fi, n as int),
            env(*old(heap), g@, *old(fr)),
            env(*final(heap), g@, *final(fr)),
        ),
{
    let caps: Vec<Value> = fr.tail(n as usize);
    let k: usize = fr.up_to(n as usize);
    fr.drop_top(k);
    let i: usize = heap.put(Cell::Closure(fi as usize, caps));
    fr.push(Value::Closure(i));
    Move::Go
}

/// The pairs that iterating `v` yields.
fn iter_pairs(heap: &Heap, v: Value) -> (r: Result<Vec<(Value, Value)>, String>)
    ensures
        match (r, pairs_of(heap@, v)) {
            (Ok(p), Ok(q)) => {
                &&& p@.len() == q.len()
                &&& forall|i: int| 0 <= i < p@.len() ==> seq![(#[trigger] p@[i]).0, p@[i].1] == q[i]
            },
            (Err(m), Err(w)) => m@ == w,
            _ => false,
        },
{
    match v {
        Value::Array(a) => {
            let xs: Vec<Value> = heap.items(a);
            let mut out: Vec<(Value, Value)> = Vec::new();
            let mut i: usize = 0;
            while i < xs.len()
                invariant
                    i <= xs@.len(),
                    out@.len() == i,
                    forall|j: int| 0 <= j < i ==> #[trigger] out@[j] == (Value::Int(j as i64), xs@[j]),
                decreases xs@.len() - i,
            {
                out.push((Value::Int(i as i64), xs[i]));
                i = i + 1;
            }
            Ok(out)
        },
        Value::Dict(m) => Ok(heap.entries(m)),
        _ => Err(cat2("cannot iterate a ", v.kind())),
    }
}

fn op_iter_new(heap: &mut Heap, fr: &mut Frame, g: Ghost<NameMap<Value>>) -> (r: Move)
    ensures
        moved(
            r,
            do_iter_new(env(*old(heap), g@, *old(fr))),
            env(*old(heap), g@, *old(fr)),
            env(*final(heap), g@, *final(fr)),
        ),
{
    if fr.stack.len() < 1 {
        return underflow();
    }
    let v: Value = fr.peek(0);
    match iter_pairs(heap, v) {
        Err(m) => Move::Fail(m),
        Ok(pairs) => {
            let ghost want = pairs_of(old(heap)@, v)->Ok_0;
            let mut cells: Vec<Value> = Vec::new();
            let mut i: usize = 0;
            assert(heap@ =~= pair_cells(old(heap)@, want.take(0)));
            while i < pairs.len()
                invariant
                    i <= pairs@.len(),
                    pairs@.len() == want.len(),
                    forall|j: int|
                        0 <= j < pairs@.len() ==> seq![(#[trigger] pairs@[j]).0, pairs@[j].1] == want[j],
                    heap@ == pair_cells(old(heap)@, want.take(i as int)),
                    cells@.len() == i,
                    forall|j: int|
                        0 <= j < i ==> #[trigger] cells@[j] == Value::Array(
                            (old(heap)@.len() + j) as usize,
                        ),
                decreases pairs@.len() - i,
            {
                let mut two: Vec<Value> = Vec::new();
                two.push(pairs[i].0);
                two.push(pairs[i].1);
                assert(two@ =~= seq![pairs@[i as int].0, pairs@[i as int].1]);
                let ghost before = heap@;
                let c: Value = heap.array(two);
                cells.push(c);
                assert(heap@ =~= pair_cells(old(heap)@, want.take(i + 1)));
                i = i + 1;
            }
            assert(want.take(i as int) =~= want);
            assert(cells@ =~= Seq::new(
                want.len(),
                |i: int| Value::Array((old(heap)@.len() + i) as usize),
            ));
            fr.drop_top(1);
            let a: Value = heap.array(cells);
            fr.push(a);
            Move::Go
        },
    }
}

fn op_iter_next(heap: &Heap, fr: &mut Frame, d: i32, g: Ghost<NameMap<Value>>) -> (r: Move)
    ensures
        moved(
            r,
            do_iter_next(env(*heap, g@, *old(fr)), d),
            env(*heap, g@, *old(fr)),
            env(*heap, g@, *final(fr)),
        ),
{
    if fr.stack.len() < 2 {
        return underflow();
    }
    let idx: Value = fr.peek(0);
    let iter: Value = fr.peek(1);
    match idx {
        Value::Int(i) => match iter {
            Value::Array(a) => {
                let xs: Vec<Value> = heap.items(a);
                if i >= 0 && (i as u64) < xs.len() as u64 {
                    match xs[i as usize] {
                        Value::Array(kv) => {
                            let pair: Vec<Value> = heap.items(kv);
                            if pair.len() < 2 || i == i64::MAX {
                                return corrupt();
                            }
                            fr.drop_top(2);
                            fr.push(Value::Array(a));
                            fr.push(Value::Int(i + 1));
                            fr.push(pair[0]);
                            fr.push(pair[1]);
                            Move::Go
                        },
                        _ => Move::Fail("iterator corrupted".to_owned()),
                    }
                } else {
                    fr.drop_top(2);
                    fr.pc = target(fr.pc, d);
                    Move::Go
                }
            },
            _ => Move::Fail("iterator corrupted".to_owned()),
        },
        _ => Move::Fail("iterator index corrupted".to_owned()),
    }
}

fn op_at(prog: &Program, fr: &mut Frame, k: u32, h: Ghost<Heap>, g: Ghost<NameMap<Value>>) -> (r:
    Move)
    ensures
        moved(
            r,
            do_at(prog@, env(h@, g@, *old(fr)), k),
            env(h@, g@, *old(fr)),
            env(h@, g@, *final(fr)),
        ),
{
    if fr.stack.len() < 2 {
        return underflow();
    }
    match text_of_const(prog, k) {
        None => corrupt(),
        Some(hop) => {
            let vars: Value = fr.peek(0);
            let target: Value = fr.peek(1);
            fr.drop_top(2);
            Move::Stop(Outcome::Suspend { target, hop: hop.to_owned(), vars })
        },
    }
}

fn op_cast(prog: &Program, fr: &mut Frame, k: u32, h: Ghost<Heap>, g: Ghost<NameMap<Value>>) -> (r:
    Move)
    ensures
        moved(
            r,
            do_cast(prog@, env(h@, g@, *old(fr)), k),
            env(h@, g@, *old(fr)),
            env(h@, g@, *final(fr)),
        ),
{
    if fr.stack.len() < 2 {
        return underflow();
    }
    match text_of_const(prog, k) {
        None => corrupt(),
        Some(hop) => {
            let vars: Value = fr.peek(0);
            let target: Value = fr.peek(1);
            fr.drop_top(2);
            Move::Stop(Outcome::Host(HostCall::Cast { target, hop: hop.to_owned(), vars }))
        },
    }
}

fn op_spawn(heap: &Heap, fr: &mut Frame, g: Ghost<NameMap<Value>>) -> (r: Move)
    ensures
        moved(
            r,
            do_spawn(env(*heap, g@, *old(fr))),
            env(*heap, g@, *old(fr)),
            env(*heap, g@, *final(fr)),
        ),
{
    if fr.stack.len() < 2 {
        return underflow();
    }
    match fr.peek(0) {
        Value::Array(a) => {
            let callee: Value = fr.peek(1);
            fr.drop_top(2);
            Move::Stop(Outcome::Host(HostCall::Spawn { callee, args: heap.items(a) }))
        },
        _ => Move::Fail("spawn arguments corrupted".to_owned()),
    }
}

/// Executes one instruction.
fn execute(
    prog: &Program,
    floats: &FloatTable,
    heap: &mut Heap,
    globals: &mut NameMap<Value>,
    fr: &mut Frame,
    i: Instr,
) -> (r: Move)
    requires
        old(globals).wf(),
    ensures
        final(globals).wf(),
        moved(
            r,
            act(prog@, floats@, env(*old(heap), *old(globals), *old(fr)), i),
            env(*old(heap), *old(globals), *old(fr)),
            env(*final(heap), *final(globals), *final(fr)),
        ),
{
    let ghost h = *heap;
    let ghost g = *globals;
    match i {
        Instr::Const(k) => op_const(prog, heap, fr, k, Ghost(g)),
        Instr::Nil => {
            fr.push(Value::Nil);
            Move::Go
        },
        Instr::True => {
            fr.push(Value::Bool(true));
            Move::Go
        },
        Instr::False => {
            fr.push(Value::Bool(false));
            Move::Go
        },
        Instr::LoadLocal(n) => {
            if (n as usize) < fr.locals.len() {
                let v: Value = fr.locals[n as usize];
                fr.push(v);
                Move::Go
            } else {
                corrupt()
            }
        },
        Instr::StoreLocal(n) => op_store(fr, n, Ghost(h), Ghost(g)),
        Instr::LoadGlobal(k) => match text_of_const(prog, k) {
            Some(name) => {
                let v: Value = get_global(globals, name);
                fr.push(v);
                Move::Go
            },
            None => corrupt(),
        },
        Instr::StoreGlobal(k) => {
            if fr.stack.len() < 1 {
                return underflow();
            }
            match text_of_const(prog, k) {
                Some(name) => {
                    let v: Value = fr.peek(0);
                    globals.insert(name, v);
                    fr.drop_top(1);
                    Move::Go
                },
                None => corrupt(),
            }
        },
        Instr::MakeArray(n) => op_array(heap, fr, n as usize, Ghost(g)),
        Instr::MakeMap(n) => op_map(heap, fr, n, Ghost(g)),
        Instr::GetIndex => op_get_index(heap, fr, Ghost(g)),
        Instr::SetIndex => op_set_index(heap, fr, Ghost(g)),
        Instr::GetField(k) => op_get_field(prog, heap, fr, k, Ghost(g)),
        Instr::SetField(k) => op_set_field(prog, heap, fr, k, Ghost(g)),
        Instr::BinOp(op) => op_bin(heap, floats, fr, op, Ghost(g)),
        Instr::UnOp(op) => op_un(fr, op, Ghost(h), Ghost(g)),
        Instr::Jump(d) => {
            fr.pc = target(fr.pc, d);
            Move::Go
        },
        Instr::JumpIfFalse(d) => {
            if fr.stack.len() < 1 {
                return underflow();
            }
            let v: Value = fr.peek(0);
            fr.drop_top(1);
            if !v.truthy() {
                fr.pc = target(fr.pc, d);
            }
            Move::Go
        },
        Instr::Dup => {
            if fr.stack.len() < 1 {
                return underflow();
            }
            let v: Value = fr.peek(0);
            fr.push(v);
            Move::Go
        },
        Instr::Pop => {
            if fr.stack.len() < 1 {
                return underflow();
            }
            fr.drop_top(1);
            Move::Go
        },
        Instr::Call(n) => op_call(prog, floats, heap, fr, n, Ghost(g)),
        Instr::Closure(fi, n) => op_closure(heap, fr, fi, n, Ghost(g)),
        Instr::IterNew => op_iter_new(heap, fr, Ghost(g)),
        Instr::IterNext(d) => op_iter_next(heap, fr, d, Ghost(g)),
        Instr::Return => {
            if fr.stack.len() < 1 {
                return underflow();
            }
            Move::Leave(fr.peek(0))
        },
        Instr::At(k) => op_at(prog, fr, k, Ghost(h), Ghost(g)),
        Instr::Cast(k) => op_cast(prog, fr, k, Ghost(h), Ghost(g)),
        Instr::Spawn => op_spawn(heap, fr, Ghost(g)),
        Instr::Session => Move::Stop(Outcome::Host(HostCall::Session)),
        Instr::User => Move::Stop(Outcome::Host(HostCall::User)),
    }
}

/// A message with the place that it comes from.
fn blame(prog: &Program, fn_idx: usize, pc: usize, m: &str, fr: Ghost<FrameV>) -> (r: String)
    requires
        fr@.fn_idx == fn_idx,
        fr@.pc == pc,
    ensures
        r@ == blamed(prog@, fr@, m@),
{
    let mut r: String = String::new();
    if fn_idx < prog.fns.len() {
        assert(prog@.fns[fn_idx as int] == prog.fns@[fn_idx as int]@);
        r = prog.fns[fn_idx].name.clone();
    }
    let n: String = dec_u64(pc as u64);
    r.append(":");
    r.append(n.as_str());
    r.append(": ");
    r.append(m);
    r
}

impl Machine {
    /// Heap and globals can be used.
    pub open spec fn wf(&self) -> bool {
        self.globals.wf()
    }

    pub fn new() -> (r: Machine)
        ensures
            r.wf(),
            r@ == (StateV { h: Seq::empty(), g: Map::empty(), frames: Seq::empty() }),
    {
        let r = Machine { heap: Heap::new(), globals: NameMap::new(), frames: Vec::new() };
        assert(r@.frames =~= Seq::<FrameV>::empty());
        r
    }

    /// Gives `v` to the frame below the top one, which is left.
    fn leave(&mut self, v: Value) -> (r: Option<Outcome>)
        requires
            old(self).frames@.len() > 0,
            old(self).wf(),
        ensures
            final(self).wf(),
            (
                final(self)@,
                match r {
                    Some(o) => Some(o@),
                    None => None,
                },
            ) == leave(old(self)@, v),
    {
        let ghost before = self.frames@;
        let _ = self.frames.pop();
        assert(frames_v(self.frames@) =~= frames_v(before).drop_last());
        match self.frames.pop() {
            None => Some(Outcome::Done(v)),
            Some(mut fr) => {
                fr.push(v);
                self.frames.push(fr);
                assert(frames_v(self.frames@) =~= frames_v(
                    before,
                ).drop_last().drop_last().push(fr@));
                None
            },
        }
    }

    /// One step.
    pub fn step(&mut self, prog: &Program, floats: &FloatTable) -> (r: Option<Outcome>)
        requires
            old(self).wf(),
        ensures
            final(self).wf(),
            (
                final(self)@,
                match r {
                    Some(o) => Some(o@),
                    None => None,
                },
            ) == step(prog@, floats@, old(self)@),
    {
        let ghost before = self.frames@;
        let mut fr: Frame = match self.frames.pop() {
            None => {
                return Some(Outcome::Done(Value::Nil));
            },
            Some(fr) => fr,
        };
        let ghost top = fr@;
        proof {
            assert(frames_v(before).last() == top);
            assert(frames_v(self.frames@) =~= frames_v(before).drop_last());
            assert(frames_v(before).drop_last().push(top) =~= frames_v(before));
        }
        let fn_idx: usize = fr.fn_idx;
        let pc: usize = fr.pc;
        if fn_idx >= prog.fns.len() {
            let m: String = blame(prog, fn_idx, pc, "corrupt program", Ghost(top));
            self.frames.push(fr);
            assert(frames_v(self.frames@) =~= frames_v(before));
            return Some(Outcome::Error(m));
        }
        assert(prog@.fns[fn_idx as int] == prog.fns@[fn_idx as int]@);
        if pc >= prog.fns[fn_idx].code.len() {
            self.frames.push(fr);
            assert(frames_v(self.frames@) =~= frames_v(before));
            return self.leave(Value::Nil);
        }
        fr.pc = pc + 1;
        let i: Instr = prog.fns[fn_idx].code[pc];
        match execute(prog, floats, &mut self.heap, &mut self.globals, &mut fr, i) {
            Move::Go => {
                self.frames.push(fr);
                assert(frames_v(self.frames@) =~= frames_v(before).drop_last().push(fr@));
                None
            },
            Move::Enter(new) => {
                let ghost nv = new@;
                self.frames.push(fr);
                self.frames.push(new);
                assert(frames_v(self.frames@) =~= frames_v(before).drop_last().push(fr@).push(nv));
                None
            },
            Move::Leave(v) => {
                fr.pc = pc;
                self.frames.push(fr);
                assert(frames_v(self.frames@) =~= frames_v(before));
                self.leave(v)
            },
            Move::Stop(o) => {
                self.frames.push(fr);
                assert(frames_v(self.frames@) =~= frames_v(before).drop_last().push(fr@));
                Some(o)
            },
            Move::Fail(m) => {
                let w: String = blame(prog, fn_idx, pc, m.as_str(), Ghost(top));
                fr.pc = pc;
                self.frames.push(fr);
                assert(frames_v(self.frames@) =~= frames_v(before));
                Some(Outcome::Error(w))
            },
            Move::Need(q) => {
                fr.pc = pc;
                self.frames.push(fr);
                assert(frames_v(self.frames@) =~= frames_v(before));
                Some(Outcome::Need(q))
            },
        }
    }

    /// Runs until the machine stops, for `fuel` steps at most; gives the
    /// outcome and the steps that are left.
    pub fn run_for(&mut self, prog: &Program, floats: &FloatTable, fuel: u64) -> (r: (Outcome, u64))
        requires
            old(self).wf(),
        ensures
            final(self).wf(),
            (final(self)@, r.0@) == steps(prog@, floats@, old(self)@, fuel as nat),
            r.1 == steps_left(prog@, floats@, old(self)@, fuel as nat),
            r.1 <= fuel,
            r.1 == fuel ==> fuel == 0,
    {
        let mut left: u64 = fuel;
        while left > 0
            invariant
                self.wf(),
                left <= fuel,
                steps(prog@, floats@, old(self)@, fuel as nat) == steps(
                    prog@,
                    floats@,
                    self@,
                    left as nat,
                ),
                steps_left(prog@, floats@, old(self)@, fuel as nat) == steps_left(
                    prog@,
                    floats@,
                    self@,
                    left as nat,
                ),
            decreases left,
        {
            left = left - 1;
            match self.step(prog, floats) {
                Some(o) => {
                    return (o, left);
                },
                None => {},
            }
        }
        (Outcome::Error("step limit exceeded (infinite loop?)".to_owned()), 0)
    }

    /// Runs until the machine stops.
    pub fn run(&mut self, prog: &Program, floats: &FloatTable) -> (r: Outcome)
        requires
            old(self).wf(),
        ensures
            final(self).wf(),
            (final(self)@, r@) == steps(prog@, floats@, old(self)@, STEP_LIMIT as nat),
    {
        self.run_for(prog, floats, STEP_LIMIT).0
    }

    /// Gives `reply` to the top frame.
    pub fn reply(&mut self, reply: Value)
        requires
            old(self).wf(),
        ensures
            final(self).wf(),
            final(self)@ == replied(old(self)@, reply),
    {
        let ghost before = self.frames@;
        match self.frames.pop() {
            None => {
                assert(frames_v(self.frames@) =~= frames_v(before));
            },
            Some(mut fr) => {
                fr.push(reply);
                self.frames.push(fr);
                assert(frames_v(self.frames@) =~= frames_v(before).drop_last().push(fr@));
            },
        }
    }

    /// Resumes a suspended execution with a reply.
    pub fn resume(&mut self, prog: &Program, floats: &FloatTable, reply: Value) -> (r: Outcome)
        requires
            old(self).wf(),
        ensures
            final(self).wf(),
            (final(self)@, r@) == steps(
                prog@,
                floats@,
                replied(old(self)@, reply),
                STEP_LIMIT as nat,
            ),
    {
        self.reply(reply);
        self.run(prog, floats)
    }

    /// The message `m` of the host, with the place of the call that it answers.
    pub fn host_error(&self, prog: &Program, m: &str) -> (r: String)
        ensures
            r@ == host_blamed(prog@, self@, m@),
    {
        if self.frames.len() == 0 {
            return m.to_owned();
        }
        let fr = &self.frames[self.frames.len() - 1];
        assert(self@.frames.last() == fr@);
        let pc: usize = if fr.pc > 0 {
            fr.pc - 1
        } else {
            0
        };
        blame(prog, fr.fn_idx, pc, m, Ghost(FrameV { pc, ..fr@ }))
    }
}

/// `reply` is pushed on the top frame.
pub open spec fn replied(s: StateV, reply: Value) -> StateV {
    if s.frames.len() == 0 {
        s
    } else {
        StateV {
            frames: s.frames.drop_last().push(pushed(s.frames.last(), reply)),
            ..s
        }
    }
}

/// A message of the host names the instruction before the one that is next.
pub open spec fn host_blamed(p: ProgramV, s: StateV, m: Seq<char>) -> Seq<char> {
    if s.frames.len() == 0 {
        m
    } else {
        let fr = s.frames.last();
        let pc: usize = if fr.pc > 0 {
            (fr.pc - 1) as usize
        } else {
            0
        };
        blamed(p, FrameV { pc, ..fr }, m)
    }
}

/// The frame of a call of the closure `callee`.
pub open spec fn value_frame(p: ProgramV, h: Seq<CellV>, callee: Value, args: Seq<Value>) -> Result<
    FrameV,
    Seq<char>,
> {
    match callee {
        Value::Closure(c) => match closure_frame(p, h, c, args) {
            Some(fr) => Ok(fr),
            None => Err("corrupt program"@),
        },
        _ => Err("cannot call a "@ + kind_of(callee)),
    }
}

/// The frame of a call of the closure `callee`.
pub fn call_value(prog: &Program, heap: &Heap, callee: Value, args: &Vec<Value>) -> (r: Result<
    Frame,
    String,
>)
    ensures
        match (r, value_frame(prog@, heap@, callee, args@)) {
            (Ok(f), Ok(g)) => f@ == g,
            (Err(m), Err(w)) => m@ == w,
            _ => false,
        },
{
    match callee {
        Value::Closure(c) => match frame_of_closure(prog, heap, c, args) {
            Some(fr) => Ok(fr),
            None => Err("corrupt program".to_owned()),
        },
        _ => Err(cat2("cannot call a ", callee.kind())),
    }
}

/// The frame of a call of the function `fn_idx`.
pub open spec fn fn_frame(p: ProgramV, fn_idx: usize, args: Seq<Value>) -> Option<FrameV> {
    if (fn_idx as int) < p.fns.len() {
        new_frame(p.fns[fn_idx as int], fn_idx, Seq::empty(), args)
    } else {
        None
    }
}

/// The frame of a call of a plain function (a named one or a segment).
pub fn call(prog: &Program, fn_idx: usize, args: &Vec<Value>) -> (r: Option<Frame>)
    ensures
        match (r, fn_frame(prog@, fn_idx, args@)) {
            (Some(f), Some(g)) => f@ == g,
            (None, None) => true,
            _ => false,
        },
{
    if fn_idx < prog.fns.len() {
        assert(prog@.fns[fn_idx as int] == prog.fns@[fn_idx as int]@);
        let none: Vec<Value> = Vec::new();
        assert(none@ =~= Seq::<Value>::empty());
        make_frame(&prog.fns[fn_idx], fn_idx, &none, args)
    } else {
        None
    }
}

} // verus!
