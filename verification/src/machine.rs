//! What the instructions of the stack machine do, as functions on its state.

use crate::float::{computed, floored, of_int, parsed, FactV};
use crate::ir::{BinOp, ConstV, FunctionV, Instr, ProgramV, UnOp};
use crate::text::{dec, dec_int, int_text, trimmed};
use crate::value::{
    array_at, closure_at, coerced, compare, entry_del, entry_get, entry_put, field_of, float_key,
    is_nan, is_scalar, kind_of, map_at, negated, rel_int, rel_text, str_at, text_of, too_deep,
    truthy, AskV, CellV, LibId, NativeId, Rel, TryV, Value,
};
use vstd::prelude::*;
use vstd::utf8::encode_utf8;

verus! {

/// A call frame.
pub struct FrameV {
    pub fn_idx: usize,
    pub pc: usize,
    pub locals: Seq<Value>,
    pub stack: Seq<Value>,
}

/// What an instruction works on: the heap, the globals and the top frame.
pub struct Env {
    pub h: Seq<CellV>,
    pub g: Map<Seq<char>, Value>,
    pub fr: FrameV,
}

/// What only the host can do.
pub enum HostCallV {
    Print(Seq<char>),
    Cast { target: Value, hop: Seq<char>, vars: Value },
    Spawn { callee: Value, args: Seq<Value> },
    Session,
    User,
    Native(NativeId, Seq<Value>),
    Lib(LibId, Seq<Value>),
}

/// Why the machine stopped.
pub enum OutcomeV {
    Done(Value),
    Suspend { target: Value, hop: Seq<char>, vars: Value },
    Host(HostCallV),
    Need(AskV),
    Error(Seq<char>),
}

/// What an instruction does: go on, enter a function, leave the frame with a
/// value, stop, fail, or want a fact about floats.
pub enum Act {
    Go(Env),
    Enter(Env, FrameV),
    Leave(Value),
    Stop(Env, OutcomeV),
    Fail(Seq<char>),
    Need(AskV),
}

pub open spec fn underflow() -> Act {
    Act::Fail("stack underflow"@)
}

pub open spec fn corrupt() -> Act {
    Act::Fail("corrupt program"@)
}

/// The value `k` below the top of the stack.
pub open spec fn peek(fr: FrameV, k: int) -> Value {
    fr.stack[fr.stack.len() - 1 - k]
}

/// The frame without its top `n` values.
pub open spec fn dropped(fr: FrameV, n: int) -> FrameV {
    FrameV { stack: fr.stack.take(fr.stack.len() - n), ..fr }
}

pub open spec fn pushed(fr: FrameV, v: Value) -> FrameV {
    FrameV { stack: fr.stack.push(v), ..fr }
}

/// How many values the top `n` are, where the stack may hold fewer.
pub open spec fn up_to(fr: FrameV, n: int) -> int {
    if n <= fr.stack.len() {
        n
    } else {
        fr.stack.len() as int
    }
}

/// The top `n` values in push order, or all where there are fewer.
pub open spec fn tail(fr: FrameV, n: int) -> Seq<Value> {
    fr.stack.skip(fr.stack.len() - up_to(fr, n))
}

/// `v` is pushed.
pub open spec fn give(e: Env, v: Value) -> Act {
    Act::Go(Env { fr: pushed(e.fr, v), ..e })
}

/// A new cell is made, and `v` pushed.
pub open spec fn give_new(e: Env, c: CellV, v: Value) -> Act {
    Act::Go(Env { h: e.h.push(c), fr: pushed(e.fr, v), ..e })
}

/// The index of the next cell.
pub open spec fn next_cell(h: Seq<CellV>) -> usize {
    h.len() as usize
}

/// The text constant `k`.
pub open spec fn text_const(p: ProgramV, k: u32) -> Option<Seq<char>> {
    if (k as int) < p.consts.len() {
        match p.consts[k as int] {
            ConstV::Str(s) => Some(s),
            _ => None,
        }
    } else {
        None
    }
}

/// Cell `i` holds `c`.
pub open spec fn with_cell(h: Seq<CellV>, i: usize, c: CellV) -> Seq<CellV> {
    if (i as int) < h.len() {
        h.update(i as int, c)
    } else {
        h
    }
}

pub open spec fn do_const(p: ProgramV, e: Env, k: u32) -> Act {
    if (k as int) < p.consts.len() {
        match p.consts[k as int] {
            ConstV::Str(s) => give_new(e, CellV::Str(s), Value::Str(next_cell(e.h))),
            ConstV::Int(i) => give(e, Value::Int(i)),
            ConstV::Float(b) => give(e, Value::Float(b)),
        }
    } else {
        corrupt()
    }
}

pub open spec fn do_load(e: Env, i: u16) -> Act {
    if (i as int) < e.fr.locals.len() {
        give(e, e.fr.locals[i as int])
    } else {
        corrupt()
    }
}

pub open spec fn do_store(e: Env, i: u16) -> Act {
    if e.fr.stack.len() < 1 {
        underflow()
    } else if (i as int) < e.fr.locals.len() {
        Act::Go(
            Env {
                fr: FrameV {
                    locals: e.fr.locals.update(i as int, peek(e.fr, 0)),
                    ..dropped(e.fr, 1)
                },
                ..e
            },
        )
    } else {
        corrupt()
    }
}

/// The global `name`; nil where there is none.
pub open spec fn global(g: Map<Seq<char>, Value>, name: Seq<char>) -> Value {
    if g.contains_key(name) {
        g[name]
    } else {
        Value::Nil
    }
}

pub open spec fn do_load_global(p: ProgramV, e: Env, k: u32) -> Act {
    match text_const(p, k) {
        Some(name) => give(e, global(e.g, name)),
        None => corrupt(),
    }
}

pub open spec fn do_store_global(p: ProgramV, e: Env, k: u32) -> Act {
    if e.fr.stack.len() < 1 {
        underflow()
    } else {
        match text_const(p, k) {
            Some(name) => Act::Go(
                Env { g: e.g.insert(name, peek(e.fr, 0)), fr: dropped(e.fr, 1), ..e },
            ),
            None => corrupt(),
        }
    }
}

pub open spec fn do_array(e: Env, n: int) -> Act {
    let items = tail(e.fr, n);
    give_new(
        Env { fr: dropped(e.fr, up_to(e.fr, n)), ..e },
        CellV::Array(items),
        Value::Array(next_cell(e.h)),
    )
}

/// The map of the first `n` of the pairs in `flat`; nil values are left out.
pub open spec fn map_of(h: Seq<CellV>, flat: Seq<Value>, n: int) -> Result<
    Seq<(Value, Value)>,
    Seq<char>,
>
    decreases n,
{
    if n <= 0 {
        Ok(Seq::empty())
    } else {
        match map_of(h, flat, n - 1) {
            Err(m) => Err(m),
            Ok(m) => {
                let k = flat[2 * n - 2];
                let v = flat[2 * n - 1];
                if !is_scalar(h, k) {
                    Err("map key must be scalar, got "@ + kind_of(k))
                } else if v is Nil {
                    Ok(m)
                } else {
                    Ok(entry_put(h, m, k, v))
                }
            },
        }
    }
}

pub open spec fn do_map(e: Env, n: int) -> Act {
    let flat = tail(e.fr, 2 * n);
    if flat.len() % 2 != 0 {
        corrupt()
    } else {
        match map_of(e.h, flat, flat.len() as int / 2) {
            Err(m) => Act::Fail(m),
            Ok(m) => give_new(
                Env { fr: dropped(e.fr, up_to(e.fr, 2 * n)), ..e },
                CellV::Dict(m),
                Value::Dict(next_cell(e.h)),
            ),
        }
    }
}

/// What `obj` has for `key`.
pub open spec fn indexed(h: Seq<CellV>, obj: Value, key: Value) -> Result<Value, Seq<char>> {
    match (obj, key) {
        (Value::Array(a), Value::Int(i)) => if 0 <= i < array_at(h, a).len() {
            Ok(array_at(h, a)[i as int])
        } else {
            Ok(Value::Nil)
        },
        (Value::Dict(m), _) => if is_scalar(h, key) {
            Ok(entry_get(h, map_at(h, m), key))
        } else {
            Err("cannot index "@ + kind_of(obj) + " with "@ + kind_of(key))
        },
        (Value::Nil, _) => Err("indexing nil"@),
        _ => Err("cannot index "@ + kind_of(obj) + " with "@ + kind_of(key)),
    }
}

pub open spec fn do_get_index(e: Env) -> Act {
    if e.fr.stack.len() < 2 {
        underflow()
    } else {
        match indexed(e.h, peek(e.fr, 1), peek(e.fr, 0)) {
            Ok(v) => give(Env { fr: dropped(e.fr, 2), ..e }, v),
            Err(m) => Act::Fail(m),
        }
    }
}

/// The heap once `obj` has `v` for `key`.
pub open spec fn assigned(h: Seq<CellV>, obj: Value, key: Value, v: Value) -> Result<
    Seq<CellV>,
    Seq<char>,
> {
    match (obj, key) {
        (Value::Array(a), Value::Int(i)) => {
            let xs = array_at(h, a);
            if i < 0 || i > xs.len() {
                Err(
                    "array index "@ + dec_int(i as int) + " out of range 0..="@ + dec(xs.len()),
                )
            } else if i == xs.len() {
                Ok(with_cell(h, a, CellV::Array(xs.push(v))))
            } else {
                Ok(with_cell(h, a, CellV::Array(xs.update(i as int, v))))
            }
        },
        (Value::Dict(m), _) => if is_scalar(h, key) {
            if v is Nil {
                Ok(with_cell(h, m, CellV::Dict(entry_del(h, map_at(h, m), key))))
            } else {
                Ok(with_cell(h, m, CellV::Dict(entry_put(h, map_at(h, m), key, v))))
            }
        } else {
            Err("cannot index-assign "@ + kind_of(obj) + " with "@ + kind_of(key))
        },
        _ => Err("cannot index-assign "@ + kind_of(obj) + " with "@ + kind_of(key)),
    }
}

pub open spec fn do_set_index(e: Env) -> Act {
    if e.fr.stack.len() < 3 {
        underflow()
    } else {
        match assigned(e.h, peek(e.fr, 2), peek(e.fr, 1), peek(e.fr, 0)) {
            Ok(h) => Act::Go(Env { h, fr: dropped(e.fr, 3), ..e }),
            Err(m) => Act::Fail(m),
        }
    }
}

/// A map of one text entry, in three new cells.
pub open spec fn one_entry(h: Seq<CellV>, k: Seq<char>, v: Seq<char>) -> (Seq<CellV>, Value) {
    let a = h.push(CellV::Str(k));
    let b = a.push(CellV::Str(v));
    (
        b.push(CellV::Dict(seq![(Value::Str(next_cell(h)), Value::Str(next_cell(a)))])),
        Value::Dict(next_cell(b)),
    )
}

/// The store module: what stands behind the fields of the callable `store`.
pub open spec fn store_field(h: Seq<CellV>, name: Seq<char>) -> Option<(Seq<CellV>, Value)> {
    if name == "leaf"@ || name == "sum"@ {
        Some(one_entry(h, "k"@, name))
    } else if name == "map"@ {
        Some((h, Value::Native(NativeId::ShapeMap)))
    } else if name == "list"@ {
        Some((h, Value::Native(NativeId::ShapeList)))
    } else if name == "deque"@ {
        Some((h, Value::Native(NativeId::ShapeDeque)))
    } else if name == "record"@ {
        Some((h, Value::Native(NativeId::ShapeRecord)))
    } else if name == "append"@ {
        Some((h, Value::Native(NativeId::StoreAppend)))
    } else if name == "items"@ {
        Some((h, Value::Native(NativeId::StoreItems)))
    } else if name == "verify"@ {
        Some((h, Value::Native(NativeId::StoreVerify)))
    } else if name == "all"@ || name == "keys"@ || name == "vals"@ || name == "first"@ || name
        == "last"@ || name == "entries"@ {
        let a = h.push(CellV::Str(name));
        Some(
            (
                a.push(CellV::Tagged("nav"@, Value::Str(next_cell(h)))),
                Value::Tagged(next_cell(a)),
            ),
        )
    } else if name == "where"@ {
        Some((h, Value::Native(NativeId::NavWhere)))
    } else if name == "slice"@ {
        Some((h, Value::Native(NativeId::NavSlice)))
    } else if name == "set"@ {
        Some((h, Value::Native(NativeId::NavSet)))
    } else if name == "add"@ {
        Some((h, Value::Native(NativeId::NavAdd)))
    } else if name == "push"@ {
        Some((h, Value::Native(NativeId::NavPush)))
    } else if name == "del"@ {
        Some(tagged_list(h.push(CellV::Str("del"@)), "term"@, seq![Value::Str(next_cell(h))]))
    } else {
        None
    }
}

/// A tagged array, in two new cells.
pub open spec fn tagged_list(h: Seq<CellV>, tag: Seq<char>, items: Seq<Value>) -> (
    Seq<CellV>,
    Value,
) {
    let a = h.push(CellV::Array(items));
    (a.push(CellV::Tagged(tag, Value::Array(next_cell(h)))), Value::Tagged(next_cell(a)))
}

pub open spec fn do_get_field(p: ProgramV, e: Env, k: u32) -> Act {
    if e.fr.stack.len() < 1 {
        underflow()
    } else {
        match text_const(p, k) {
            None => corrupt(),
            Some(name) => {
                let obj = peek(e.fr, 0);
                let rest = dropped(e.fr, 1);
                match obj {
                    Value::Dict(_) => give(Env { fr: rest, ..e }, field_of(e.h, obj, name)),
                    Value::Native(NativeId::StoreCall) => match store_field(e.h, name) {
                        Some((h, v)) => give(Env { h, fr: rest, ..e }, v),
                        None => Act::Fail("store has no field ."@ + name),
                    },
                    _ => Act::Fail("field ."@ + name + " of "@ + kind_of(obj)),
                }
            },
        }
    }
}

/// The heap once the field `name` of `obj` is `v`.
pub open spec fn field_set(h: Seq<CellV>, obj: Value, name: Seq<char>, v: Value) -> Result<
    Seq<CellV>,
    Seq<char>,
> {
    match obj {
        Value::Dict(m) => {
            let a = h.push(CellV::Str(name));
            let key = Value::Str(next_cell(h));
            if v is Nil {
                Ok(with_cell(a, m, CellV::Dict(entry_del(a, map_at(h, m), key))))
            } else {
                Ok(with_cell(a, m, CellV::Dict(entry_put(a, map_at(h, m), key, v))))
            }
        },
        _ => Err("cannot set field on "@ + kind_of(obj)),
    }
}

pub open spec fn do_set_field(p: ProgramV, e: Env, k: u32) -> Act {
    if e.fr.stack.len() < 2 {
        underflow()
    } else {
        match text_const(p, k) {
            None => corrupt(),
            Some(name) => match field_set(e.h, peek(e.fr, 1), name, peek(e.fr, 0)) {
                Ok(h) => Act::Go(Env { h, fr: dropped(e.fr, 2), ..e }),
                Err(m) => Act::Fail(m),
            },
        }
    }
}

/// What an operator gives: a value, or a new text.
pub enum Got {
    Val(Value),
    Text(Seq<char>),
}

/// `v` as a float.
pub open spec fn num(f: Seq<FactV>, v: Value) -> TryV<Option<u64>> {
    match v {
        Value::Int(i) => match of_int(f, i as i128) {
            Some(b) => TryV::Done(Some(b)),
            None => TryV::Need(AskV::OfInt(i as i128)),
        },
        Value::Float(b) => TryV::Done(Some(b)),
        _ => TryV::Done(None),
    }
}

/// Both values as floats, if both are numbers.
pub open spec fn nums(f: Seq<FactV>, a: Value, b: Value) -> TryV<Option<(u64, u64)>> {
    if !((a is Int || a is Float) && (b is Int || b is Float)) {
        TryV::Done(None)
    } else {
        match num(f, a) {
            TryV::Done(Some(x)) => match num(f, b) {
                TryV::Done(Some(y)) => TryV::Done(Some((x, y))),
                TryV::Done(None) => TryV::Done(None),
                TryV::Fail(m) => TryV::Fail(m),
                TryV::Need(q) => TryV::Need(q),
            },
            TryV::Done(None) => TryV::Done(None),
            TryV::Fail(m) => TryV::Fail(m),
            TryV::Need(q) => TryV::Need(q),
        }
    }
}

/// The name of an arithmetic operator.
pub open spec fn op_name(op: BinOp) -> Seq<char> {
    match op {
        BinOp::Add => "Add"@,
        BinOp::Sub => "Sub"@,
        _ => "Mul"@,
    }
}

/// `op` on two floats; NaN is not a value.
pub open spec fn float_op(f: Seq<FactV>, op: BinOp, x: u64, y: u64) -> TryV<Got> {
    match computed(f, op, x, y) {
        None => TryV::Need(AskV::Arith(op, x, y)),
        Some(r) => if is_nan(r) {
            TryV::Fail("NaN is not a value"@)
        } else {
            TryV::Done(Got::Val(Value::Float(r)))
        },
    }
}

/// `op` on two numbers as floats, or the message where one is no number.
pub open spec fn on_floats(f: Seq<FactV>, op: BinOp, a: Value, b: Value, m: Seq<char>) -> TryV<Got> {
    match nums(f, a, b) {
        TryV::Done(Some((x, y))) => float_op(f, op, x, y),
        TryV::Done(None) => TryV::Fail(m),
        TryV::Fail(w) => TryV::Fail(w),
        TryV::Need(q) => TryV::Need(q),
    }
}

/// Addition, subtraction and multiplication: checked on integers.
pub open spec fn arith(f: Seq<FactV>, op: BinOp, a: Value, b: Value) -> TryV<Got> {
    match (a, b) {
        (Value::Int(x), Value::Int(y)) => {
            let r = match op {
                BinOp::Add => x + y,
                BinOp::Sub => x - y,
                _ => x * y,
            };
            if i64::MIN <= r <= i64::MAX {
                TryV::Done(Got::Val(Value::Int(r as i64)))
            } else {
                TryV::Fail("integer overflow"@)
            }
        },
        _ => on_floats(
            f,
            op,
            a,
            b,
            "cannot "@ + op_name(op) + " "@ + kind_of(a) + " and "@ + kind_of(b),
        ),
    }
}

/// How `a` stands to `b` where `<` and its like apply to them.
pub open spec fn ordered(h: Seq<CellV>, f: Seq<FactV>, a: Value, b: Value) -> TryV<Rel> {
    match (a, b) {
        (Value::Int(x), Value::Int(y)) => TryV::Done(rel_int(x as int, y as int)),
        (Value::Str(x), Value::Str(y)) => TryV::Done(rel_text(str_at(h, x), str_at(h, y))),
        _ => match nums(f, a, b) {
            TryV::Done(Some((x, y))) => if is_nan(x) || is_nan(y) {
                TryV::Fail("incomparable values"@)
            } else {
                TryV::Done(rel_int(float_key(x), float_key(y)))
            },
            TryV::Done(None) => TryV::Fail(
                "cannot compare "@ + kind_of(a) + " and "@ + kind_of(b),
            ),
            TryV::Fail(m) => TryV::Fail(m),
            TryV::Need(q) => TryV::Need(q),
        },
    }
}

/// The relation `r` is what `op` tests.
pub open spec fn holds(op: BinOp, r: Rel) -> bool {
    match op {
        BinOp::Lt => r == Rel::Less,
        BinOp::Le => r != Rel::Greater,
        BinOp::Gt => r == Rel::Greater,
        _ => r != Rel::Less,
    }
}

/// `v` can stand beside `..`.
pub open spec fn concats(v: Value) -> bool {
    v is Str || v is Int || v is Float
}

/// What `op` gives for `a` and `b`.
pub open spec fn bin_op(h: Seq<CellV>, f: Seq<FactV>, op: BinOp, a: Value, b: Value) -> TryV<Got> {
    match op {
        BinOp::Add => arith(f, op, a, b),
        BinOp::Sub => arith(f, op, a, b),
        BinOp::Mul => arith(f, op, a, b),
        BinOp::Div => on_floats(
            f,
            op,
            a,
            b,
            "cannot divide "@ + kind_of(a) + " by "@ + kind_of(b),
        ),
        BinOp::Mod => match (a, b) {
            (Value::Int(x), Value::Int(y)) => if y == 0 {
                TryV::Fail("mod by zero"@)
            } else {
                let m = if y < 0 { -y } else { y as int };
                TryV::Done(Got::Val(Value::Int((x as int % m) as i64)))
            },
            _ => on_floats(
                f,
                op,
                a,
                b,
                "cannot mod "@ + kind_of(a) + " by "@ + kind_of(b),
            ),
        },
        BinOp::Concat => if concats(a) && concats(b) {
            match coerced(h, f, a) {
                TryV::Done(x) => match coerced(h, f, b) {
                    TryV::Done(y) => TryV::Done(Got::Text(x + y)),
                    TryV::Fail(m) => TryV::Fail(m),
                    TryV::Need(q) => TryV::Need(q),
                },
                TryV::Fail(m) => TryV::Fail(m),
                TryV::Need(q) => TryV::Need(q),
            }
        } else {
            TryV::Fail("cannot concat "@ + kind_of(a) + " and "@ + kind_of(b))
        },
        BinOp::Eq => match compare(h, h.len(), a, b) {
            Some(r) => TryV::Done(Got::Val(Value::Bool(r == Rel::Equal))),
            None => TryV::Fail(too_deep()),
        },
        BinOp::Ne => match compare(h, h.len(), a, b) {
            Some(r) => TryV::Done(Got::Val(Value::Bool(r != Rel::Equal))),
            None => TryV::Fail(too_deep()),
        },
        _ => match ordered(h, f, a, b) {
            TryV::Done(r) => TryV::Done(Got::Val(Value::Bool(holds(op, r)))),
            TryV::Fail(m) => TryV::Fail(m),
            TryV::Need(q) => TryV::Need(q),
        },
    }
}

pub open spec fn do_bin(f: Seq<FactV>, e: Env, op: BinOp) -> Act {
    if e.fr.stack.len() < 2 {
        underflow()
    } else {
        match bin_op(e.h, f, op, peek(e.fr, 1), peek(e.fr, 0)) {
            TryV::Done(Got::Val(v)) => give(Env { fr: dropped(e.fr, 2), ..e }, v),
            TryV::Done(Got::Text(s)) => give_new(
                Env { fr: dropped(e.fr, 2), ..e },
                CellV::Str(s),
                Value::Str(next_cell(e.h)),
            ),
            TryV::Fail(m) => Act::Fail(m),
            TryV::Need(q) => Act::Need(q),
        }
    }
}

/// What `op` gives for `a`.
pub open spec fn un_op(op: UnOp, a: Value) -> Result<Value, Seq<char>> {
    match op {
        UnOp::Not => Ok(Value::Bool(!truthy(a))),
        UnOp::Neg => match a {
            Value::Int(i) => if i == i64::MIN {
                Err("integer overflow"@)
            } else {
                Ok(Value::Int((-i) as i64))
            },
            Value::Float(b) => Ok(Value::Float(negated(b))),
            _ => Err("cannot negate "@ + kind_of(a)),
        },
    }
}

pub open spec fn do_un(e: Env, op: UnOp) -> Act {
    if e.fr.stack.len() < 1 {
        underflow()
    } else {
        match un_op(op, peek(e.fr, 0)) {
            Ok(v) => give(Env { fr: dropped(e.fr, 1), ..e }, v),
            Err(m) => Act::Fail(m),
        }
    }
}

/// Where a jump by `d` from `pc` leads; before the start is past the end.
pub open spec fn jumped(pc: usize, d: i32) -> usize {
    if 0 <= pc + d <= usize::MAX {
        (pc + d) as usize
    } else {
        usize::MAX
    }
}

pub open spec fn jump(e: Env, d: i32) -> Act {
    Act::Go(Env { fr: FrameV { pc: jumped(e.fr.pc, d), ..e.fr }, ..e })
}

pub open spec fn do_jump_if_false(e: Env, d: i32) -> Act {
    if e.fr.stack.len() < 1 {
        underflow()
    } else {
        let rest = Env { fr: dropped(e.fr, 1), ..e };
        if truthy(peek(e.fr, 0)) {
            Act::Go(rest)
        } else {
            jump(rest, d)
        }
    }
}

/// How many arguments a call of `n` arguments passes on: further ones are
/// dropped.
pub open spec fn passed(f: FunctionV, n: nat) -> int {
    if n < f.n_params {
        n as int
    } else {
        f.n_params as int
    }
}

/// The frame of a call: captures first, then the parameters. Missing arguments
/// are nil, further ones are dropped. There is none where what is passed does
/// not fit in the locals.
pub open spec fn new_frame(
    f: FunctionV,
    fn_idx: usize,
    caps: Seq<Value>,
    args: Seq<Value>,
) -> Option<FrameV> {
    let n = passed(f, args.len());
    if caps.len() > f.n_locals || (n > 0 && f.n_caps + n > f.n_locals) {
        None
    } else {
        Some(
            FrameV {
                fn_idx,
                pc: 0,
                locals: Seq::new(
                    f.n_locals as nat,
                    |i: int|
                        if f.n_caps <= i < f.n_caps + n {
                            args[i - f.n_caps]
                        } else if i < caps.len() {
                            caps[i]
                        } else {
                            Value::Nil
                        },
                ),
                stack: Seq::empty(),
            },
        )
    }
}

/// The frame of a call of the closure in cell `c`.
pub open spec fn closure_frame(p: ProgramV, h: Seq<CellV>, c: usize, args: Seq<Value>) -> Option<
    FrameV,
> {
    match closure_at(h, c) {
        None => None,
        Some((fi, caps)) => if (fi as int) < p.fns.len() {
            new_frame(p.fns[fi as int], fi, caps, args)
        } else {
            None
        },
    }
}

/// What a native gives: a value on a new heap, or a call to the host.
pub enum Nat {
    Val(Seq<CellV>, Value),
    Host(HostCallV),
}

/// The argument `i`; nil where it is missing.
pub open spec fn arg(args: Seq<Value>, i: int) -> Value {
    if i < args.len() {
        args[i]
    } else {
        Value::Nil
    }
}

/// The texts of the first `n` arguments with blanks between them.
pub open spec fn line_of(h: Seq<CellV>, f: Seq<FactV>, args: Seq<Value>, n: int) -> TryV<Seq<char>>
    decreases n,
{
    if n <= 0 || n > args.len() {
        TryV::Done(Seq::empty())
    } else {
        match line_of(h, f, args, n - 1) {
            TryV::Done(s) => match coerced(h, f, args[n - 1]) {
                TryV::Done(t) => TryV::Done(
                    if n == 1 {
                        s + t
                    } else {
                        s + " "@ + t
                    },
                ),
                other => other,
            },
            other => other,
        }
    }
}

pub open spec fn new_text(h: Seq<CellV>, s: Seq<char>) -> Nat {
    Nat::Val(h.push(CellV::Str(s)), Value::Str(next_cell(h)))
}

/// The number that a text writes; nil where it writes none.
pub open spec fn number_in(f: Seq<FactV>, s: Seq<char>) -> TryV<Value> {
    match int_text(s) {
        Some(i) => TryV::Done(Value::Int(i)),
        None => match parsed(f, s) {
            None => TryV::Need(AskV::Parse(s)),
            Some(Some(b)) => TryV::Done(
                if is_nan(b) {
                    Value::Nil
                } else {
                    Value::Float(b)
                },
            ),
            Some(None) => TryV::Done(Value::Nil),
        },
    }
}

/// The texts of the first `n` sort keys.
pub open spec fn sort_keys(h: Seq<CellV>, ks: Seq<Value>, n: int) -> Option<Seq<Seq<char>>>
    decreases n,
{
    if n <= 0 || n > ks.len() {
        Some(Seq::empty())
    } else {
        match sort_keys(h, ks, n - 1) {
            None => None,
            Some(s) => match text_of(h, ks[n - 1]) {
                Some(t) => Some(s.push(t)),
                None => None,
            },
        }
    }
}

/// How `x` stands to `y` by the fields `keys` from `i` on; the first field that
/// differs decides.
pub open spec fn rel_by(h: Seq<CellV>, keys: Seq<Seq<char>>, x: Value, y: Value, i: int) -> Option<
    Rel,
>
    decreases keys.len() - i,
{
    if i < 0 || i >= keys.len() {
        Some(Rel::Equal)
    } else {
        match compare(h, h.len(), field_of(h, x, keys[i]), field_of(h, y, keys[i])) {
            Some(Rel::Equal) => rel_by(h, keys, x, y, i + 1),
            other => other,
        }
    }
}

/// How `x` stands to `y` in a sort by `keys`, or in the order of values where
/// there are none.
pub open spec fn sort_rel(h: Seq<CellV>, keys: Seq<Seq<char>>, x: Value, y: Value) -> Option<Rel> {
    if keys.len() == 0 {
        compare(h, h.len(), x, y)
    } else {
        rel_by(h, keys, x, y, 0)
    }
}

/// Where `x` goes among the first `n` of `xs`, which are sorted: behind the
/// last that is not above it.
pub open spec fn sort_place(h: Seq<CellV>, keys: Seq<Seq<char>>, xs: Seq<Value>, x: Value, n: int) -> Option<
    int,
>
    decreases n,
{
    if n <= 0 || n > xs.len() {
        Some(0)
    } else {
        match sort_rel(h, keys, xs[n - 1], x) {
            None => None,
            Some(Rel::Greater) => sort_place(h, keys, xs, x, n - 1),
            Some(_) => Some(n),
        }
    }
}

/// The first `n` of `xs`, sorted; equal items keep their order.
pub open spec fn sorted(h: Seq<CellV>, keys: Seq<Seq<char>>, xs: Seq<Value>, n: int) -> Option<
    Seq<Value>,
>
    decreases n,
{
    if n <= 0 || n > xs.len() {
        Some(Seq::empty())
    } else {
        match sorted(h, keys, xs, n - 1) {
            None => None,
            Some(s) => match sort_place(h, keys, s, xs[n - 1], s.len() as int) {
                None => None,
                Some(at) => Some(s.insert(at, xs[n - 1])),
            },
        }
    }
}

/// A schema shape: its kind, and what it is of.
pub open spec fn shape(h: Seq<CellV>, k: Seq<char>, of: Value) -> Nat {
    let a = h.push(CellV::Str("k"@));
    let b = a.push(CellV::Str(k));
    let kind = (Value::Str(next_cell(h)), Value::Str(next_cell(a)));
    if of is Nil {
        Nat::Val(b.push(CellV::Dict(seq![kind])), Value::Dict(next_cell(b)))
    } else {
        let c = b.push(CellV::Str("of"@));
        Nat::Val(
            c.push(CellV::Dict(seq![kind, (Value::Str(next_cell(b)), of)])),
            Value::Dict(next_cell(c)),
        )
    }
}

/// The schema shape of a record.
pub open spec fn record_shape(h: Seq<CellV>, fields: Value) -> Nat {
    let a = h.push(CellV::Str("fields"@));
    let b = a.push(CellV::Str("k"@));
    let c = b.push(CellV::Str("record"@));
    Nat::Val(
        c.push(
            CellV::Dict(
                seq![
                    (Value::Str(next_cell(h)), fields),
                    (Value::Str(next_cell(a)), Value::Str(next_cell(b))),
                ],
            ),
        ),
        Value::Dict(next_cell(c)),
    )
}

/// A navigator or a terminal: a tagged list that begins with `name`.
pub open spec fn named_list(h: Seq<CellV>, tag: Seq<char>, name: Seq<char>, rest: Seq<Value>) -> Nat {
    let (g, v) = tagged_list(
        h.push(CellV::Str(name)),
        tag,
        seq![Value::Str(next_cell(h))] + rest,
    );
    Nat::Val(g, v)
}

/// `store.where(field)`, `store.where(field, v)` or `store.where(field, op, v)`.
pub open spec fn nav_where(h: Seq<CellV>, args: Seq<Value>) -> Nat {
    if args.len() < 2 {
        named_list(h, "nav"@, "where"@, seq![arg(args, 0)])
    } else if args.len() < 3 {
        let a = h.push(CellV::Str("where"@));
        let b = a.push(CellV::Str("=="@));
        let (g, v) = tagged_list(
            b,
            "nav"@,
            seq![
                Value::Str(next_cell(h)),
                args[0],
                Value::Str(next_cell(a)),
                args[1],
            ],
        );
        Nat::Val(g, v)
    } else {
        named_list(h, "nav"@, "where"@, seq![args[0], args[1], args[2]])
    }
}

/// The length of `v` as `len` gives it.
pub open spec fn len_of(h: Seq<CellV>, v: Value) -> Result<Value, Seq<char>> {
    match v {
        Value::Array(a) => Ok(Value::Int(array_at(h, a).len() as i64)),
        Value::Dict(m) => Ok(Value::Int(map_at(h, m).len() as i64)),
        Value::Str(s) => Ok(Value::Int(encode_utf8(str_at(h, s)).len() as i64)),
        Value::Nil => Ok(Value::Int(0)),
        _ => Err("len of "@ + kind_of(v)),
    }
}

/// What the native `id` does with `args`.
pub open spec fn call_native(h: Seq<CellV>, f: Seq<FactV>, id: NativeId, args: Seq<Value>) -> TryV<
    Nat,
> {
    match id {
        NativeId::Print => match line_of(h, f, args, args.len() as int) {
            TryV::Done(s) => TryV::Done(Nat::Host(HostCallV::Print(s))),
            TryV::Fail(m) => TryV::Fail(m),
            TryV::Need(q) => TryV::Need(q),
        },
        NativeId::Error => match coerced(h, f, arg(args, 0)) {
            TryV::Done(s) => TryV::Fail(s),
            TryV::Fail(m) => TryV::Fail(m),
            TryV::Need(q) => TryV::Need(q),
        },
        NativeId::Tostring => match coerced(h, f, arg(args, 0)) {
            TryV::Done(s) => TryV::Done(new_text(h, s)),
            TryV::Fail(m) => TryV::Fail(m),
            TryV::Need(q) => TryV::Need(q),
        },
        NativeId::Tonumber => match arg(args, 0) {
            Value::Int(i) => TryV::Done(Nat::Val(h, Value::Int(i))),
            Value::Float(b) => TryV::Done(Nat::Val(h, Value::Float(b))),
            Value::Str(s) => match number_in(f, trimmed(str_at(h, s))) {
                TryV::Done(v) => TryV::Done(Nat::Val(h, v)),
                TryV::Fail(m) => TryV::Fail(m),
                TryV::Need(q) => TryV::Need(q),
            },
            _ => TryV::Done(Nat::Val(h, Value::Nil)),
        },
        NativeId::Push => if args.len() < 2 {
            TryV::Fail("push(array, value)"@)
        } else {
            match args[0] {
                Value::Array(a) => TryV::Done(
                    Nat::Val(
                        with_cell(h, a, CellV::Array(array_at(h, a).push(args.last()))),
                        Value::Nil,
                    ),
                ),
                _ => TryV::Fail("push into "@ + kind_of(args[0])),
            }
        },
        NativeId::Len => match len_of(h, arg(args, 0)) {
            Ok(v) => TryV::Done(Nat::Val(h, v)),
            Err(m) => TryV::Fail(m),
        },
        NativeId::SortBy => {
            let keys = match arg(args, 1) {
                Value::Array(ks) => sort_keys(h, array_at(h, ks), array_at(h, ks).len() as int),
                _ => Some(Seq::empty()),
            };
            match keys {
                None => TryV::Fail("sort_by keys must be strings"@),
                Some(keys) => match arg(args, 0) {
                    Value::Array(a) => match sorted(
                        h,
                        keys,
                        array_at(h, a),
                        array_at(h, a).len() as int,
                    ) {
                        Some(s) => TryV::Done(
                            Nat::Val(with_cell(h, a, CellV::Array(s)), Value::Nil),
                        ),
                        None => TryV::Fail(too_deep()),
                    },
                    _ => TryV::Fail("sort_by expects an array"@),
                },
            }
        },
        NativeId::Floor => match arg(args, 0) {
            Value::Int(i) => TryV::Done(Nat::Val(h, Value::Int(i))),
            Value::Float(b) => match floored(f, b) {
                Some(i) => TryV::Done(Nat::Val(h, Value::Int(i))),
                None => TryV::Need(AskV::Floor(b)),
            },
            _ => TryV::Fail("floor expects a number"@),
        },
        NativeId::TypeOf => TryV::Done(new_text(h, kind_of(arg(args, 0)))),
        NativeId::ShapeMap => TryV::Done(shape(h, "map"@, arg(args, 0))),
        NativeId::ShapeList => TryV::Done(shape(h, "list"@, arg(args, 0))),
        NativeId::ShapeDeque => TryV::Done(shape(h, "deque"@, arg(args, 0))),
        NativeId::ShapeRecord => TryV::Done(record_shape(h, arg(args, 0))),
        NativeId::NavWhere => TryV::Done(nav_where(h, args)),
        NativeId::NavSlice => TryV::Done(
            named_list(h, "nav"@, "slice"@, seq![arg(args, 0), arg(args, 1)]),
        ),
        NativeId::NavSet => TryV::Done(named_list(h, "term"@, "set"@, seq![arg(args, 0)])),
        NativeId::NavAdd => TryV::Done(named_list(h, "term"@, "add"@, seq![arg(args, 0)])),
        NativeId::NavPush => TryV::Done(named_list(h, "term"@, "push"@, seq![arg(args, 0)])),
        _ => TryV::Done(Nat::Host(HostCallV::Native(id, args))),
    }
}

pub open spec fn do_call(p: ProgramV, f: Seq<FactV>, e: Env, n: int) -> Act {
    let args = tail(e.fr, n);
    let below = dropped(e.fr, up_to(e.fr, n));
    if below.stack.len() < 1 {
        Act::Fail("stack underflow (callee)"@)
    } else {
        let callee = peek(below, 0);
        let rest = Env { fr: dropped(below, 1), ..e };
        match callee {
            Value::Closure(c) => match closure_frame(p, e.h, c, args) {
                Some(fr) => Act::Enter(rest, fr),
                None => corrupt(),
            },
            Value::Native(id) => match call_native(e.h, f, id, args) {
                TryV::Done(Nat::Val(h, v)) => give(Env { h, ..rest }, v),
                TryV::Done(Nat::Host(call)) => Act::Stop(rest, OutcomeV::Host(call)),
                TryV::Fail(m) => Act::Fail(m),
                TryV::Need(q) => Act::Need(q),
            },
            Value::Lib(id) => Act::Stop(rest, OutcomeV::Host(HostCallV::Lib(id, args))),
            Value::Nil => Act::Fail("calling nil (unknown function?)"@),
            _ => Act::Fail("cannot call a "@ + kind_of(callee)),
        }
    }
}

pub open spec fn do_closure(e: Env, fi: u32, n: int) -> Act {
    let caps = tail(e.fr, n);
    give_new(
        Env { fr: dropped(e.fr, up_to(e.fr, n)), ..e },
        CellV::Closure(fi as usize, caps),
        Value::Closure(next_cell(e.h)),
    )
}

/// The pairs that iterating `v` yields.
pub open spec fn pairs_of(h: Seq<CellV>, v: Value) -> Result<Seq<Seq<Value>>, Seq<char>> {
    match v {
        Value::Array(a) => Ok(
            Seq::new(
                array_at(h, a).len(),
                |i: int| seq![Value::Int(i as i64), array_at(h, a)[i]],
            ),
        ),
        Value::Dict(m) => Ok(
            Seq::new(map_at(h, m).len(), |i: int| seq![map_at(h, m)[i].0, map_at(h, m)[i].1]),
        ),
        _ => Err("cannot iterate a "@ + kind_of(v)),
    }
}

/// Cells for the first `n` pairs.
pub open spec fn pair_cells(h: Seq<CellV>, pairs: Seq<Seq<Value>>) -> Seq<CellV> {
    h + Seq::new(pairs.len(), |i: int| CellV::Array(pairs[i]))
}

pub open spec fn do_iter_new(e: Env) -> Act {
    if e.fr.stack.len() < 1 {
        underflow()
    } else {
        match pairs_of(e.h, peek(e.fr, 0)) {
            Err(m) => Act::Fail(m),
            Ok(pairs) => {
                let h = pair_cells(e.h, pairs);
                give_new(
                    Env { h, fr: dropped(e.fr, 1), ..e },
                    CellV::Array(
                        Seq::new(pairs.len(), |i: int| Value::Array((e.h.len() + i) as usize)),
                    ),
                    Value::Array(next_cell(h)),
                )
            },
        }
    }
}

pub open spec fn do_iter_next(e: Env, d: i32) -> Act {
    if e.fr.stack.len() < 2 {
        underflow()
    } else {
        let rest = dropped(e.fr, 2);
        match peek(e.fr, 0) {
            Value::Int(i) => match peek(e.fr, 1) {
                Value::Array(a) => if 0 <= i < array_at(e.h, a).len() {
                    match array_at(e.h, a)[i as int] {
                        Value::Array(kv) => {
                            let pair = array_at(e.h, kv);
                            if pair.len() < 2 || i == i64::MAX {
                                corrupt()
                            } else {
                                Act::Go(
                                    Env {
                                        fr: pushed(
                                            pushed(
                                                pushed(
                                                    pushed(rest, Value::Array(a)),
                                                    Value::Int((i + 1) as i64),
                                                ),
                                                pair[0],
                                            ),
                                            pair[1],
                                        ),
                                        ..e
                                    },
                                )
                            }
                        },
                        _ => Act::Fail("iterator corrupted"@),
                    }
                } else {
                    jump(Env { fr: rest, ..e }, d)
                },
                _ => Act::Fail("iterator corrupted"@),
            },
            _ => Act::Fail("iterator index corrupted"@),
        }
    }
}

pub open spec fn do_at(p: ProgramV, e: Env, k: u32) -> Act {
    if e.fr.stack.len() < 2 {
        underflow()
    } else {
        match text_const(p, k) {
            None => corrupt(),
            Some(hop) => Act::Stop(
                Env { fr: dropped(e.fr, 2), ..e },
                OutcomeV::Suspend { target: peek(e.fr, 1), hop, vars: peek(e.fr, 0) },
            ),
        }
    }
}

pub open spec fn do_cast(p: ProgramV, e: Env, k: u32) -> Act {
    if e.fr.stack.len() < 2 {
        underflow()
    } else {
        match text_const(p, k) {
            None => corrupt(),
            Some(hop) => Act::Stop(
                Env { fr: dropped(e.fr, 2), ..e },
                OutcomeV::Host(
                    HostCallV::Cast { target: peek(e.fr, 1), hop, vars: peek(e.fr, 0) },
                ),
            ),
        }
    }
}

pub open spec fn do_spawn(e: Env) -> Act {
    if e.fr.stack.len() < 2 {
        underflow()
    } else {
        match peek(e.fr, 0) {
            Value::Array(a) => Act::Stop(
                Env { fr: dropped(e.fr, 2), ..e },
                OutcomeV::Host(
                    HostCallV::Spawn { callee: peek(e.fr, 1), args: array_at(e.h, a) },
                ),
            ),
            _ => Act::Fail("spawn arguments corrupted"@),
        }
    }
}

/// What the instruction `i` does.
pub open spec fn act(p: ProgramV, f: Seq<FactV>, e: Env, i: Instr) -> Act {
    match i {
        Instr::Const(k) => do_const(p, e, k),
        Instr::Nil => give(e, Value::Nil),
        Instr::True => give(e, Value::Bool(true)),
        Instr::False => give(e, Value::Bool(false)),
        Instr::LoadLocal(n) => do_load(e, n),
        Instr::StoreLocal(n) => do_store(e, n),
        Instr::LoadGlobal(k) => do_load_global(p, e, k),
        Instr::StoreGlobal(k) => do_store_global(p, e, k),
        Instr::MakeArray(n) => do_array(e, n as int),
        Instr::MakeMap(n) => do_map(e, n as int),
        Instr::GetIndex => do_get_index(e),
        Instr::SetIndex => do_set_index(e),
        Instr::GetField(k) => do_get_field(p, e, k),
        Instr::SetField(k) => do_set_field(p, e, k),
        Instr::BinOp(op) => do_bin(f, e, op),
        Instr::UnOp(op) => do_un(e, op),
        Instr::Jump(d) => jump(e, d),
        Instr::JumpIfFalse(d) => do_jump_if_false(e, d),
        Instr::Dup => if e.fr.stack.len() < 1 {
            underflow()
        } else {
            give(e, peek(e.fr, 0))
        },
        Instr::Pop => if e.fr.stack.len() < 1 {
            underflow()
        } else {
            Act::Go(Env { fr: dropped(e.fr, 1), ..e })
        },
        Instr::Call(n) => do_call(p, f, e, n as int),
        Instr::Closure(fi, n) => do_closure(e, fi, n as int),
        Instr::IterNew => do_iter_new(e),
        Instr::IterNext(d) => do_iter_next(e, d),
        Instr::Return => if e.fr.stack.len() < 1 {
            underflow()
        } else {
            Act::Leave(peek(e.fr, 0))
        },
        Instr::At(k) => do_at(p, e, k),
        Instr::Cast(k) => do_cast(p, e, k),
        Instr::Spawn => do_spawn(e),
        Instr::Session => Act::Stop(e, OutcomeV::Host(HostCallV::Session)),
        Instr::User => Act::Stop(e, OutcomeV::Host(HostCallV::User)),
    }
}

/// The state of a machine: heap, globals, and the frames of one execution.
pub struct StateV {
    pub h: Seq<CellV>,
    pub g: Map<Seq<char>, Value>,
    pub frames: Seq<FrameV>,
}

/// A message with the place that it comes from.
pub open spec fn blamed(p: ProgramV, fr: FrameV, m: Seq<char>) -> Seq<char> {
    (if (fr.fn_idx as int) < p.fns.len() {
        p.fns[fr.fn_idx as int].name
    } else {
        Seq::empty()
    }) + ":"@ + dec(fr.pc as nat) + ": "@ + m
}

/// The frame is left with `v`, which the frame below gets.
pub open spec fn leave(s: StateV, v: Value) -> (StateV, Option<OutcomeV>) {
    let below = s.frames.drop_last();
    if below.len() == 0 {
        (StateV { frames: below, ..s }, Some(OutcomeV::Done(v)))
    } else {
        (
            StateV { frames: below.drop_last().push(pushed(below.last(), v)), ..s },
            None,
        )
    }
}

/// One step: the state behind it, and the outcome where the machine stops. A
/// failed step leaves heap and globals as they were; one that wants a fact
/// leaves everything as it was.
pub open spec fn step(p: ProgramV, f: Seq<FactV>, s: StateV) -> (StateV, Option<OutcomeV>) {
    if s.frames.len() == 0 {
        (s, Some(OutcomeV::Done(Value::Nil)))
    } else {
        let fr = s.frames.last();
        if (fr.fn_idx as int) >= p.fns.len() {
            (s, Some(OutcomeV::Error(blamed(p, fr, "corrupt program"@))))
        } else if (fr.pc as int) >= p.fns[fr.fn_idx as int].code.len() {
            leave(s, Value::Nil)
        } else {
            let i = p.fns[fr.fn_idx as int].code[fr.pc as int];
            let e = Env { h: s.h, g: s.g, fr: FrameV { pc: (fr.pc + 1) as usize, ..fr } };
            let below = s.frames.drop_last();
            match act(p, f, e, i) {
                Act::Go(n) => (StateV { h: n.h, g: n.g, frames: below.push(n.fr) }, None),
                Act::Enter(n, top) => (
                    StateV { h: n.h, g: n.g, frames: below.push(n.fr).push(top) },
                    None,
                ),
                Act::Leave(v) => leave(s, v),
                Act::Stop(n, o) => (
                    StateV { h: n.h, g: n.g, frames: below.push(n.fr) },
                    Some(o),
                ),
                Act::Fail(m) => (s, Some(OutcomeV::Error(blamed(p, fr, m)))),
                Act::Need(q) => (s, Some(OutcomeV::Need(q))),
            }
        }
    }
}

/// Steps until the machine stops, `fuel` of them at most.
pub open spec fn steps(p: ProgramV, f: Seq<FactV>, s: StateV, fuel: nat) -> (StateV, OutcomeV)
    decreases fuel,
{
    if fuel == 0 {
        (s, OutcomeV::Error("step limit exceeded (infinite loop?)"@))
    } else {
        match step(p, f, s) {
            (t, Some(o)) => (t, o),
            (t, None) => steps(p, f, t, (fuel - 1) as nat),
        }
    }
}

/// How many of `fuel` steps are left when the machine stops.
pub open spec fn steps_left(p: ProgramV, f: Seq<FactV>, s: StateV, fuel: nat) -> nat
    decreases fuel,
{
    if fuel == 0 {
        0
    } else {
        match step(p, f, s) {
            (t, Some(o)) => (fuel - 1) as nat,
            (t, None) => steps_left(p, f, t, (fuel - 1) as nat),
        }
    }
}

} // verus!
