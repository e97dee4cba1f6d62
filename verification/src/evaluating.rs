//! What the code of an expression comes to when it is run.

use crate::ast::{BinaryOp, ExprV, StmtV};
use crate::float::FactV;
use crate::ir::{BinOp, ConstV, Instr, ProgramV, UnOp};
use crate::lowering::{
    const_from, const_ix, cut_scope, emitted, low_block, low_expr, low_stmt, low_stmts, patched,
    slot_of, with_const, GenV,
};
use crate::machine::{step, FrameV, StateV};
use crate::running::{
    applies, further, gives, in_range, law_integers_are_compared, law_integers_are_computed,
    law_signs, law_tests_decide, next_is, top,
};
use crate::text::int_text;
use crate::value::Value;
use vstd::prelude::*;

verus! {

/// The value is an integer, a truth value or nil.
pub open spec fn is_simple(v: Value) -> bool {
    v is Int || v is Bool || v is Nil
}

/// The value counts as true.
pub open spec fn counts(v: Value) -> bool {
    v != Value::Nil && v != Value::Bool(false)
}

/// What an operator makes of two integers, where that is an integer or a truth
/// value.
pub open spec fn of_integers(op: BinOp, x: int, y: int) -> Option<Value> {
    match op {
        BinOp::Add => if in_range(x + y) {
            Some(Value::Int((x + y) as i64))
        } else {
            None
        },
        BinOp::Sub => if in_range(x - y) {
            Some(Value::Int((x - y) as i64))
        } else {
            None
        },
        BinOp::Mul => if in_range(x * y) {
            Some(Value::Int((x * y) as i64))
        } else {
            None
        },
        BinOp::Lt => Some(Value::Bool(x < y)),
        BinOp::Le => Some(Value::Bool(x <= y)),
        BinOp::Gt => Some(Value::Bool(x > y)),
        BinOp::Ge => Some(Value::Bool(x >= y)),
        BinOp::Eq => Some(Value::Bool(x == y)),
        BinOp::Ne => Some(Value::Bool(x != y)),
        _ => None,
    }
}

/// The value of an expression of integers, truth values, nil, locals and
/// operators on them, where it has one. `&&` and `||` give the value of the
/// operand that decides, and look at the second only where the first does not.
pub open spec fn worth(e: ExprV, scope: Seq<(Seq<char>, u16)>, locals: Seq<Value>) -> Option<Value>
    decreases e,
{
    match e {
        ExprV::Num(n) => if n.contains('.') {
            None
        } else {
            match int_text(n) {
                Some(i) => Some(Value::Int(i)),
                None => None,
            }
        },
        ExprV::Bool(b) => Some(Value::Bool(b)),
        ExprV::Nil => Some(Value::Nil),
        ExprV::Ident(n) => match slot_of(scope, n) {
            Some(slot) => if (slot as int) < locals.len() && is_simple(locals[slot as int]) {
                Some(locals[slot as int])
            } else {
                None
            },
            None => None,
        },
        ExprV::Unary(op, a) => match (op, worth(*a, scope, locals)) {
            (UnOp::Not, Some(v)) => Some(Value::Bool(!counts(v))),
            (UnOp::Neg, Some(Value::Int(x))) => if x > i64::MIN {
                Some(Value::Int((-x) as i64))
            } else {
                None
            },
            _ => None,
        },
        ExprV::Binary(op, a, b) => match worth(*a, scope, locals) {
            None => None,
            Some(v) => match op {
                BinaryOp::And => if counts(v) {
                    worth(*b, scope, locals)
                } else {
                    Some(v)
                },
                BinaryOp::Or => if counts(v) {
                    Some(v)
                } else {
                    worth(*b, scope, locals)
                },
                BinaryOp::Plain(op) => match (v, worth(*b, scope, locals)) {
                    (Value::Int(x), Some(Value::Int(y))) => of_integers(op, x as int, y as int),
                    _ => None,
                },
            },
        },
        _ => None,
    }
}

/// The state after `n` steps, if none of them stops the machine.
#[verifier::opaque]
pub open spec fn after_steps(p: ProgramV, f: Seq<FactV>, s: StateV, n: nat) -> Option<StateV>
    decreases n,
{
    if n == 0 {
        Some(s)
    } else {
        match after_steps(p, f, s, (n - 1) as nat) {
            None => None,
            Some(t) => match step(p, f, t) {
                (u, None) => Some(u),
                _ => None,
            },
        }
    }
}

proof fn lemma_steps_add(p: ProgramV, f: Seq<FactV>, s: StateV, t: StateV, n: nat, m: nat)
    requires
        after_steps(p, f, s, n) == Some(t),
    ensures
        after_steps(p, f, s, n + m) == after_steps(p, f, t, m),
    decreases m,
{
    reveal(after_steps);
    if m > 0 {
        lemma_steps_add(p, f, s, t, n, (m - 1) as nat);
        assert((n + m - 1) as nat == n + (m - 1) as nat);
    }
}

/// The program has the code from `from` up to `to` of the body that is emitted,
/// in function `fi`, and its constants.
pub open spec fn holds_code(p: ProgramV, fi: usize, g: GenV, from: int, to: int) -> bool {
    &&& (fi as int) < p.fns.len()
    &&& to <= g.fb.code.len() <= p.fns[fi as int].code.len()
    &&& p.fns[fi as int].code.len() < i32::MAX
    &&& forall|k: int| from <= k < to ==> p.fns[fi as int].code[k] == #[trigger] g.fb.code[k]
    &&& g.cg.consts.len() <= p.consts.len() <= u32::MAX
    &&& forall|k: int|
        0 <= k < g.cg.consts.len() ==> p.consts[k] == #[trigger] g.cg.consts[k]
}

/// The frame at work is in function `fi` at `pc`.
pub open spec fn is_at(s: StateV, fi: usize, pc: int) -> bool {
    s.frames.len() > 0 && top(s).fn_idx == fi && top(s).pc == pc
}

/// `t` is `s` with `v` on the stack, at `pc`, and nothing else changed.
pub open spec fn arrived(s: StateV, t: StateV, pc: int, v: Value) -> bool {
    &&& t.h == s.h
    &&& t.g == s.g
    &&& t.frames.len() == s.frames.len()
    &&& t.frames.drop_last() == s.frames.drop_last()
    &&& top(t) == (FrameV { pc: pc as usize, stack: top(s).stack.push(v), ..top(s) })
    &&& 0 <= pc <= usize::MAX
}

/// Later code is behind earlier code, later constants behind earlier ones.
spec fn longer(g: GenV, h: GenV) -> bool {
    &&& g.fb.code.len() <= h.fb.code.len()
    &&& forall|k: int| 0 <= k < g.fb.code.len() ==> h.fb.code[k] == #[trigger] g.fb.code[k]
    &&& g.cg.consts.len() <= h.cg.consts.len()
    &&& forall|k: int|
        0 <= k < g.cg.consts.len() ==> h.cg.consts[k] == #[trigger] g.cg.consts[k]
    &&& h.fb.scope == g.fb.scope
}

/// The expression is one of those that have a worth.
pub open spec fn valued(e: ExprV) -> bool
    decreases e,
{
    match e {
        ExprV::Num(n) => !n.contains('.'),
        ExprV::Bool(_) => true,
        ExprV::Nil => true,
        ExprV::Ident(_) => true,
        ExprV::Unary(_, a) => valued(*a),
        ExprV::Binary(_, a, b) => valued(*a) && valued(*b),
        _ => false,
    }
}

proof fn lemma_const(cs: Seq<ConstV>, c: ConstV, i: int)
    requires
        0 <= i <= cs.len(),
    ensures
        i <= const_from(cs, c, i) <= cs.len(),
        const_from(cs, c, i) < cs.len() ==> cs[const_from(cs, c, i)] == c,
    decreases cs.len() - i,
{
    if i < cs.len() && cs[i] != c {
        lemma_const(cs, c, i + 1);
    }
}

proof fn lemma_longer_on(g: GenV, h: GenV, k: GenV)
    requires
        longer(g, h),
        longer(h, k),
    ensures
        longer(g, k),
{
    assert forall|i: int| 0 <= i < g.fb.code.len() implies k.fb.code[i] == #[trigger] g.fb.code[i] by {
        assert(h.fb.code[i] == g.fb.code[i]);
    }
    assert forall|i: int| 0 <= i < g.cg.consts.len() implies k.cg.consts[i]
        == #[trigger] g.cg.consts[i] by {
        assert(h.cg.consts[i] == g.cg.consts[i]);
    }
}

proof fn lemma_patched(g: GenV, k: GenV, kb: GenV, j: int)
    requires
        longer(g, k),
        longer(k, kb),
        g.fb.code.len() <= j,
    ensures
        longer(g, patched(kb, j)),
{
    lemma_longer_on(g, k, kb);
}

proof fn lemma_longer(f: Seq<FactV>, g: GenV, e: ExprV)
    requires
        valued(e),
        low_expr(f, g, e) is Ok,
    ensures
        longer(g, low_expr(f, g, e)->Ok_0),
    decreases e,
{
    match e {
        ExprV::Num(n) => {
            let c = ConstV::Int(int_text(n)->Some_0);
            lemma_const(g.cg.consts, c, 0);
            let h = emitted(with_const(g, c), Instr::Const(const_ix(g, c)));
            assert(low_expr(f, g, e)->Ok_0 == h);
            assert(longer(g, h));
        },
        ExprV::Ident(n) => lemma_const(g.cg.consts, ConstV::Str(n), 0),
        ExprV::Unary(op, a) => lemma_longer(f, g, *a),
        ExprV::Binary(op, a, b) => {
            lemma_longer(f, g, *a);
            let h = low_expr(f, g, *a)->Ok_0;
            match op {
                BinaryOp::And => {
                    let k = emitted(
                        emitted(emitted(h, Instr::Dup), Instr::JumpIfFalse(0)),
                        Instr::Pop,
                    );
                    lemma_longer(f, k, *b);
                    lemma_patched(g, k, low_expr(f, k, *b)->Ok_0, h.fb.code.len() as int + 1);
                },
                BinaryOp::Or => {
                    let k = emitted(
                        emitted(
                            emitted(emitted(h, Instr::Dup), Instr::UnOp(UnOp::Not)),
                            Instr::JumpIfFalse(0),
                        ),
                        Instr::Pop,
                    );
                    lemma_longer(f, k, *b);
                    lemma_patched(g, k, low_expr(f, k, *b)->Ok_0, h.fb.code.len() as int + 2);
                },
                BinaryOp::Plain(_) => {
                    lemma_longer(f, h, *b);
                    let k = low_expr(f, h, *b)->Ok_0;
                    assert(longer(g, k)) by {
                        lemma_longer_on(g, h, k);
                    }
                },
            }
        },
        _ => {},
    }
}

/// One step that pushes `v`.
proof fn lemma_one(p: ProgramV, f: Seq<FactV>, s: StateV, v: Value)
    requires
        gives(p, f, s, top(s).stack, v),
        s.frames.len() > 0,
        top(s).pc < usize::MAX,
    ensures
        after_steps(p, f, s, 1) == Some(step(p, f, s).0),
        arrived(s, step(p, f, s).0, top(s).pc + 1, v),
{
    reveal_with_fuel(after_steps, 3);
}

proof fn lemma_drop_push(below: Seq<FrameV>, fr: FrameV)
    ensures
        below.push(fr).drop_last() == below,
        below.push(fr).last() == fr,
{
    assert(below.push(fr).drop_last() =~= below);
}

/// `Dup`.
proof fn lemma_dup(p: ProgramV, f: Seq<FactV>, s: StateV)
    requires
        next_is(p, s, Instr::Dup),
        top(s).stack.len() > 0,
    ensures
        gives(p, f, s, top(s).stack, top(s).stack.last()),
{
    lemma_drop_push(s.frames.drop_last(), step(p, f, s).0.frames.last());
}

/// `Pop`.
proof fn lemma_pop(p: ProgramV, f: Seq<FactV>, s: StateV, rest: Seq<Value>, v: Value)
    requires
        next_is(p, s, Instr::Pop),
        top(s).stack == rest.push(v),
    ensures
        step(p, f, s).1 is None,
        step(p, f, s).0.h == s.h,
        further(s, step(p, f, s).0, rest),
{
    assert(top(s).stack.take(rest.len() as int) =~= rest);
    lemma_drop_push(s.frames.drop_last(), step(p, f, s).0.frames.last());
}

/// One operator on two integers.
proof fn lemma_operate(
    p: ProgramV,
    f: Seq<FactV>,
    s: StateV,
    u: StateV,
    n: nat,
    op: BinOp,
    x: i64,
    y: i64,
)
    requires
        after_steps(p, f, s, n) == Some(u),
        s.frames.len() > 0,
        u.h == s.h,
        u.g == s.g,
        u.frames.len() == s.frames.len(),
        u.frames.drop_last() == s.frames.drop_last(),
        next_is(p, u, Instr::BinOp(op)),
        top(u) == (FrameV {
            pc: top(u).pc,
            stack: top(s).stack.push(Value::Int(x)).push(Value::Int(y)),
            ..top(s)
        }),
        of_integers(op, x as int, y as int) is Some,
    ensures
        after_steps(p, f, s, n + 1) is Some,
        arrived(
            s,
            after_steps(p, f, s, n + 1)->Some_0,
            top(u).pc + 1,
            of_integers(op, x as int, y as int)->Some_0,
        ),
{
    let (v, w) = (Value::Int(x), Value::Int(y));
    let rest = top(s).stack;
    assert(top(u).stack =~= rest + seq![v, w]);
    assert(applies(p, u, op, rest, v, w));
    law_integers_are_computed(p, f, u, op, rest, x, y);
    law_integers_are_compared(p, f, u, op, rest, x, y);
    lemma_next(p, f, s, u, n);
}

/// One sign before a value.
proof fn lemma_sign(
    p: ProgramV,
    f: Seq<FactV>,
    s: StateV,
    t: StateV,
    n: nat,
    op: UnOp,
    v: Value,
)
    requires
        after_steps(p, f, s, n) == Some(t),
        s.frames.len() > 0,
        arrived(s, t, top(t).pc as int, v),
        next_is(p, t, Instr::UnOp(op)),
        op == UnOp::Neg ==> v is Int && v->Int_0 > i64::MIN,
    ensures
        after_steps(p, f, s, n + 1) is Some,
        arrived(
            s,
            after_steps(p, f, s, n + 1)->Some_0,
            top(t).pc + 1,
            match op {
                UnOp::Not => Value::Bool(!counts(v)),
                UnOp::Neg => Value::Int((-v->Int_0) as i64),
            },
        ),
{
    law_signs(p, f, t, op, top(s).stack, v);
    lemma_next(p, f, s, t, n);
}

/// A literal or a local.
proof fn lemma_leaf(p: ProgramV, f: Seq<FactV>, fi: usize, g: GenV, e: ExprV, s: StateV) -> (n: nat)
    requires
        e is Num || e is Bool || e is Nil || e is Ident,
        low_expr(f, g, e) is Ok,
        holds_code(
            p,
            fi,
            low_expr(f, g, e)->Ok_0,
            g.fb.code.len() as int,
            low_expr(f, g, e)->Ok_0.fb.code.len() as int,
        ),
        is_at(s, fi, g.fb.code.len() as int),
        worth(e, g.fb.scope, top(s).locals) is Some,
    ensures
        after_steps(p, f, s, n) is Some,
        arrived(
            s,
            after_steps(p, f, s, n)->Some_0,
            low_expr(f, g, e)->Ok_0.fb.code.len() as int,
            worth(e, g.fb.scope, top(s).locals)->Some_0,
        ),
{
    let h = low_expr(f, g, e)->Ok_0;
    let at = g.fb.code.len() as int;
    let v = worth(e, g.fb.scope, top(s).locals)->Some_0;
    assert(h.fb.code.len() == at + 1);
    assert(p.fns[fi as int].code[at] == h.fb.code[at]);
    match e {
        ExprV::Num(n) => {
            let c = ConstV::Int(int_text(n)->Some_0);
            lemma_const(g.cg.consts, c, 0);
            let ix = const_from(g.cg.consts, c, 0);
            assert(h.cg.consts[ix] == c);
            assert(p.consts[ix] == c);
            assert(const_ix(g, c) == ix);
            assert(next_is(p, s, Instr::Const(ix as u32)));
            lemma_drop_push(s.frames.drop_last(), step(p, f, s).0.frames.last());
            assert(gives(p, f, s, top(s).stack, v));
        },
        ExprV::Ident(n) => {
            let slot = slot_of(g.fb.scope, n)->Some_0;
            assert(next_is(p, s, Instr::LoadLocal(slot)));
            lemma_drop_push(s.frames.drop_last(), step(p, f, s).0.frames.last());
            assert(gives(p, f, s, top(s).stack, v));
        },
        _ => {
            lemma_drop_push(s.frames.drop_last(), step(p, f, s).0.frames.last());
            assert(gives(p, f, s, top(s).stack, v));
        },
    }
    lemma_one(p, f, s, v);
    1
}

/// The code of an expression leaves the value of the expression on the stack,
/// ends right behind itself, and changes nothing else.
pub proof fn law_code_computes_the_value(
    p: ProgramV,
    f: Seq<FactV>,
    fi: usize,
    g: GenV,
    e: ExprV,
    s: StateV,
) -> (n: nat)
    requires
        valued(e),
        low_expr(f, g, e) is Ok,
        holds_code(
            p,
            fi,
            low_expr(f, g, e)->Ok_0,
            g.fb.code.len() as int,
            low_expr(f, g, e)->Ok_0.fb.code.len() as int,
        ),
        is_at(s, fi, g.fb.code.len() as int),
        worth(e, g.fb.scope, top(s).locals) is Some,
    ensures
        after_steps(p, f, s, n) is Some,
        arrived(
            s,
            after_steps(p, f, s, n)->Some_0,
            low_expr(f, g, e)->Ok_0.fb.code.len() as int,
            worth(e, g.fb.scope, top(s).locals)->Some_0,
        ),
    decreases e, 1int,
{
    let end = low_expr(f, g, e)->Ok_0;
    let code = p.fns[fi as int].code;
    let locals = top(s).locals;
    let scope = g.fb.scope;
    match e {
        ExprV::Unary(op, a) => {
            let h = low_expr(f, g, *a)->Ok_0;
            lemma_longer(f, g, *a);
            assert(holds_code(p, fi, h, g.fb.code.len() as int, h.fb.code.len() as int)) by {
                assert forall|k: int| g.fb.code.len() <= k < h.fb.code.len() implies code[k]
                    == #[trigger] h.fb.code[k] by {
                    assert(end.fb.code[k] == h.fb.code[k]);
                }
            }
            let n = law_code_computes_the_value(p, f, fi, g, *a, s);
            let t = after_steps(p, f, s, n)->Some_0;
            let v = worth(*a, scope, locals)->Some_0;
            let at = h.fb.code.len() as int;
            assert(code[at] == end.fb.code[at]);
            lemma_sign(p, f, s, t, n, op, v);
            n + 1
        },
        ExprV::Binary(op, a, b) => if op is Plain {
            lemma_plain(p, f, fi, g, e, s)
        } else {
            lemma_short(p, f, fi, g, e, s)
        },
        _ => lemma_leaf(p, f, fi, g, e, s),
    }
}

/// An operator on two integers.
proof fn lemma_plain(p: ProgramV, f: Seq<FactV>, fi: usize, g: GenV, e: ExprV, s: StateV) -> (n:
    nat)
    requires
        e is Binary,
        e->Binary_0 is Plain,
        valued(e),
        low_expr(f, g, e) is Ok,
        holds_code(
            p,
            fi,
            low_expr(f, g, e)->Ok_0,
            g.fb.code.len() as int,
            low_expr(f, g, e)->Ok_0.fb.code.len() as int,
        ),
        is_at(s, fi, g.fb.code.len() as int),
        worth(e, g.fb.scope, top(s).locals) is Some,
    ensures
        after_steps(p, f, s, n) is Some,
        arrived(
            s,
            after_steps(p, f, s, n)->Some_0,
            low_expr(f, g, e)->Ok_0.fb.code.len() as int,
            worth(e, g.fb.scope, top(s).locals)->Some_0,
        ),
    decreases e, 0int,
{
    let end = low_expr(f, g, e)->Ok_0;
    let code = p.fns[fi as int].code;
    let locals = top(s).locals;
    let scope = g.fb.scope;
    let (op, a, b) = (e->Binary_0->Plain_0, e->Binary_1, e->Binary_2);
    let h = low_expr(f, g, *a)->Ok_0;
    lemma_longer(f, g, *a);
    let v = worth(*a, scope, locals)->Some_0;
    let at = h.fb.code.len() as int;
    lemma_longer(f, h, *b);
    let k = low_expr(f, h, *b)->Ok_0;
    assert(holds_code(p, fi, h, g.fb.code.len() as int, at)) by {
        assert forall|i: int| g.fb.code.len() <= i < at implies code[i]
            == #[trigger] h.fb.code[i] by {
            assert(k.fb.code[i] == h.fb.code[i]);
            assert(end.fb.code[i] == k.fb.code[i]);
        }
        assert forall|i: int| 0 <= i < h.cg.consts.len() implies p.consts[i]
            == #[trigger] h.cg.consts[i] by {
            assert(k.cg.consts[i] == h.cg.consts[i]);
        }
    }
    let n = law_code_computes_the_value(p, f, fi, g, *a, s);
    let t = after_steps(p, f, s, n)->Some_0;
    let last = k.fb.code.len() as int;
    assert(holds_code(p, fi, k, at, last)) by {
        assert forall|i: int| at <= i < last implies code[i]
            == #[trigger] k.fb.code[i] by {
            assert(end.fb.code[i] == k.fb.code[i]);
        }
    }
    let m = law_code_computes_the_value(p, f, fi, h, *b, t);
    let u = after_steps(p, f, t, m)->Some_0;
    lemma_steps_add(p, f, s, t, n, m);
    let w = worth(*b, scope, locals)->Some_0;
    assert(code[last] == end.fb.code[last]);
    lemma_operate(p, f, s, u, n + m, op, v->Int_0, w->Int_0);
    n + m + 1
}

/// What an operator that may skip its second operand emits before that.
spec fn guarded(h: GenV, op: BinaryOp) -> GenV {
    let dup = emitted(h, Instr::Dup);
    let tested = if op == BinaryOp::And {
        dup
    } else {
        emitted(dup, Instr::UnOp(UnOp::Not))
    };
    emitted(emitted(tested, Instr::JumpIfFalse(0)), Instr::Pop)
}

/// Where the jump of such an operator stands, when its code begins at `at`.
spec fn jump_place(at: int, op: BinaryOp) -> int {
    if op == BinaryOp::And {
        at + 1
    } else {
        at + 2
    }
}

/// The code of such an operator behind its first operand.
spec fn guard_at(code: Seq<Instr>, at: int, op: BinaryOp, d: i32) -> bool {
    let j = jump_place(at, op);
    &&& 0 <= at
    &&& j + 1 < code.len() < i32::MAX
    &&& code[at] == Instr::Dup
    &&& op != BinaryOp::And ==> code[at + 1] == Instr::UnOp(UnOp::Not)
    &&& code[j] == Instr::JumpIfFalse(d)
    &&& code[j + 1] == Instr::Pop
}

/// The first operand decides.
spec fn decides(op: BinaryOp, v: Value) -> bool {
    if op == BinaryOp::And {
        !counts(v)
    } else {
        counts(v)
    }
}

/// The guard leaves the value and jumps where the first operand decides, and
/// drops the value where it does not.
proof fn lemma_guard(
    p: ProgramV,
    f: Seq<FactV>,
    fi: usize,
    t: StateV,
    op: BinaryOp,
    d: i32,
    rest: Seq<Value>,
    v: Value,
) -> (n: nat)
    requires
        (fi as int) < p.fns.len(),
        t.frames.len() > 0,
        top(t).fn_idx == fi,
        guard_at(p.fns[fi as int].code, top(t).pc as int, op, d),
        top(t).stack == rest.push(v),
        0 <= jump_place(top(t).pc as int, op) + 1 + d <= i32::MAX,
    ensures
        after_steps(p, f, t, n) is Some,
        ({
            let u = after_steps(p, f, t, n)->Some_0;
            let j = jump_place(top(t).pc as int, op);
            &&& u.h == t.h
            &&& u.g == t.g
            &&& u.frames.len() == t.frames.len()
            &&& u.frames.drop_last() == t.frames.drop_last()
            &&& top(u) == (FrameV {
                pc: (if decides(op, v) { j + 1 + d } else { j + 2 }) as usize,
                stack: if decides(op, v) { rest.push(v) } else { rest },
                ..top(t)
            })
        }),
{
    let at = top(t).pc as int;
    let j = jump_place(at, op);
    lemma_dup(p, f, t);
    let t1 = step(p, f, t).0;
    lemma_one(p, f, t, v);
    let (t2, n2, w) = if op == BinaryOp::And {
        (t1, 1nat, v)
    } else {
        law_signs(p, f, t1, UnOp::Not, rest.push(v), v);
        lemma_next(p, f, t, t1, 1);
        (step(p, f, t1).0, 2nat, Value::Bool(!counts(v)))
    };
    assert(top(t2).stack == rest.push(v).push(w));
    law_tests_decide(p, f, t2, rest.push(v), w, d);
    let t3 = step(p, f, t2).0;
    lemma_next(p, f, t, t2, n2);
    if decides(op, v) {
        n2 + 1
    } else {
        lemma_pop(p, f, t3, rest, v);
        lemma_next(p, f, t, t3, n2 + 1);
        n2 + 2
    }
}

proof fn lemma_next(p: ProgramV, f: Seq<FactV>, s: StateV, t: StateV, n: nat)
    requires
        after_steps(p, f, s, n) == Some(t),
        step(p, f, t).1 is None,
    ensures
        after_steps(p, f, s, n + 1) == Some(step(p, f, t).0),
{
    reveal(after_steps);
}

proof fn lemma_guard_code(f: Seq<FactV>, h: GenV, op: BinaryOp, b: ExprV)
    requires
        !(op is Plain),
        valued(b),
        low_expr(f, guarded(h, op), b) is Ok,
        low_expr(f, guarded(h, op), b)->Ok_0.fb.code.len() < i32::MAX,
    ensures
        ({
            let k = guarded(h, op);
            let kb = low_expr(f, k, b)->Ok_0;
            let at = h.fb.code.len() as int;
            let j = jump_place(at, op);
            let end = patched(kb, j);
            let last = kb.fb.code.len() as int;
            &&& longer(h, end)
            &&& guard_at(end.fb.code, at, op, (last - j - 1) as i32)
            &&& k.fb.code.len() == j + 2 <= last
            &&& end.fb.code.len() == last
            &&& end.cg == kb.cg
            &&& k.fb.scope == h.fb.scope
            &&& forall|i: int| j + 2 <= i < last ==> end.fb.code[i] == #[trigger] kb.fb.code[i]
        }),
{
    let k = guarded(h, op);
    lemma_longer(f, k, b);
    let kb = low_expr(f, k, b)->Ok_0;
    let at = h.fb.code.len() as int;
    let j = jump_place(at, op);
    assert(longer(h, k));
    lemma_patched(h, k, kb, j);
    assert(kb.fb.code[j] == k.fb.code[j]);
    assert(kb.fb.code[at] == k.fb.code[at]);
    assert(kb.fb.code[at + 1] == k.fb.code[at + 1]);
    assert(kb.fb.code[j + 1] == k.fb.code[j + 1]);
}

/// `&&` and `||`.
proof fn lemma_short(p: ProgramV, f: Seq<FactV>, fi: usize, g: GenV, e: ExprV, s: StateV) -> (n:
    nat)
    requires
        e is Binary,
        !(e->Binary_0 is Plain),
        valued(e),
        low_expr(f, g, e) is Ok,
        holds_code(
            p,
            fi,
            low_expr(f, g, e)->Ok_0,
            g.fb.code.len() as int,
            low_expr(f, g, e)->Ok_0.fb.code.len() as int,
        ),
        is_at(s, fi, g.fb.code.len() as int),
        worth(e, g.fb.scope, top(s).locals) is Some,
    ensures
        after_steps(p, f, s, n) is Some,
        arrived(
            s,
            after_steps(p, f, s, n)->Some_0,
            low_expr(f, g, e)->Ok_0.fb.code.len() as int,
            worth(e, g.fb.scope, top(s).locals)->Some_0,
        ),
    decreases e, 0int,
{
    let end = low_expr(f, g, e)->Ok_0;
    let code = p.fns[fi as int].code;
    let (op, a, b) = (e->Binary_0, e->Binary_1, e->Binary_2);
    let h = low_expr(f, g, *a)->Ok_0;
    let v = worth(*a, g.fb.scope, top(s).locals)->Some_0;
    let at = h.fb.code.len() as int;
    let j = jump_place(at, op);
    let k = guarded(h, op);
    let kb = low_expr(f, k, *b)->Ok_0;
    let last = kb.fb.code.len() as int;
    let d = (last - j - 1) as i32;
    assert(end == patched(kb, j));
    lemma_longer(f, g, *a);
    lemma_guard_code(f, h, op, *b);
    assert(holds_code(p, fi, h, g.fb.code.len() as int, at)) by {
        assert forall|i: int| g.fb.code.len() <= i < at implies code[i] == #[trigger] h.fb.code[i] by {
            assert(end.fb.code[i] == h.fb.code[i]);
        }
        assert forall|i: int| 0 <= i < h.cg.consts.len() implies p.consts[i]
            == #[trigger] h.cg.consts[i] by {
            assert(end.cg.consts[i] == h.cg.consts[i]);
        }
    }
    let n = law_code_computes_the_value(p, f, fi, g, *a, s);
    let t = after_steps(p, f, s, n)->Some_0;
    assert(guard_at(code, at, op, d)) by {
        assert(code[at] == end.fb.code[at]);
        assert(code[at + 1] == end.fb.code[at + 1]);
        assert(code[j] == end.fb.code[j]);
        assert(code[j + 1] == end.fb.code[j + 1]);
    }
    let m = lemma_guard(p, f, fi, t, op, d, top(s).stack, v);
    let u = after_steps(p, f, t, m)->Some_0;
    lemma_steps_add(p, f, s, t, n, m);
    if decides(op, v) {
        n + m
    } else {
        assert(holds_code(p, fi, kb, k.fb.code.len() as int, last)) by {
            assert forall|i: int| k.fb.code.len() <= i < last implies code[i]
                == #[trigger] kb.fb.code[i] by {
                assert(end.fb.code[i] == kb.fb.code[i]);
            }
            assert forall|i: int| 0 <= i < kb.cg.consts.len() implies p.consts[i]
                == #[trigger] kb.cg.consts[i] by {
                assert(end.cg.consts[i] == kb.cg.consts[i]);
            }
        }
        let q = law_code_computes_the_value(p, f, fi, k, *b, u);
        lemma_steps_add(p, f, s, u, n + m, q);
        n + m + q
    }
}

/// The code of a conditional with a `return` in either branch, piece by piece.
proof fn lemma_branch_code(f: Seq<FactV>, g: GenV, c: ExprV, a: ExprV, b: ExprV)
    requires
        valued(c) && valued(a) && valued(b),
        low_stmt(f, g, choice(c, a, b)) is Ok,
        low_stmt(f, g, choice(c, a, b))->Ok_0.fb.code.len() < i32::MAX,
    ensures
        ({
            let end = low_stmt(f, g, choice(c, a, b))->Ok_0;
            let h = low_expr(f, g, c)->Ok_0;
            let j = h.fb.code.len() as int;
            let h1 = emitted(h, Instr::JumpIfFalse(0));
            let ga = low_expr(f, h1, a)->Ok_0;
            let m = ga.fb.code.len() as int;
            let k = else_start(ga, j);
            let gb = low_expr(f, k, b)->Ok_0;
            let n = gb.fb.code.len() as int;
            &&& low_expr(f, g, c) is Ok
            &&& low_expr(f, h1, a) is Ok
            &&& low_expr(f, k, b) is Ok
            &&& longer(g, h) && longer(h1, ga) && longer(k, gb)
            &&& j < m
            &&& k.fb.code.len() == m + 2 <= n
            &&& k.fb.scope == g.fb.scope
            &&& end.fb.code.len() == n + 1
            &&& end.cg == gb.cg
            &&& forall|i: int| 0 <= i < j ==> end.fb.code[i] == #[trigger] h.fb.code[i]
            &&& end.fb.code[j] == Instr::JumpIfFalse((m + 1 - j) as i32)
            &&& forall|i: int| j < i < m ==> end.fb.code[i] == #[trigger] ga.fb.code[i]
            &&& end.fb.code[m] == Instr::Return
            &&& forall|i: int| m + 2 <= i < n ==> end.fb.code[i] == #[trigger] gb.fb.code[i]
            &&& end.fb.code[n] == Instr::Return
            &&& h.cg.consts.len() <= ga.cg.consts.len() <= end.cg.consts.len()
            &&& forall|i: int|
                0 <= i < h.cg.consts.len() ==> end.cg.consts[i] == #[trigger] h.cg.consts[i]
            &&& forall|i: int|
                0 <= i < ga.cg.consts.len() ==> end.cg.consts[i] == #[trigger] ga.cg.consts[i]
        }),
{
    let end = low_stmt(f, g, choice(c, a, b))->Ok_0;
    let h = low_expr(f, g, c)->Ok_0;
    lemma_longer(f, g, c);
    let j = h.fb.code.len() as int;
    let h1 = emitted(h, Instr::JumpIfFalse(0));
    let yes = seq![StmtV::Return(Some(a))];
    let no = seq![StmtV::Return(Some(b))];
    lemma_return(f, h1, a);
    let ga = low_expr(f, h1, a)->Ok_0;
    lemma_longer(f, h1, a);
    let m = ga.fb.code.len() as int;
    let k = else_start(ga, j);
    lemma_return(f, k, b);
    let gb = low_expr(f, k, b)->Ok_0;
    lemma_longer(f, k, b);
    let n = gb.fb.code.len() as int;
    let l = emitted(gb, Instr::Return);
    assert(ga.fb.scope == g.fb.scope);
    assert(low_block(f, h1, yes) == Ok::<GenV, Seq<char>>(emitted(ga, Instr::Return)));
    assert(low_block(f, k, no) == Ok::<GenV, Seq<char>>(l));
    assert(end == patched(l, m + 1));
    assert forall|i: int| 0 <= i < j implies end.fb.code[i] == #[trigger] h.fb.code[i] by {
        assert(h1.fb.code[i] == h.fb.code[i]);
        assert(ga.fb.code[i] == h1.fb.code[i]);
        assert(k.fb.code[i] == ga.fb.code[i]);
        assert(gb.fb.code[i] == k.fb.code[i]);
    }
    assert(ga.fb.code[j] == h1.fb.code[j]);
    assert(gb.fb.code[j] == k.fb.code[j]);
    assert forall|i: int| j < i < m implies end.fb.code[i] == #[trigger] ga.fb.code[i] by {
        assert(k.fb.code[i] == ga.fb.code[i]);
        assert(gb.fb.code[i] == k.fb.code[i]);
    }
    assert(gb.fb.code[m] == k.fb.code[m]);
    assert forall|i: int| 0 <= i < ga.cg.consts.len() implies end.cg.consts[i]
        == #[trigger] ga.cg.consts[i] by {
        assert(gb.cg.consts[i] == k.cg.consts[i]);
    }
    assert forall|i: int| 0 <= i < h.cg.consts.len() implies end.cg.consts[i]
        == #[trigger] h.cg.consts[i] by {
        assert(h1.cg.consts[i] == h.cg.consts[i]);
        assert(ga.cg.consts[i] == h1.cg.consts[i]);
    }
}

/// The conditional that returns `a` where `c` holds and `b` where it does not.
pub open spec fn choice(c: ExprV, a: ExprV, b: ExprV) -> StmtV {
    StmtV::If(c, seq![StmtV::Return(Some(a))], Some(seq![StmtV::Return(Some(b))]))
}

/// Where the second branch begins, behind the first one's `return` and jump.
spec fn else_start(ga: GenV, j: int) -> GenV {
    patched(emitted(emitted(ga, Instr::Return), Instr::Jump(0)), j)
}

proof fn lemma_return(f: Seq<FactV>, g: GenV, e: ExprV)
    requires
        valued(e),
    ensures
        low_block(f, g, seq![StmtV::Return(Some(e))]) == (match low_expr(f, g, e) {
            Ok(h) => Ok::<GenV, Seq<char>>(emitted(h, Instr::Return)),
            Err(m) => Err(m),
        }),
{
    let ss = seq![StmtV::Return(Some(e))];
    reveal_with_fuel(low_stmt, 3);
    reveal_with_fuel(low_stmts, 3);
    reveal_with_fuel(low_block, 3);
    assert(ss[0] == StmtV::Return(Some(e)));
    if low_expr(f, g, e) is Ok {
        lemma_longer(f, g, e);
        let h = emitted(low_expr(f, g, e)->Ok_0, Instr::Return);
        assert(h.fb.scope.take(g.fb.scope.len() as int) =~= h.fb.scope);
        assert(cut_scope(h, g.fb.scope.len() as int) == h);
    }
}

/// A conditional runs the branch that its condition chooses: it comes to the
/// `return` of the one or of the other, with the value of that one's expression
/// on the stack, and has changed nothing else.
pub proof fn law_conditions_choose_the_branch(
    p: ProgramV,
    f: Seq<FactV>,
    fi: usize,
    g: GenV,
    c: ExprV,
    a: ExprV,
    b: ExprV,
    s: StateV,
) -> (n: nat)
    requires
        valued(c) && valued(a) && valued(b),
        low_stmt(f, g, choice(c, a, b)) is Ok,
        holds_code(
            p,
            fi,
            low_stmt(f, g, choice(c, a, b))->Ok_0,
            g.fb.code.len() as int,
            low_stmt(f, g, choice(c, a, b))->Ok_0.fb.code.len() as int,
        ),
        is_at(s, fi, g.fb.code.len() as int),
        worth(c, g.fb.scope, top(s).locals) is Some,
        worth(a, g.fb.scope, top(s).locals) is Some,
        worth(b, g.fb.scope, top(s).locals) is Some,
    ensures
        after_steps(p, f, s, n) is Some,
        ({
            let u = after_steps(p, f, s, n)->Some_0;
            let chosen = if counts(worth(c, g.fb.scope, top(s).locals)->Some_0) {
                a
            } else {
                b
            };
            &&& next_is(p, u, Instr::Return)
            &&& arrived(
                s,
                u,
                top(u).pc as int,
                worth(chosen, g.fb.scope, top(s).locals)->Some_0,
            )
        }),
{
    let end = low_stmt(f, g, choice(c, a, b))->Ok_0;
    let code = p.fns[fi as int].code;
    lemma_branch_code(f, g, c, a, b);
    let h = low_expr(f, g, c)->Ok_0;
    let j = h.fb.code.len() as int;
    let h1 = emitted(h, Instr::JumpIfFalse(0));
    let ga = low_expr(f, h1, a)->Ok_0;
    let m = ga.fb.code.len() as int;
    let k = else_start(ga, j);
    let gb = low_expr(f, k, b)->Ok_0;
    let last = gb.fb.code.len() as int;
    let d = (m + 1 - j) as i32;
    assert(holds_code(p, fi, h, g.fb.code.len() as int, j)) by {
        assert forall|i: int| g.fb.code.len() <= i < j implies code[i] == #[trigger] h.fb.code[i] by {
            assert(end.fb.code[i] == h.fb.code[i]);
        }
        assert forall|i: int| 0 <= i < h.cg.consts.len() implies p.consts[i]
            == #[trigger] h.cg.consts[i] by {
            assert(end.cg.consts[i] == h.cg.consts[i]);
        }
    }
    let n = law_code_computes_the_value(p, f, fi, g, c, s);
    let t = after_steps(p, f, s, n)->Some_0;
    let v = worth(c, g.fb.scope, top(s).locals)->Some_0;
    assert(code[j] == end.fb.code[j]);
    let t1 = lemma_test(p, f, s, t, n, v, d);
    if counts(v) {
        assert(holds_code(p, fi, ga, h1.fb.code.len() as int, m)) by {
            assert forall|i: int| j + 1 <= i < m implies code[i] == #[trigger] ga.fb.code[i] by {
                assert(end.fb.code[i] == ga.fb.code[i]);
            }
            assert forall|i: int| 0 <= i < ga.cg.consts.len() implies p.consts[i]
                == #[trigger] ga.cg.consts[i] by {
                assert(end.cg.consts[i] == ga.cg.consts[i]);
            }
        }
        let q = law_code_computes_the_value(p, f, fi, h1, a, t1);
        lemma_steps_add(p, f, s, t1, n + 1, q);
        assert(code[m] == end.fb.code[m]);
        n + 1 + q
    } else {
        assert(holds_code(p, fi, gb, k.fb.code.len() as int, last)) by {
            assert forall|i: int| m + 2 <= i < last implies code[i] == #[trigger] gb.fb.code[i] by {
                assert(end.fb.code[i] == gb.fb.code[i]);
            }
            assert forall|i: int| 0 <= i < gb.cg.consts.len() implies p.consts[i]
                == #[trigger] gb.cg.consts[i] by {
                assert(end.cg.consts[i] == gb.cg.consts[i]);
            }
        }
        let q = law_code_computes_the_value(p, f, fi, k, b, t1);
        lemma_steps_add(p, f, s, t1, n + 1, q);
        assert(code[last] == end.fb.code[last]);
        n + 1 + q
    }
}

/// The test of a conditional.
proof fn lemma_test(p: ProgramV, f: Seq<FactV>, s: StateV, t: StateV, n: nat, v: Value, d: i32) -> (u:
    StateV)
    requires
        after_steps(p, f, s, n) == Some(t),
        s.frames.len() > 0,
        arrived(s, t, top(t).pc as int, v),
        next_is(p, t, Instr::JumpIfFalse(d)),
        0 <= top(t).pc + 1 + d <= usize::MAX,
    ensures
        after_steps(p, f, s, n + 1) == Some(u),
        u.h == s.h,
        u.g == s.g,
        u.frames.len() == s.frames.len(),
        u.frames.drop_last() == s.frames.drop_last(),
        top(u) == (FrameV {
            pc: (if counts(v) { top(t).pc + 1 } else { top(t).pc + 1 + d }) as usize,
            ..top(s)
        }),
{
    law_tests_decide(p, f, t, top(s).stack, v, d);
    lemma_next(p, f, s, t, n);
    step(p, f, t).0
}

} // verus!
