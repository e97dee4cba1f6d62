//! What the compiler emits, as functions on the state of code generation.

use crate::ast::{BinaryOp, CastTargetV, ExprV, ItemV, MatchArmV, Side, StmtV};
use crate::float::{parsed, FactV};
use crate::ir::{BinOp, ConstV, FunctionV, Instr, ProgramV, UnOp};
use crate::liveness::{
    followed, lemma_refs_from, lets_of, nested_mark, refs_of, segmented, segments_of, SegmentV,
};
use crate::names::in_order;
use crate::text::{dec, int_text};
use vstd::prelude::*;

verus! {

/// The program so far.
pub struct CgV {
    pub consts: Seq<ConstV>,
    pub fns: Seq<FunctionV>,
    pub hops: Map<Seq<char>, usize>,
    pub named: Map<Seq<char>, usize>,
    pub server_lets: Seq<(Seq<char>, usize)>,
}

/// The function body being emitted.
pub struct FbV {
    pub name: Seq<char>,
    pub scope: Seq<(Seq<char>, u16)>,
    pub n_locals: u16,
    pub n_caps: u8,
    pub n_params: u8,
    pub code: Seq<Instr>,
}

/// The program, the body, and the counters of the enclosing named function.
pub struct GenV {
    pub cg: CgV,
    pub fb: FbV,
    pub fn_name: Seq<char>,
    pub cast_n: u32,
    pub lambda_n: u32,
}

/// Where `c` stands in `cs` from `i` on, or the length if it does not.
pub open spec fn const_from(cs: Seq<ConstV>, c: ConstV, i: int) -> int
    decreases cs.len() - i,
{
    if i < 0 || i >= cs.len() || cs[i] == c {
        i
    } else {
        const_from(cs, c, i + 1)
    }
}

/// The pool index of `c`.
pub open spec fn const_ix(g: GenV, c: ConstV) -> u32 {
    const_from(g.cg.consts, c, 0) as u32
}

/// The pool holds `c`, once.
pub open spec fn pooled(cg: CgV, c: ConstV) -> CgV {
    if const_from(cg.consts, c, 0) < cg.consts.len() {
        cg
    } else {
        CgV { consts: cg.consts.push(c), ..cg }
    }
}

pub open spec fn with_const(g: GenV, c: ConstV) -> GenV {
    GenV { cg: pooled(g.cg, c), ..g }
}

/// `i` is emitted.
pub open spec fn emitted(g: GenV, i: Instr) -> GenV {
    GenV { fb: FbV { code: g.fb.code.push(i), ..g.fb }, ..g }
}

/// The text `s` is pushed as a constant.
pub open spec fn push_str(g: GenV, s: Seq<char>) -> GenV {
    emitted(with_const(g, ConstV::Str(s)), Instr::Const(const_ix(g, ConstV::Str(s))))
}

/// The pool index of the text `s`.
pub open spec fn str_ix(g: GenV, s: Seq<char>) -> u32 {
    const_ix(g, ConstV::Str(s))
}

pub open spec fn with_str(g: GenV, s: Seq<char>) -> GenV {
    with_const(g, ConstV::Str(s))
}

/// No slot is left for another local.
pub open spec fn full(g: GenV) -> bool {
    g.fb.n_locals == u16::MAX
}

pub open spec fn too_many() -> Seq<char> {
    "too many locals in one function"@
}

/// The next slot is taken by `name`.
pub open spec fn with_local(g: GenV, name: Seq<char>) -> GenV {
    GenV {
        fb: FbV {
            scope: g.fb.scope.push((name, g.fb.n_locals)),
            n_locals: (g.fb.n_locals + 1) as u16,
            ..g.fb
        },
        ..g
    }
}

/// The next slot is taken by a value without a name.
pub open spec fn with_hidden(g: GenV) -> GenV {
    GenV { fb: FbV { n_locals: (g.fb.n_locals + 1) as u16, ..g.fb }, ..g }
}

/// The scope is cut back to its first `n` names.
pub open spec fn cut_scope(g: GenV, n: int) -> GenV {
    GenV {
        fb: FbV {
            scope: if n <= g.fb.scope.len() {
                g.fb.scope.take(n)
            } else {
                g.fb.scope
            },
            ..g.fb
        },
        ..g
    }
}

/// The slot of the innermost local called `name`.
pub open spec fn slot_of(scope: Seq<(Seq<char>, u16)>, name: Seq<char>) -> Option<u16>
    decreases scope.len(),
{
    if scope.len() == 0 {
        None
    } else if scope.last().0 == name {
        Some(scope.last().1)
    } else {
        slot_of(scope.drop_last(), name)
    }
}

/// The names in scope.
pub open spec fn scope_set(scope: Seq<(Seq<char>, u16)>) -> Set<Seq<char>> {
    Set::new(|n: Seq<char>| slot_of(scope, n) is Some)
}

/// A jump by `d`, in place of the jump `i`.
pub open spec fn jump_by(i: Instr, d: i32) -> Instr {
    match i {
        Instr::Jump(_) => Instr::Jump(d),
        Instr::JumpIfFalse(_) => Instr::JumpIfFalse(d),
        Instr::IterNext(_) => Instr::IterNext(d),
        _ => i,
    }
}

/// The jump at `at` leads to the end of the code.
pub open spec fn patched(g: GenV, at: int) -> GenV {
    GenV {
        fb: FbV {
            code: if 0 <= at < g.fb.code.len() {
                g.fb.code.update(at, jump_by(g.fb.code[at], (g.fb.code.len() - at - 1) as i32))
            } else {
                g.fb.code
            },
            ..g.fb
        },
        ..g
    }
}

/// A jump back to `start` is emitted.
pub open spec fn jump_back(g: GenV, start: int) -> GenV {
    emitted(g, Instr::Jump((start - g.fb.code.len() - 1) as i32))
}

/// The finished function.
pub open spec fn function_of(fb: FbV) -> FunctionV {
    FunctionV {
        name: fb.name,
        n_caps: fb.n_caps,
        n_params: fb.n_params,
        n_locals: if fb.n_locals < fb.n_caps + fb.n_params {
            (fb.n_caps + fb.n_params) as u16
        } else {
            fb.n_locals
        },
        code: fb.code,
    }
}

/// An empty body.
pub open spec fn new_body(name: Seq<char>) -> FbV {
    FbV {
        name,
        scope: Seq::empty(),
        n_locals: 0,
        n_caps: 0,
        n_params: 0,
        code: Seq::empty(),
    }
}

/// The body is finished and added to the program; `fb` goes on.
pub open spec fn finished(g: GenV, fb: FbV) -> GenV {
    GenV { cg: CgV { fns: g.cg.fns.push(function_of(g.fb)), ..g.cg }, fb, ..g }
}

/// Locals for `names` in turn.
pub open spec fn with_locals(g: GenV, names: Seq<Seq<char>>, n: int) -> Result<GenV, Seq<char>>
    decreases n,
{
    if n <= 0 || n > names.len() {
        Ok(g)
    } else {
        match with_locals(g, names, n - 1) {
            Err(m) => Err(m),
            Ok(h) => if full(h) {
                Err(too_many())
            } else {
                Ok(with_local(h, names[n - 1]))
            },
        }
    }
}

/// Each of the first `n` names is a local, loaded from the field of that name
/// of the local in `slot`.
pub open spec fn unpacked(g: GenV, slot: u16, names: Seq<Seq<char>>, n: int) -> Result<
    GenV,
    Seq<char>,
>
    decreases n,
{
    if n <= 0 || n > names.len() {
        Ok(g)
    } else {
        match unpacked(g, slot, names, n - 1) {
            Err(m) => Err(m),
            Ok(h) => {
                let name = names[n - 1];
                let a = emitted(h, Instr::LoadLocal(slot));
                let b = emitted(with_str(a, name), Instr::GetField(str_ix(a, name)));
                if full(b) {
                    Err(too_many())
                } else {
                    Ok(emitted(with_local(b, name), Instr::StoreLocal(b.fb.n_locals)))
                }
            },
        }
    }
}

/// The first `n` names and the locals of that name are pushed.
pub open spec fn vars_pushed(g: GenV, names: Seq<Seq<char>>, n: int) -> Result<GenV, Seq<char>>
    decreases n,
{
    if n <= 0 || n > names.len() {
        Ok(g)
    } else {
        match vars_pushed(g, names, n - 1) {
            Err(m) => Err(m),
            Ok(h) => {
                let a = push_str(h, names[n - 1]);
                match slot_of(a.fb.scope, names[n - 1]) {
                    Some(slot) => Ok(emitted(a, Instr::LoadLocal(slot))),
                    None => Err(
                        a.fb.name + ": shipped var "@ + names[n - 1] + " is not in scope"@,
                    ),
                }
            },
        }
    }
}

/// A map of the locals `names` by their names.
pub open spec fn vars_map(g: GenV, names: Set<Seq<char>>) -> Result<GenV, Seq<char>> {
    let s = in_order(names);
    match vars_pushed(g, s, s.len() as int) {
        Err(m) => Err(m),
        Ok(h) => Ok(emitted(h, Instr::MakeMap(s.len() as u16))),
    }
}

/// The first `n` names, which are locals, are pushed.
pub open spec fn loaded(g: GenV, names: Seq<Seq<char>>, n: int) -> GenV
    decreases n,
{
    if n <= 0 || n > names.len() {
        g
    } else {
        let h = loaded(g, names, n - 1);
        match slot_of(h.fb.scope, names[n - 1]) {
            Some(slot) => emitted(h, Instr::LoadLocal(slot)),
            None => h,
        }
    }
}

/// The target of a hop: the server, or the flow's origin.
pub open spec fn hop_target(g: GenV, side: Side) -> GenV {
    match side {
        Side::Server => push_str(g, "server"@),
        Side::Browser => emitted(g, Instr::Session),
    }
}

/// A hop to `id` on `side`, which ships `ship`; its reply is returned.
pub open spec fn hop_to(g: GenV, side: Side, id: Seq<char>, ship: Set<Seq<char>>) -> Result<
    GenV,
    Seq<char>,
> {
    match vars_map(hop_target(g, side), ship) {
        Err(m) => Err(m),
        Ok(h) => Ok(emitted(emitted(with_str(h, id), Instr::At(str_ix(h, id))), Instr::Return)),
    }
}

/// The names in scope at the end of segment `k`.
pub open spec fn scope_end(
    body: Seq<StmtV>,
    segs: Seq<SegmentV>,
    base: Set<Seq<char>>,
    k: int,
) -> Set<Seq<char>>
    decreases k,
{
    if k <= 0 {
        base.union(lets_of(body, segs[0].from, segs[0].to))
    } else {
        refs_of(body, segs[k].from, body.len() as int).intersect(
            scope_end(body, segs, base, k - 1),
        ).union(lets_of(body, segs[k].from, segs[k].to))
    }
}

/// What the hop into segment `k` ships: what the remainder of the body
/// references of the names in scope at the end of the segment before.
pub open spec fn ship_of(
    body: Seq<StmtV>,
    segs: Seq<SegmentV>,
    base: Set<Seq<char>>,
    k: int,
) -> Set<Seq<char>> {
    refs_of(body, segs[k].from, body.len() as int).intersect(scope_end(body, segs, base, k - 1))
}

/// The id of segment `k` of the flow `prefix`.
pub open spec fn segment_id(prefix: Seq<char>, k: int) -> Seq<char> {
    prefix + ":"@ + dec(k as nat)
}

/// What a chained segment leads to: the side, the id and what is shipped.
pub struct ChainV {
    pub side: Side,
    pub id: Seq<char>,
    pub ship: Set<Seq<char>>,
}

/// Code that leaves the value of `e` on the stack.
pub open spec fn low_expr(f: Seq<FactV>, g: GenV, e: ExprV) -> Result<GenV, Seq<char>>
    decreases e, 0int, 0int,
{
    match e {
        ExprV::Num(n) => if n.contains('.') {
            match parsed(f, n) {
                Some(Some(bits)) => {
                    let c = ConstV::Float(bits);
                    Ok(emitted(with_const(g, c), Instr::Const(const_ix(g, c))))
                },
                _ => Err("bad number: "@ + n),
            }
        } else {
            match int_text(n) {
                Some(i) => {
                    let c = ConstV::Int(i);
                    Ok(emitted(with_const(g, c), Instr::Const(const_ix(g, c))))
                },
                None => Err("bad number: "@ + n),
            }
        },
        ExprV::Str(s) => Ok(push_str(g, s)),
        ExprV::Bool(b) => Ok(emitted(g, if b { Instr::True } else { Instr::False })),
        ExprV::Nil => Ok(emitted(g, Instr::Nil)),
        ExprV::Ident(n) => match slot_of(g.fb.scope, n) {
            Some(slot) => Ok(emitted(g, Instr::LoadLocal(slot))),
            None => Ok(emitted(with_str(g, n), Instr::LoadGlobal(str_ix(g, n)))),
        },
        ExprV::Field(b, name) => match low_expr(f, g, *b) {
            Err(m) => Err(m),
            Ok(h) => Ok(emitted(with_str(h, name), Instr::GetField(str_ix(h, name)))),
        },
        ExprV::Index(a, b) => match low_expr(f, g, *a) {
            Err(m) => Err(m),
            Ok(h) => match low_expr(f, h, *b) {
                Err(m) => Err(m),
                Ok(h) => Ok(emitted(h, Instr::GetIndex)),
            },
        },
        ExprV::Call(c, args) => if *c == ExprV::Ident("session"@) && args.len() == 0 {
            Ok(emitted(g, Instr::Session))
        } else if *c == ExprV::Ident("user"@) && args.len() == 0 {
            Ok(emitted(g, Instr::User))
        } else {
            match low_expr(f, g, *c) {
                Err(m) => Err(m),
                Ok(h) => match low_exprs(f, h, args, args.len() as int) {
                    Err(m) => Err(m),
                    Ok(h) => Ok(emitted(h, Instr::Call(args.len() as u8))),
                },
            }
        },
        ExprV::Unary(op, a) => match low_expr(f, g, *a) {
            Err(m) => Err(m),
            Ok(h) => Ok(emitted(h, Instr::UnOp(op))),
        },
        ExprV::Binary(op, a, b) => match low_expr(f, g, *a) {
            Err(m) => Err(m),
            Ok(h) => match op {
                BinaryOp::And => {
                    let j = h.fb.code.len() + 1;
                    let k = emitted(
                        emitted(emitted(h, Instr::Dup), Instr::JumpIfFalse(0)),
                        Instr::Pop,
                    );
                    match low_expr(f, k, *b) {
                        Err(m) => Err(m),
                        Ok(k) => Ok(patched(k, j as int)),
                    }
                },
                BinaryOp::Or => {
                    let j = h.fb.code.len() + 2;
                    let k = emitted(
                        emitted(
                            emitted(emitted(h, Instr::Dup), Instr::UnOp(UnOp::Not)),
                            Instr::JumpIfFalse(0),
                        ),
                        Instr::Pop,
                    );
                    match low_expr(f, k, *b) {
                        Err(m) => Err(m),
                        Ok(k) => Ok(patched(k, j as int)),
                    }
                },
                BinaryOp::Plain(op) => match low_expr(f, h, *b) {
                    Err(m) => Err(m),
                    Ok(k) => Ok(emitted(k, Instr::BinOp(op))),
                },
            },
        },
        ExprV::Table(fs) => match low_fields(f, g, fs, fs.len() as int) {
            Err(m) => Err(m),
            Ok(h) => Ok(emitted(h, Instr::MakeMap(fs.len() as u16))),
        },
        ExprV::Array(xs) => match low_exprs(f, g, xs, xs.len() as int) {
            Err(m) => Err(m),
            Ok(h) => Ok(emitted(h, Instr::MakeArray(xs.len() as u16))),
        },
        ExprV::Fn(params, body) => low_lambda(f, g, params, body),
    }
}

/// Code that leaves the values of the first `n` of `es` on the stack.
pub open spec fn low_exprs(f: Seq<FactV>, g: GenV, es: Seq<ExprV>, n: int) -> Result<
    GenV,
    Seq<char>,
>
    decreases es, 1int, n,
{
    if n <= 0 || n > es.len() {
        Ok(g)
    } else {
        match low_exprs(f, g, es, n - 1) {
            Err(m) => Err(m),
            Ok(h) => low_expr(f, h, es[n - 1]),
        }
    }
}

/// Code that leaves the names and values of the first `n` fields on the stack.
pub open spec fn low_fields(f: Seq<FactV>, g: GenV, fs: Seq<(Seq<char>, ExprV)>, n: int) -> Result<
    GenV,
    Seq<char>,
>
    decreases fs, 1int, n,
{
    if n <= 0 || n > fs.len() {
        Ok(g)
    } else {
        match low_fields(f, g, fs, n - 1) {
            Err(m) => Err(m),
            Ok(h) => low_expr(f, push_str(h, fs[n - 1].0), fs[n - 1].1),
        }
    }
}

/// What a lambda captures: the outer locals that its body references and no
/// parameter hides.
pub open spec fn captures(
    scope: Seq<(Seq<char>, u16)>,
    params: Seq<Seq<char>>,
    body: Seq<StmtV>,
) -> Set<Seq<char>> {
    refs_of(body, 0, body.len() as int).intersect(scope_set(scope)).difference(params.to_set())
}

/// A lambda: its first segment becomes a closure over the captures.
pub open spec fn low_lambda(
    f: Seq<FactV>,
    g: GenV,
    params: Seq<Seq<char>>,
    body: Seq<StmtV>,
) -> Result<GenV, Seq<char>>
    decreases body, 6int, 0int,
{
    let n = next_count(g.lambda_n);
    let prefix = g.fn_name + ":l"@ + dec(n as nat);
    let caps = in_order(captures(g.fb.scope, params, body));
    let fb = FbV {
        n_caps: caps.len() as u8,
        n_params: params.len() as u8,
        ..new_body(prefix)
    };
    let inner = GenV { fb, lambda_n: n, ..g };
    match with_locals(inner, caps, caps.len() as int) {
        Err(m) => Err(m),
        Ok(a) => match with_locals(a, params, params.len() as int) {
            Err(m) => Err(m),
            Ok(b) => match low_flow(f, b, prefix, body) {
                Err(m) => Err(m),
                Ok(c) => {
                    let d = finished(c, g.fb);
                    let ix = c.cg.fns.len();
                    Ok(
                        emitted(
                            loaded(d, caps, caps.len() as int),
                            Instr::Closure(ix as u32, caps.len() as u8),
                        ),
                    )
                },
            },
        },
    }
}

/// The next value of a counter.
pub open spec fn next_count(n: u32) -> u32 {
    if n == u32::MAX {
        0
    } else {
        (n + 1) as u32
    }
}

/// A flow body: its first segment, and a hop into the second where it has
/// marks. The later segments become functions of their own.
pub open spec fn low_flow(f: Seq<FactV>, g: GenV, prefix: Seq<char>, body: Seq<StmtV>) -> Result<
    GenV,
    Seq<char>,
>
    decreases body, 5int, 0int,
{
    match nested_mark(body, 0) {
        Some(m) => Err(m),
        None => match segments_of(body) {
            None => Err(prefix + ": mark to the side already executing"@),
            Some(segs) => match low_stmts(f, g, body, segs[0].from, segs[0].to) {
                Err(m) => Err(m),
                Ok(h) => if segs.len() == 1 {
                    Ok(h)
                } else {
                    let base = scope_set(g.fb.scope);
                    match hop_to(
                        h,
                        segs[1].side,
                        segment_id(prefix, 1),
                        ship_of(body, segs, base, 1),
                    ) {
                        Err(m) => Err(m),
                        Ok(h) => low_segments(f, h, prefix, body, segs, base, segs.len() as int),
                    }
                },
            },
        },
    }
}

/// The segments from the second up to, not including, `n` become functions.
pub open spec fn low_segments(
    f: Seq<FactV>,
    g: GenV,
    prefix: Seq<char>,
    body: Seq<StmtV>,
    segs: Seq<SegmentV>,
    base: Set<Seq<char>>,
    n: int,
) -> Result<GenV, Seq<char>>
    decreases body, 4int, n,
{
    if n <= 1 || n > segs.len() {
        Ok(g)
    } else {
        match low_segments(f, g, prefix, body, segs, base, n - 1) {
            Err(m) => Err(m),
            Ok(h) => low_segment(
                f,
                h,
                segment_id(prefix, n - 1),
                ship_of(body, segs, base, n - 1),
                body,
                segs[n - 1].from,
                segs[n - 1].to,
                if n < segs.len() {
                    Some(
                        ChainV {
                            side: segs[n].side,
                            id: segment_id(prefix, n),
                            ship: ship_of(body, segs, base, n),
                        },
                    )
                } else {
                    None
                },
            ),
        }
    }
}

/// A segment as a function of one parameter, the shipped variables, which are
/// unpacked first. It is registered under `id`.
pub open spec fn low_segment(
    f: Seq<FactV>,
    g: GenV,
    id: Seq<char>,
    ship: Set<Seq<char>>,
    body: Seq<StmtV>,
    from: int,
    to: int,
    chain: Option<ChainV>,
) -> Result<GenV, Seq<char>>
    decreases body, 3int, 0int,
{
    let names = in_order(ship);
    let fb = FbV { n_params: 1, ..new_body(id) };
    let a = with_local(GenV { fb, ..g }, "__vars"@);
    match unpacked(a, 0, names, names.len() as int) {
        Err(m) => Err(m),
        Ok(b) => match low_stmts(f, b, body, from, to) {
            Err(m) => Err(m),
            Ok(c) => {
                let d = match chain {
                    None => Ok(c),
                    Some(ch) => hop_to(c, ch.side, ch.id, ch.ship),
                };
                match d {
                    Err(m) => Err(m),
                    Ok(d) => {
                        let e = finished(d, g.fb);
                        Ok(
                            GenV {
                                cg: CgV {
                                    hops: e.cg.hops.insert(id, d.cg.fns.len() as usize),
                                    ..e.cg
                                },
                                ..e
                            },
                        )
                    },
                }
            },
        },
    }
}

/// The statements from `from` up to `to`.
pub open spec fn low_stmts(f: Seq<FactV>, g: GenV, ss: Seq<StmtV>, from: int, to: int) -> Result<
    GenV,
    Seq<char>,
>
    decreases ss, 1int, to - from,
{
    if from < 0 || to <= from || to > ss.len() {
        Ok(g)
    } else {
        match low_stmts(f, g, ss, from, to - 1) {
            Err(m) => Err(m),
            Ok(h) => low_stmt(f, h, ss[to - 1]),
        }
    }
}

/// The statements of a block; its locals go out of scope at its end.
pub open spec fn low_block(f: Seq<FactV>, g: GenV, ss: Seq<StmtV>) -> Result<GenV, Seq<char>>
    decreases ss, 2int, 0int,
{
    match low_stmts(f, g, ss, 0, ss.len() as int) {
        Err(m) => Err(m),
        Ok(h) => Ok(cut_scope(h, g.fb.scope.len() as int)),
    }
}

/// The arms up to `n` of a `match` on the subject in `subj`, whose tag is in
/// `tag`, and the places of the jumps behind the arms.
pub open spec fn low_arms(
    f: Seq<FactV>,
    g: GenV,
    subj: u16,
    tag: u16,
    arms: Seq<MatchArmV>,
    n: int,
) -> Result<(GenV, Seq<int>), Seq<char>>
    decreases arms, 1int, n,
{
    if n <= 0 || n > arms.len() {
        Ok((g, Seq::empty()))
    } else {
        match low_arms(f, g, subj, tag, arms, n - 1) {
            Err(m) => Err(m),
            Ok((h, ends)) => match arms[n - 1].tag {
                None => match low_block(f, h, arms[n - 1].body) {
                    Err(m) => Err(m),
                    Ok(k) => Ok((k, ends)),
                },
                Some(name) => {
                    let mark = h.fb.scope.len() as int;
                    let a = push_str(emitted(h, Instr::LoadLocal(tag)), name);
                    let b = emitted(a, Instr::BinOp(BinOp::Eq));
                    let next = b.fb.code.len() as int;
                    let c = emitted(b, Instr::JumpIfFalse(0));
                    match unpacked(c, subj, arms[n - 1].fields, arms[n - 1].fields.len() as int) {
                        Err(m) => Err(m),
                        Ok(d) => match low_stmts(
                            f,
                            d,
                            arms[n - 1].body,
                            0,
                            arms[n - 1].body.len() as int,
                        ) {
                            Err(m) => Err(m),
                            Ok(e) => {
                                let e = cut_scope(e, mark);
                                let end = e.fb.code.len() as int;
                                Ok(
                                    (
                                        patched(emitted(e, Instr::Jump(0)), next),
                                        ends.push(end),
                                    ),
                                )
                            },
                        },
                    }
                },
            },
        }
    }
}

/// The first `n` of the jumps at `ends` lead to the end of the code.
pub open spec fn all_patched(g: GenV, ends: Seq<int>, n: int) -> GenV
    decreases n,
{
    if n <= 0 || n > ends.len() {
        g
    } else {
        patched(all_patched(g, ends, n - 1), ends[n - 1])
    }
}

/// The code of one statement.
pub open spec fn low_stmt(f: Seq<FactV>, g: GenV, s: StmtV) -> Result<GenV, Seq<char>>
    decreases s, 0int, 0int,
{
    match s {
        StmtV::Let(n, e) => match low_expr(f, g, e) {
            Err(m) => Err(m),
            Ok(h) => if full(h) {
                Err(too_many())
            } else {
                Ok(emitted(with_local(h, n), Instr::StoreLocal(h.fb.n_locals)))
            },
        },
        StmtV::Assign(l, r) => match l {
            ExprV::Ident(n) => match low_expr(f, g, r) {
                Err(m) => Err(m),
                Ok(h) => match slot_of(h.fb.scope, n) {
                    Some(slot) => Ok(emitted(h, Instr::StoreLocal(slot))),
                    None => Ok(emitted(with_str(h, n), Instr::StoreGlobal(str_ix(h, n)))),
                },
            },
            ExprV::Field(b, name) => match low_expr(f, g, *b) {
                Err(m) => Err(m),
                Ok(h) => match low_expr(f, h, r) {
                    Err(m) => Err(m),
                    Ok(k) => Ok(emitted(with_str(k, name), Instr::SetField(str_ix(k, name)))),
                },
            },
            ExprV::Index(a, i) => match low_expr(f, g, *a) {
                Err(m) => Err(m),
                Ok(h) => match low_expr(f, h, *i) {
                    Err(m) => Err(m),
                    Ok(k) => match low_expr(f, k, r) {
                        Err(m) => Err(m),
                        Ok(k) => Ok(emitted(k, Instr::SetIndex)),
                    },
                },
            },
            _ => Err("invalid assignment target"@),
        },
        StmtV::Return(e) => match e {
            Some(e) => match low_expr(f, g, e) {
                Err(m) => Err(m),
                Ok(h) => Ok(emitted(h, Instr::Return)),
            },
            None => Ok(emitted(emitted(g, Instr::Nil), Instr::Return)),
        },
        StmtV::If(c, yes, no) => match low_expr(f, g, c) {
            Err(m) => Err(m),
            Ok(h) => {
                let j = h.fb.code.len() as int;
                match low_block(f, emitted(h, Instr::JumpIfFalse(0)), yes) {
                    Err(m) => Err(m),
                    Ok(k) => match no {
                        None => Ok(patched(k, j)),
                        Some(no) => {
                            let end = k.fb.code.len() as int;
                            match low_block(f, patched(emitted(k, Instr::Jump(0)), j), no) {
                                Err(m) => Err(m),
                                Ok(l) => Ok(patched(l, end)),
                            }
                        },
                    },
                }
            },
        },
        StmtV::Match(subject, arms) => match low_expr(f, g, subject) {
            Err(m) => Err(m),
            Ok(h) => if full(h) {
                Err(too_many())
            } else {
                let subj = h.fb.n_locals;
                let a = emitted(with_hidden(h), Instr::StoreLocal(subj));
                let b = emitted(with_str(a, "type"@), Instr::LoadLocal(subj));
                let c = emitted(b, Instr::GetField(str_ix(a, "type"@)));
                if full(c) {
                    Err(too_many())
                } else {
                    let tag = c.fb.n_locals;
                    let d = emitted(with_hidden(c), Instr::StoreLocal(tag));
                    match low_arms(f, d, subj, tag, arms, arms.len() as int) {
                        Err(m) => Err(m),
                        Ok((e, ends)) => Ok(all_patched(e, ends, ends.len() as int)),
                    }
                }
            },
        },
        StmtV::For(k, v, e, body) => match low_expr(f, g, e) {
            Err(m) => Err(m),
            Ok(h) => if h.fb.n_locals > u16::MAX - 4 {
                Err(too_many())
            } else {
                let iter = h.fb.n_locals;
                let idx = (iter + 1) as u16;
                let mark = h.fb.scope.len() as int;
                let a = emitted(emitted(h, Instr::IterNew), Instr::StoreLocal(iter));
                let zero = ConstV::Int(0);
                let b = emitted(
                    emitted(
                        with_const(with_hidden(a), zero),
                        Instr::Const(const_ix(a, zero)),
                    ),
                    Instr::StoreLocal(idx),
                );
                let c = with_local(with_local(with_hidden(b), k), v);
                let start = c.fb.code.len() as int;
                let d = emitted(
                    emitted(emitted(c, Instr::LoadLocal(iter)), Instr::LoadLocal(idx)),
                    Instr::IterNext(0),
                );
                let l = emitted(
                    emitted(
                        emitted(
                            emitted(d, Instr::StoreLocal((iter + 3) as u16)),
                            Instr::StoreLocal((iter + 2) as u16),
                        ),
                        Instr::StoreLocal(idx),
                    ),
                    Instr::StoreLocal(iter),
                );
                match low_stmts(f, l, body, 0, body.len() as int) {
                    Err(m) => Err(m),
                    Ok(n) => Ok(cut_scope(patched(jump_back(n, start), start + 2), mark)),
                }
            },
        },
        StmtV::While(c, body) => {
            let start = g.fb.code.len() as int;
            match low_expr(f, g, c) {
                Err(m) => Err(m),
                Ok(h) => {
                    let j = h.fb.code.len() as int;
                    match low_block(f, emitted(h, Instr::JumpIfFalse(0)), body) {
                        Err(m) => Err(m),
                        Ok(k) => Ok(patched(jump_back(k, start), j)),
                    }
                },
            }
        },
        StmtV::Mark(_) => Ok(g),
        StmtV::Cast(target, body) => {
            let n = next_count(g.cast_n);
            let id = g.fn_name + ":c"@ + dec(n as nat);
            let captured = refs_of(body, 0, body.len() as int).intersect(scope_set(g.fb.scope));
            match low_segment(
                f,
                GenV { cast_n: n, ..g },
                id,
                captured,
                body,
                0,
                body.len() as int,
                None,
            ) {
                Err(m) => Err(m),
                Ok(h) => match low_target(f, h, target) {
                    Err(m) => Err(m),
                    Ok(k) => match vars_map(k, captured) {
                        Err(m) => Err(m),
                        Ok(l) => Ok(emitted(with_str(l, id), Instr::Cast(str_ix(l, id)))),
                    },
                },
            }
        },
        StmtV::Spawn(e) => match e {
            ExprV::Call(c, args) => match low_expr(f, g, *c) {
                Err(m) => Err(m),
                Ok(h) => match low_exprs(f, h, args, args.len() as int) {
                    Err(m) => Err(m),
                    Ok(k) => Ok(
                        emitted(emitted(k, Instr::MakeArray(args.len() as u16)), Instr::Spawn),
                    ),
                },
            },
            _ => Err("spawn expects a function call"@),
        },
        StmtV::Expr(e) => match low_expr(f, g, e) {
            Err(m) => Err(m),
            Ok(h) => Ok(emitted(h, Instr::Pop)),
        },
    }
}

/// The address that a cast goes to.
pub open spec fn low_target(f: Seq<FactV>, g: GenV, t: CastTargetV) -> Result<GenV, Seq<char>>
    decreases t, 0int, 0int,
{
    match t {
        CastTargetV::Browsers => Ok(push_str(g, "browsers"@)),
        CastTargetV::Server => Ok(push_str(g, "server"@)),
        CastTargetV::Session(e) => low_expr(f, g, e),
        CastTargetV::User(e) => match low_expr(f, push_str(g, "user:"@), e) {
            Err(m) => Err(m),
            Ok(h) => Ok(emitted(h, Instr::BinOp(BinOp::Concat))),
        },
    }
}

pub open spec fn no_program() -> CgV {
    CgV {
        consts: Seq::empty(),
        fns: Seq::empty(),
        hops: Map::empty(),
        named: Map::empty(),
        server_lets: Seq::empty(),
    }
}

pub open spec fn fresh(cg: CgV, name: Seq<char>) -> GenV {
    GenV { cg, fb: new_body(name), fn_name: name, cast_n: 0, lambda_n: 0 }
}

/// One item: a thunk for a `server let`, or a named function.
pub open spec fn low_item(f: Seq<FactV>, cg: CgV, item: ItemV) -> Result<CgV, Seq<char>> {
    match item {
        ItemV::ServerLet(name, e) => match low_expr(f, fresh(cg, "let:"@ + name), e) {
            Err(m) => Err(m),
            Ok(h) => {
                let k = finished(emitted(h, Instr::Return), h.fb);
                Ok(
                    CgV {
                        server_lets: k.cg.server_lets.push((name, h.cg.fns.len() as usize)),
                        ..k.cg
                    },
                )
            },
        },
        ItemV::Fn(name, params, body) => {
            let g = fresh(cg, name);
            let a = GenV { fb: FbV { n_params: params.len() as u8, ..g.fb }, ..g };
            match with_locals(a, params, params.len() as int) {
                Err(m) => Err(m),
                Ok(b) => match low_flow(f, b, name, body) {
                    Err(m) => Err(m),
                    Ok(h) => {
                        let k = finished(h, h.fb);
                        Ok(
                            CgV {
                                named: k.cg.named.insert(name, h.cg.fns.len() as usize),
                                ..k.cg
                            },
                        )
                    },
                },
            }
        },
    }
}

/// The first `n` items.
pub open spec fn low_items(f: Seq<FactV>, items: Seq<ItemV>, n: int) -> Result<CgV, Seq<char>>
    decreases n,
{
    if n <= 0 || n > items.len() {
        Ok(no_program())
    } else {
        match low_items(f, items, n - 1) {
            Err(m) => Err(m),
            Ok(cg) => low_item(f, cg, items[n - 1]),
        }
    }
}

pub open spec fn program_of(cg: CgV) -> ProgramV {
    ProgramV {
        consts: cg.consts,
        fns: cg.fns,
        hops: cg.hops,
        named: cg.named,
        server_lets: cg.server_lets,
    }
}

/// A hop ships what is live, and no more: what the rest of the body references,
/// of the names that were in scope before the mark; of those, what the segment
/// before does not bind has come in with the hop before.
pub proof fn law_hops_ship_what_is_live(
    body: Seq<StmtV>,
    segs: Seq<SegmentV>,
    base: Set<Seq<char>>,
    k: int,
)
    requires
        1 <= k < segs.len(),
    ensures
        forall|n: Seq<char>| #[trigger]
            ship_of(body, segs, base, k).contains(n) <==> {
                &&& refs_of(body, segs[k].from, body.len() as int).contains(n)
                &&& lets_of(body, segs[k - 1].from, segs[k - 1].to).contains(n) || if k == 1 {
                    base.contains(n)
                } else {
                    ship_of(body, segs, base, k - 1).contains(n)
                }
            },
{
}

/// What the last segments use rides through all hops before them: a parameter
/// that is referenced from segment `k` on is shipped by every hop up to it.
pub proof fn law_live_names_pass_through(
    body: Seq<StmtV>,
    segs: Seq<SegmentV>,
    base: Set<Seq<char>>,
    n: Seq<char>,
    j: int,
    k: int,
)
    requires
        segmented(body, segs, Side::Browser, 0),
        1 <= j <= k < segs.len(),
        base.contains(n),
        refs_of(body, segs[k].from, body.len() as int).contains(n),
    ensures
        ship_of(body, segs, base, j).contains(n),
    decreases j,
{
    lemma_from_ascends(body, segs, 0, j);
    lemma_from_ascends(body, segs, j, k);
    lemma_refs_from(body, segs[j].from, segs[k].from, body.len() as int);
    if j > 1 {
        law_live_names_pass_through(body, segs, base, n, j - 1, k);
    }
}

proof fn lemma_from_ascends(body: Seq<StmtV>, segs: Seq<SegmentV>, j: int, k: int)
    requires
        segmented(body, segs, Side::Browser, 0),
        0 <= j <= k < segs.len(),
    ensures
        segs[j].from <= segs[k].from,
    decreases k - j,
{
    if j < k {
        lemma_from_ascends(body, segs, j, k - 1);
        assert(followed(body, segs, k - 1));
        assert(segs[k - 1].from <= segs[k - 1].to);
    }
}

} // verus!
