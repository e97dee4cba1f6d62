//! What every state of a machine keeps: a value is never NaN and is held by a
//! cell of its kind, and the keys of maps are scalars, in order, none twice.

use crate::crossing::{
    law_values_cross_as_copies, lemma_load_grows, lemma_load_items_grow, lemma_load_pairs_grow,
    number, tidy, tidy_entries,
};
use crate::data::DataV;
use crate::float::FactV;
use crate::ir::{BinOp, ConstV, Instr, ProgramV, UnOp};
use crate::keys::{lemma_del_tidy, lemma_flip, lemma_place, lemma_put_tidy};
use crate::machine::{
    act, arg, assigned, bin_op, call_native, closure_frame, do_call, do_iter_new, dropped,
    field_set, indexed, leave, map_of, named_list, nav_where, new_frame, next_cell, pair_cells,
    pairs_of, peek, pushed, record_shape, shape, sort_keys, sort_place, sorted, step, store_field,
    tagged_list, tail, un_op, up_to, with_cell, Act, Env, FrameV, Got, HostCallV, Nat, OutcomeV,
    StateV,
};
use crate::value::{
    array_at, closure_at, compare, entry_del, entry_get, entry_place, entry_put, field_of,
    field_place, has_entry, is_nan, is_scalar, key_rel, map_at, negated, rank_of, scalar, str_at,
    tagged_at, CellV, NativeId, Rel, TryV, Value,
};
use crate::wire::{data_of, loaded, loaded_items, loaded_pairs, TAG_GENERIC};
use vstd::prelude::*;

verus! {

/// The value is no NaN, and where a cell holds it, it is of its kind.
pub open spec fn good(h: Seq<CellV>, v: Value) -> bool {
    match v {
        Value::Float(b) => !is_nan(b),
        Value::Str(i) => i < h.len() && h[i as int] is Str,
        Value::Bytes(i) => i < h.len() && h[i as int] is Bytes,
        Value::Array(i) => i < h.len() && h[i as int] is Array,
        Value::Dict(i) => i < h.len() && h[i as int] is Dict,
        Value::Tagged(i) => i < h.len() && h[i as int] is Tagged,
        Value::Closure(i) => i < h.len() && h[i as int] is Closure,
        _ => true,
    }
}

/// All values are good.
pub open spec fn goods(h: Seq<CellV>, xs: Seq<Value>) -> bool {
    forall|i: int| 0 <= i < xs.len() ==> good(h, #[trigger] xs[i])
}

/// The keys and values of all entries are good.
pub open spec fn good_entries(h: Seq<CellV>, m: Seq<(Value, Value)>) -> bool {
    forall|i: int| 0 <= i < m.len() ==> good(h, (#[trigger] m[i]).0) && good(h, m[i].1)
}

/// What the cell holds is good, and a map has its keys in order.
pub open spec fn good_cell(h: Seq<CellV>, c: CellV) -> bool {
    match c {
        CellV::Array(xs) => goods(h, xs),
        CellV::Dict(m) => good_entries(h, m) && tidy_entries(h, m),
        CellV::Tagged(_, p) => good(h, p),
        CellV::Closure(_, caps) => goods(h, caps),
        _ => true,
    }
}

/// All cells are good.
pub open spec fn sound(h: Seq<CellV>) -> bool {
    forall|i: int| 0 <= i < h.len() ==> good_cell(h, #[trigger] h[i])
}

/// The cell `d` can stand where `c` stood: only arrays and maps change.
pub open spec fn succeeds(c: CellV, d: CellV) -> bool {
    c is Array && d is Array || c is Dict && d is Dict || d == c
}

/// `g` is `h` later on: cells are added, and arrays and maps may change.
pub open spec fn evolves(h: Seq<CellV>, g: Seq<CellV>) -> bool {
    &&& h.len() <= g.len()
    &&& forall|i: int| 0 <= i < h.len() ==> succeeds(h[i], #[trigger] g[i])
}

proof fn lemma_evolves_trans(a: Seq<CellV>, b: Seq<CellV>, c: Seq<CellV>)
    requires
        evolves(a, b),
        evolves(b, c),
    ensures
        evolves(a, c),
{
    assert forall|i: int| 0 <= i < a.len() implies succeeds(a[i], #[trigger] c[i]) by {
        assert(succeeds(a[i], b[i]));
        assert(succeeds(b[i], c[i]));
    }
}

proof fn lemma_good(h: Seq<CellV>, g: Seq<CellV>, v: Value)
    requires
        evolves(h, g),
        good(h, v),
    ensures
        good(g, v),
{
    let i = match v {
        Value::Str(i) => i as int,
        Value::Bytes(i) => i as int,
        Value::Array(i) => i as int,
        Value::Dict(i) => i as int,
        Value::Tagged(i) => i as int,
        Value::Closure(i) => i as int,
        _ => -1,
    };
    if i >= 0 {
        assert(succeeds(h[i], g[i]));
    }
}

proof fn lemma_goods(h: Seq<CellV>, g: Seq<CellV>, xs: Seq<Value>)
    requires
        evolves(h, g),
        goods(h, xs),
    ensures
        goods(g, xs),
{
    assert forall|i: int| 0 <= i < xs.len() implies good(g, #[trigger] xs[i]) by {
        lemma_good(h, g, xs[i]);
    }
}

proof fn lemma_scalar(h: Seq<CellV>, g: Seq<CellV>, d: nat, e: nat, v: Value)
    requires
        sound(h),
        evolves(h, g),
        good(h, v),
        d <= e,
        scalar(h, d, v),
    ensures
        scalar(g, e, v),
    decreases d,
{
    if let Value::Tagged(t) = v {
        assert(succeeds(h[t as int], g[t as int]));
        assert(good_cell(h, h[t as int]));
        lemma_scalar(h, g, (d - 1) as nat, (e - 1) as nat, tagged_at(h, t).1);
    }
}

proof fn lemma_compare(h: Seq<CellV>, g: Seq<CellV>, d: nat, e: nat, a: Value, b: Value)
    requires
        sound(h),
        evolves(h, g),
        good(h, a),
        good(h, b),
        d <= e,
        scalar(h, d, a),
        scalar(h, d, b),
    ensures
        compare(g, e, a, b) == compare(h, d, a, b),
    decreases d,
{
    if rank_of(a) == rank_of(b) {
        match (a, b) {
            (Value::Str(x), Value::Str(y)) => {
                assert(succeeds(h[x as int], g[x as int]));
                assert(succeeds(h[y as int], g[y as int]));
            },
            (Value::Bytes(x), Value::Bytes(y)) => {
                assert(succeeds(h[x as int], g[x as int]));
                assert(succeeds(h[y as int], g[y as int]));
            },
            (Value::Tagged(x), Value::Tagged(y)) => {
                assert(succeeds(h[x as int], g[x as int]));
                assert(succeeds(h[y as int], g[y as int]));
                assert(good_cell(h, h[x as int]));
                assert(good_cell(h, h[y as int]));
                lemma_compare(
                    h,
                    g,
                    (d - 1) as nat,
                    (e - 1) as nat,
                    tagged_at(h, x).1,
                    tagged_at(h, y).1,
                );
            },
            _ => {},
        }
    }
}

proof fn lemma_tidy(h: Seq<CellV>, g: Seq<CellV>, m: Seq<(Value, Value)>)
    requires
        sound(h),
        evolves(h, g),
        good_entries(h, m),
        tidy_entries(h, m),
    ensures
        tidy_entries(g, m),
        good_entries(g, m),
{
    assert forall|i: int| 0 <= i < m.len() implies is_scalar(g, (#[trigger] m[i]).0) && number(
        m[i].0,
    ) && number(m[i].1) by {
        assert(is_scalar(h, m[i].0) && number(m[i].0) && number(m[i].1));
        lemma_scalar(h, g, h.len(), g.len(), m[i].0);
    }
    assert forall|i: int, j: int| 0 <= i < j < m.len() implies key_rel(
        g,
        #[trigger] m[i].0,
        #[trigger] m[j].0,
    ) == Rel::Less by {
        assert(key_rel(h, m[i].0, m[j].0) == Rel::Less);
        assert(is_scalar(h, m[i].0) && is_scalar(h, m[j].0));
        lemma_flip(h, h.len(), m[i].0, m[j].0);
        lemma_compare(h, g, h.len(), g.len(), m[i].0, m[j].0);
    }
    assert forall|i: int| 0 <= i < m.len() implies good(g, (#[trigger] m[i]).0) && good(
        g,
        m[i].1,
    ) by {
        lemma_good(h, g, m[i].0);
        lemma_good(h, g, m[i].1);
    }
}

proof fn lemma_cell(h: Seq<CellV>, g: Seq<CellV>, c: CellV)
    requires
        sound(h),
        evolves(h, g),
        good_cell(h, c),
    ensures
        good_cell(g, c),
{
    match c {
        CellV::Array(xs) => {
            lemma_goods(h, g, xs);
        },
        CellV::Dict(m) => {
            lemma_tidy(h, g, m);
        },
        CellV::Tagged(_, p) => {
            lemma_good(h, g, p);
        },
        CellV::Closure(_, caps) => {
            lemma_goods(h, g, caps);
        },
        _ => {},
    }
}

/// New cells that hold what was there leave the cells sound.
proof fn lemma_more(h: Seq<CellV>, cs: Seq<CellV>)
    requires
        sound(h),
        forall|i: int| 0 <= i < cs.len() ==> good_cell(h, #[trigger] cs[i]),
    ensures
        sound(h + cs),
        evolves(h, h + cs),
{
    let g = h + cs;
    assert(evolves(h, g)) by {
        assert forall|i: int| 0 <= i < h.len() implies succeeds(h[i], #[trigger] g[i]) by {}
    }
    assert forall|i: int| 0 <= i < g.len() implies good_cell(g, #[trigger] g[i]) by {
        if i < h.len() {
            assert(good_cell(h, h[i]));
            lemma_cell(h, g, h[i]);
        } else {
            assert(g[i] == cs[i - h.len()]);
            lemma_cell(h, g, cs[i - h.len()]);
        }
    }
}

proof fn lemma_push(h: Seq<CellV>, c: CellV)
    requires
        sound(h),
        good_cell(h, c),
    ensures
        sound(h.push(c)),
        evolves(h, h.push(c)),
        h.push(c)[h.len() as int] == c,
{
    lemma_more(h, seq![c]);
    assert(h + seq![c] =~= h.push(c));
}

/// A change of an array or a map to what is good leaves the cells sound.
proof fn lemma_set(h: Seq<CellV>, i: usize, c: CellV)
    requires
        sound(h),
        i < h.len(),
        h[i as int] is Array && c is Array || h[i as int] is Dict && c is Dict,
        good_cell(h, c),
    ensures
        sound(with_cell(h, i, c)),
        evolves(h, with_cell(h, i, c)),
{
    let g = with_cell(h, i, c);
    assert(evolves(h, g)) by {
        assert forall|j: int| 0 <= j < h.len() implies succeeds(h[j], #[trigger] g[j]) by {}
    }
    assert forall|j: int| 0 <= j < g.len() implies good_cell(g, #[trigger] g[j]) by {
        if j == i {
            lemma_cell(h, g, c);
        } else {
            assert(good_cell(h, h[j]));
            lemma_cell(h, g, h[j]);
        }
    }
}

proof fn lemma_items(h: Seq<CellV>, i: usize)
    requires
        sound(h),
    ensures
        goods(h, array_at(h, i)),
        good_entries(h, map_at(h, i)),
        tidy_entries(h, map_at(h, i)),
{
    if i < h.len() {
        assert(good_cell(h, h[i as int]));
    }
}

proof fn lemma_put(h: Seq<CellV>, m: Seq<(Value, Value)>, k: Value, v: Value)
    requires
        good_entries(h, m),
        tidy_entries(h, m),
        good(h, k),
        good(h, v),
        is_scalar(h, k),
    ensures
        good_entries(h, entry_put(h, m, k, v)),
        tidy_entries(h, entry_put(h, m, k, v)),
{
    lemma_put_tidy(h, m, k, v);
    lemma_place(h, m, k, 0);
    let n = entry_put(h, m, k, v);
    let p = entry_place(h, m, k, 0);
    assert forall|i: int| 0 <= i < n.len() implies good(h, (#[trigger] n[i]).0) && good(
        h,
        n[i].1,
    ) by {
        if has_entry(h, m, k) {
            assert(good(h, m[i].0) && good(h, m[i].1));
        } else if i < p {
            assert(n[i] == m[i]);
        } else if i > p {
            assert(n[i] == m[i - 1]);
        }
    }
}

proof fn lemma_del(h: Seq<CellV>, m: Seq<(Value, Value)>, k: Value)
    requires
        good_entries(h, m),
        tidy_entries(h, m),
    ensures
        good_entries(h, entry_del(h, m, k)),
        tidy_entries(h, entry_del(h, m, k)),
{
    lemma_del_tidy(h, m, k);
    lemma_place(h, m, k, 0);
    let n = entry_del(h, m, k);
    let p = entry_place(h, m, k, 0);
    assert forall|i: int| 0 <= i < n.len() implies good(h, (#[trigger] n[i]).0) && good(
        h,
        n[i].1,
    ) by {
        if has_entry(h, m, k) {
            let x = if i < p { i } else { i + 1 };
            assert(n[i] == m[x]);
            assert(good(h, m[x].0) && good(h, m[x].1));
        } else {
            assert(n[i] == m[i]);
        }
    }
}

/// What a map gives is good.
proof fn lemma_get(h: Seq<CellV>, m: Seq<(Value, Value)>, k: Value)
    requires
        good_entries(h, m),
    ensures
        good(h, entry_get(h, m, k)),
{
    lemma_place(h, m, k, 0);
    if has_entry(h, m, k) {
        let e = m[entry_place(h, m, k, 0)];
    }
}

proof fn lemma_field_place(h: Seq<CellV>, m: Seq<(Value, Value)>, name: Seq<char>, i: int)
    requires
        0 <= i <= m.len(),
    ensures
        i <= field_place(h, m, name, i) <= m.len(),
    decreases m.len() - i,
{
    if i < m.len() {
        lemma_field_place(h, m, name, i + 1);
    }
}

proof fn lemma_field(h: Seq<CellV>, v: Value, name: Seq<char>)
    requires
        sound(h),
    ensures
        good(h, field_of(h, v, name)),
{
    if let Value::Dict(i) = v {
        let m = map_at(h, i);
        lemma_items(h, i);
        lemma_field_place(h, m, name, 0);
        let j = field_place(h, m, name, 0);
        if j < m.len() {
            let e = m[j];
        }
    }
}

/// The frame holds good values only.
pub open spec fn good_frame(h: Seq<CellV>, fr: FrameV) -> bool {
    goods(h, fr.locals) && goods(h, fr.stack)
}

/// The globals are good.
pub open spec fn good_globals(h: Seq<CellV>, g: Map<Seq<char>, Value>) -> bool {
    forall|n: Seq<char>| #[trigger] g.contains_key(n) ==> good(h, g[n])
}

/// What an instruction works on is sound.
pub open spec fn sound_env(e: Env) -> bool {
    sound(e.h) && good_globals(e.h, e.g) && good_frame(e.h, e.fr)
}

/// What is handed to the host is good.
pub open spec fn good_call(h: Seq<CellV>, c: HostCallV) -> bool {
    match c {
        HostCallV::Cast { target, vars, .. } => good(h, target) && good(h, vars),
        HostCallV::Spawn { callee, args } => good(h, callee) && goods(h, args),
        HostCallV::Native(_, args) => goods(h, args),
        HostCallV::Lib(_, args) => goods(h, args),
        _ => true,
    }
}

/// What an outcome carries is good.
pub open spec fn good_outcome(h: Seq<CellV>, o: OutcomeV) -> bool {
    match o {
        OutcomeV::Done(v) => good(h, v),
        OutcomeV::Suspend { target, vars, .. } => good(h, target) && good(h, vars),
        OutcomeV::Host(c) => good_call(h, c),
        _ => true,
    }
}

/// What an instruction did is sound, and the cells are the earlier ones later on.
pub open spec fn sound_act(h: Seq<CellV>, a: Act) -> bool {
    match a {
        Act::Go(n) => sound_env(n) && evolves(h, n.h),
        Act::Enter(n, top) => sound_env(n) && evolves(h, n.h) && good_frame(n.h, top),
        Act::Leave(v) => good(h, v),
        Act::Stop(n, o) => sound_env(n) && evolves(h, n.h) && good_outcome(n.h, o),
        _ => true,
    }
}

/// How many cells there are once an instruction is done.
pub open spec fn cells_of(h: Seq<CellV>, a: Act) -> nat {
    match a {
        Act::Go(n) => n.h.len(),
        Act::Enter(n, _) => n.h.len(),
        Act::Stop(n, _) => n.h.len(),
        _ => h.len(),
    }
}

proof fn lemma_env(e: Env, g: Seq<CellV>, fr: FrameV)
    requires
        sound_env(e),
        evolves(e.h, g),
        sound(g),
        good_frame(g, fr),
    ensures
        sound_env(Env { h: g, fr, ..e }),
{
    assert forall|n: Seq<char>| #[trigger] e.g.contains_key(n) implies good(g, e.g[n]) by {
        lemma_good(e.h, g, e.g[n]);
    }
}

proof fn lemma_same(h: Seq<CellV>)
    ensures
        evolves(h, h),
{
}

proof fn lemma_pushed(h: Seq<CellV>, fr: FrameV, v: Value)
    requires
        good_frame(h, fr),
        good(h, v),
    ensures
        good_frame(h, pushed(fr, v)),
{
    let xs = fr.stack.push(v);
    assert forall|i: int| 0 <= i < xs.len() implies good(h, #[trigger] xs[i]) by {
        if i < fr.stack.len() {
            assert(xs[i] == fr.stack[i]);
        }
    }
}

proof fn lemma_dropped(h: Seq<CellV>, fr: FrameV, n: int)
    requires
        good_frame(h, fr),
        0 <= n <= fr.stack.len(),
    ensures
        good_frame(h, dropped(fr, n)),
{
    let xs = fr.stack.take(fr.stack.len() - n);
    assert forall|i: int| 0 <= i < xs.len() implies good(h, #[trigger] xs[i]) by {
        assert(xs[i] == fr.stack[i]);
    }
}

proof fn lemma_tail(h: Seq<CellV>, fr: FrameV, n: int)
    requires
        good_frame(h, fr),
        0 <= n,
    ensures
        goods(h, tail(fr, n)),
        0 <= up_to(fr, n) <= fr.stack.len(),
{
    let xs = tail(fr, n);
    assert forall|i: int| 0 <= i < xs.len() implies good(h, #[trigger] xs[i]) by {
        assert(xs[i] == fr.stack[fr.stack.len() - up_to(fr, n) + i]);
    }
}

proof fn lemma_frame(h: Seq<CellV>, g: Seq<CellV>, fr: FrameV)
    requires
        evolves(h, g),
        good_frame(h, fr),
    ensures
        good_frame(g, fr),
{
    lemma_goods(h, g, fr.locals);
    lemma_goods(h, g, fr.stack);
}

/// A value goes on the stack.
proof fn lemma_give(e: Env, fr: FrameV, v: Value)
    requires
        sound_env(e),
        good_frame(e.h, fr),
        good(e.h, v),
    ensures
        sound_act(e.h, Act::Go(Env { fr: pushed(fr, v), ..e })),
{
    lemma_pushed(e.h, fr, v);
    lemma_same(e.h);
}

/// A new cell is made, and a value in it goes on the stack.
proof fn lemma_give_new(e: Env, fr: FrameV, c: CellV, v: Value)
    requires
        sound_env(e),
        good_frame(e.h, fr),
        good_cell(e.h, c),
        good(e.h.push(c), v),
    ensures
        sound_act(e.h, Act::Go(Env { h: e.h.push(c), fr: pushed(fr, v), ..e })),
{
    let g = e.h.push(c);
    lemma_push(e.h, c);
    lemma_frame(e.h, g, fr);
    lemma_pushed(g, fr, v);
    lemma_env(e, g, pushed(fr, v));
}

/// The heap is another, later one, and a value goes on the stack.
proof fn lemma_give_on(e: Env, g: Seq<CellV>, fr: FrameV, v: Value)
    requires
        sound_env(e),
        sound(g),
        evolves(e.h, g),
        good_frame(e.h, fr),
        good(g, v),
    ensures
        sound_act(e.h, Act::Go(Env { h: g, fr: pushed(fr, v), ..e })),
{
    lemma_frame(e.h, g, fr);
    lemma_pushed(g, fr, v);
    lemma_env(e, g, pushed(fr, v));
}

/// The constants of a program are values.
pub open spec fn good_program(p: ProgramV) -> bool {
    forall|i: int|
        0 <= i < p.consts.len() ==> match #[trigger] p.consts[i] {
            ConstV::Float(b) => !is_nan(b),
            _ => true,
        }
}

proof fn lemma_simple(p: ProgramV, f: Seq<FactV>, e: Env, i: Instr)
    requires
        good_program(p),
        sound_env(e),
        cells_of(e.h, act(p, f, e, i)) <= usize::MAX,
        i is Const || i is Nil || i is True || i is False || i is LoadLocal || i is StoreLocal
            || i is LoadGlobal || i is StoreGlobal || i is Jump || i is JumpIfFalse || i is Dup
            || i is Pop || i is Return || i is Session || i is User || i is UnOp,
    ensures
        sound_act(e.h, act(p, f, e, i)),
{
    lemma_same(e.h);
    match i {
        Instr::Const(k) => {
            if (k as int) < p.consts.len() {
                match p.consts[k as int] {
                    ConstV::Str(s) => {
                        lemma_give_new(e, e.fr, CellV::Str(s), Value::Str(next_cell(e.h)));
                    },
                    ConstV::Int(n) => {
                        lemma_give(e, e.fr, Value::Int(n));
                    },
                    ConstV::Float(b) => {
                        lemma_give(e, e.fr, Value::Float(b));
                    },
                }
            }
        },
        Instr::Nil => {
            lemma_give(e, e.fr, Value::Nil);
        },
        Instr::True => {
            lemma_give(e, e.fr, Value::Bool(true));
        },
        Instr::False => {
            lemma_give(e, e.fr, Value::Bool(false));
        },
        Instr::LoadLocal(n) => {
            if (n as int) < e.fr.locals.len() {
                lemma_give(e, e.fr, e.fr.locals[n as int]);
            }
        },
        Instr::StoreLocal(n) => {
            if e.fr.stack.len() >= 1 && (n as int) < e.fr.locals.len() {
                let v = peek(e.fr, 0);
                lemma_dropped(e.h, e.fr, 1);
                let xs = e.fr.locals.update(n as int, v);
                assert forall|j: int| 0 <= j < xs.len() implies good(e.h, #[trigger] xs[j]) by {
                    if j != n {
                        assert(xs[j] == e.fr.locals[j]);
                    }
                }
            }
        },
        Instr::LoadGlobal(k) => {
            if let Some(name) = crate::machine::text_const(p, k) {
                let v = crate::machine::global(e.g, name);
                assert(good(e.h, v)) by {
                    if e.g.contains_key(name) {}
                }
                lemma_give(e, e.fr, v);
            }
        },
        Instr::StoreGlobal(k) => {
            if e.fr.stack.len() >= 1 {
                if let Some(name) = crate::machine::text_const(p, k) {
                    let v = peek(e.fr, 0);
                    lemma_dropped(e.h, e.fr, 1);
                    let g = e.g.insert(name, v);
                    assert forall|n: Seq<char>| #[trigger] g.contains_key(n) implies good(
                        e.h,
                        g[n],
                    ) by {
                        if n != name {
                            assert(e.g.contains_key(n));
                        }
                    }
                }
            }
        },
        Instr::JumpIfFalse(d) => {
            if e.fr.stack.len() >= 1 {
                lemma_dropped(e.h, e.fr, 1);
            }
        },
        Instr::Dup => {
            if e.fr.stack.len() >= 1 {
                lemma_give(e, e.fr, peek(e.fr, 0));
            }
        },
        Instr::Pop => {
            if e.fr.stack.len() >= 1 {
                lemma_dropped(e.h, e.fr, 1);
            }
        },
        Instr::UnOp(op) => {
            if e.fr.stack.len() >= 1 {
                lemma_dropped(e.h, e.fr, 1);
                let a = peek(e.fr, 0);
                assert(good(e.h, a));
                if let Ok(v) = un_op(op, a) {
                    assert(good(e.h, v)) by {
                        if let Value::Float(b) = a {
                            assert(is_nan(negated(b)) == is_nan(b));
                        }
                    }
                    lemma_give(e, dropped(e.fr, 1), v);
                }
            }
        },
        _ => {},
    }
}

proof fn lemma_map_of(h: Seq<CellV>, flat: Seq<Value>, n: int)
    requires
        sound(h),
        goods(h, flat),
        2 * n <= flat.len(),
    ensures
        match map_of(h, flat, n) {
            Ok(m) => good_entries(h, m) && tidy_entries(h, m),
            Err(_) => true,
        },
    decreases n,
{
    if n > 0 {
        lemma_map_of(h, flat, n - 1);
        if let Ok(m) = map_of(h, flat, n - 1) {
            let k = flat[2 * n - 2];
            let v = flat[2 * n - 1];
            if is_scalar(h, k) && !(v is Nil) {
                lemma_put(h, m, k, v);
            }
        }
    }
}

proof fn lemma_makes(p: ProgramV, f: Seq<FactV>, e: Env, i: Instr)
    requires
        sound_env(e),
        cells_of(e.h, act(p, f, e, i)) <= usize::MAX,
        i is MakeArray || i is MakeMap || i is GetIndex || i is SetIndex || i is SetField
            || i is BinOp || i is Closure,
    ensures
        sound_act(e.h, act(p, f, e, i)),
{
    match i {
        Instr::MakeArray(n) => {
            lemma_tail(e.h, e.fr, n as int);
            lemma_dropped(e.h, e.fr, up_to(e.fr, n as int));
            lemma_give_new(
                e,
                dropped(e.fr, up_to(e.fr, n as int)),
                CellV::Array(tail(e.fr, n as int)),
                Value::Array(next_cell(e.h)),
            );
        },
        Instr::MakeMap(n) => {
            let flat = tail(e.fr, 2 * n as int);
            lemma_tail(e.h, e.fr, 2 * n as int);
            if flat.len() % 2 == 0 {
                lemma_map_of(e.h, flat, flat.len() as int / 2);
                if let Ok(m) = map_of(e.h, flat, flat.len() as int / 2) {
                    let rest = dropped(e.fr, up_to(e.fr, 2 * n as int));
                    lemma_dropped(e.h, e.fr, up_to(e.fr, 2 * n as int));
                    lemma_give_new(e, rest, CellV::Dict(m), Value::Dict(next_cell(e.h)));
                }
            }
        },
        Instr::GetIndex => {
            if e.fr.stack.len() >= 2 {
                let (obj, key) = (peek(e.fr, 1), peek(e.fr, 0));
                if let Ok(v) = indexed(e.h, obj, key) {
                    match obj {
                        Value::Array(a) => {
                            lemma_items(e.h, a);
                        },
                        Value::Dict(m) => {
                            lemma_items(e.h, m);
                            lemma_get(e.h, map_at(e.h, m), key);
                        },
                        _ => {},
                    }
                    lemma_dropped(e.h, e.fr, 2);
                    lemma_give(e, dropped(e.fr, 2), v);
                }
            }
        },
        Instr::SetIndex => {
            if e.fr.stack.len() >= 3 {
                let (obj, key, v) = (peek(e.fr, 2), peek(e.fr, 1), peek(e.fr, 0));
                assert(good(e.h, obj) && good(e.h, key) && good(e.h, v));
                if let Ok(g) = assigned(e.h, obj, key, v) {
                    lemma_assigned(e.h, obj, key, v);
                    lemma_dropped(e.h, e.fr, 3);
                    lemma_frame(e.h, g, dropped(e.fr, 3));
                    lemma_env(e, g, dropped(e.fr, 3));
                }
            }
        },
        Instr::SetField(k) => {
            if e.fr.stack.len() >= 2 {
                if let Some(name) = crate::machine::text_const(p, k) {
                    let (obj, v) = (peek(e.fr, 1), peek(e.fr, 0));
                    assert(good(e.h, obj) && good(e.h, v));
                    if let Ok(g) = field_set(e.h, obj, name, v) {
                        lemma_field_set(e.h, obj, name, v);
                        lemma_dropped(e.h, e.fr, 2);
                        lemma_frame(e.h, g, dropped(e.fr, 2));
                        lemma_env(e, g, dropped(e.fr, 2));
                    }
                }
            }
        },
        Instr::BinOp(op) => {
            if e.fr.stack.len() >= 2 {
                let (a, b) = (peek(e.fr, 1), peek(e.fr, 0));
                lemma_dropped(e.h, e.fr, 2);
                match bin_op(e.h, f, op, a, b) {
                    TryV::Done(Got::Val(v)) => {
                        lemma_give(e, dropped(e.fr, 2), v);
                    },
                    TryV::Done(Got::Text(s)) => {
                        lemma_give_new(
                            e,
                            dropped(e.fr, 2),
                            CellV::Str(s),
                            Value::Str(next_cell(e.h)),
                        );
                    },
                    _ => {},
                }
            }
        },
        Instr::Closure(fi, n) => {
            lemma_tail(e.h, e.fr, n as int);
            lemma_dropped(e.h, e.fr, up_to(e.fr, n as int));
            lemma_give_new(
                e,
                dropped(e.fr, up_to(e.fr, n as int)),
                CellV::Closure(fi as usize, tail(e.fr, n as int)),
                Value::Closure(next_cell(e.h)),
            );
        },
        _ => {},
    }
}

proof fn lemma_assigned(h: Seq<CellV>, obj: Value, key: Value, v: Value)
    requires
        sound(h),
        good(h, obj),
        good(h, key),
        good(h, v),
        assigned(h, obj, key, v) is Ok,
    ensures
        sound(assigned(h, obj, key, v)->Ok_0),
        evolves(h, assigned(h, obj, key, v)->Ok_0),
{
    match (obj, key) {
        (Value::Array(a), Value::Int(i)) => {
            let xs = array_at(h, a);
            lemma_items(h, a);
            let ys = if i == xs.len() {
                xs.push(v)
            } else {
                xs.update(i as int, v)
            };
            assert forall|j: int| 0 <= j < ys.len() implies good(h, #[trigger] ys[j]) by {
                if j < xs.len() && j != i {
                    assert(ys[j] == xs[j]);
                }
            }
            lemma_set(h, a, CellV::Array(ys));
        },
        (Value::Dict(m), _) => {
            lemma_items(h, m);
            if v is Nil {
                lemma_del(h, map_at(h, m), key);
                lemma_set(h, m, CellV::Dict(entry_del(h, map_at(h, m), key)));
            } else {
                lemma_put(h, map_at(h, m), key, v);
                lemma_set(h, m, CellV::Dict(entry_put(h, map_at(h, m), key, v)));
            }
        },
        _ => {},
    }
}

proof fn lemma_field_set(h: Seq<CellV>, obj: Value, name: Seq<char>, v: Value)
    requires
        sound(h),
        good(h, obj),
        good(h, v),
        field_set(h, obj, name, v) is Ok,
        field_set(h, obj, name, v)->Ok_0.len() <= usize::MAX,
    ensures
        sound(field_set(h, obj, name, v)->Ok_0),
        evolves(h, field_set(h, obj, name, v)->Ok_0),
{
    if let Value::Dict(m) = obj {
        let a = h.push(CellV::Str(name));
        let key = Value::Str(next_cell(h));
        lemma_push(h, CellV::Str(name));
        lemma_good(h, a, obj);
        lemma_good(h, a, v);
        lemma_items(h, m);
        lemma_tidy(h, a, map_at(h, m));
        assert(a[m as int] == h[m as int]);
        if v is Nil {
            lemma_del(a, map_at(h, m), key);
            lemma_set(a, m, CellV::Dict(entry_del(a, map_at(h, m), key)));
        } else {
            lemma_put(a, map_at(h, m), key, v);
            lemma_set(a, m, CellV::Dict(entry_put(a, map_at(h, m), key, v)));
        }
        lemma_evolves_trans(h, a, field_set(h, obj, name, v)->Ok_0);
    }
}

/// The cells and the value are sound, and come later than `h`.
pub open spec fn sound_new(h: Seq<CellV>, g: Seq<CellV>, v: Value) -> bool {
    sound(g) && evolves(h, g) && good(g, v)
}

proof fn lemma_text_cell(h: Seq<CellV>, s: Seq<char>)
    requires
        sound(h),
        h.len() < usize::MAX,
    ensures
        sound_new(h, h.push(CellV::Str(s)), Value::Str(next_cell(h))),
        str_at(h.push(CellV::Str(s)), next_cell(h)) == s,
{
    lemma_push(h, CellV::Str(s));
}

proof fn lemma_one_key(h: Seq<CellV>, k: Value, v: Value)
    requires
        k is Str,
        number(v),
    ensures
        tidy_entries(h, seq![(k, v)]),
{
}

proof fn lemma_two_keys(h: Seq<CellV>, a: usize, v: Value, b: usize, w: Value)
    requires
        crate::text::text_before(str_at(h, a), str_at(h, b)),
        number(v),
        number(w),
    ensures
        tidy_entries(h, seq![(Value::Str(a), v), (Value::Str(b), w)]),
{
    crate::text::lemma_before_irreflexive(str_at(h, a));
    let m = seq![(Value::Str(a), v), (Value::Str(b), w)];
    assert forall|i: int, j: int| 0 <= i < j < m.len() implies key_rel(
        h,
        #[trigger] m[i].0,
        #[trigger] m[j].0,
    ) == Rel::Less by {
        assert(i == 0 && j == 1);
    }
}

proof fn lemma_tagged_list(h: Seq<CellV>, tag: Seq<char>, items: Seq<Value>)
    requires
        sound(h),
        goods(h, items),
        h.len() + 2 <= usize::MAX,
    ensures
        sound_new(h, tagged_list(h, tag, items).0, tagged_list(h, tag, items).1),
{
    let a = h.push(CellV::Array(items));
    lemma_push(h, CellV::Array(items));
    lemma_push(a, CellV::Tagged(tag, Value::Array(next_cell(h))));
    lemma_evolves_trans(h, a, tagged_list(h, tag, items).0);
}

proof fn lemma_store_field(h: Seq<CellV>, name: Seq<char>)
    requires
        sound(h),
        h.len() + 3 <= usize::MAX,
    ensures
        match store_field(h, name) {
            Some((g, v)) => sound_new(h, g, v),
            None => true,
        },
{
    lemma_same(h);
    if name == "leaf"@ || name == "sum"@ {
        let a = h.push(CellV::Str("k"@));
        let b = a.push(CellV::Str(name));
        lemma_text_cell(h, "k"@);
        lemma_text_cell(a, name);
        let k = Value::Str(next_cell(h));
        let v = Value::Str(next_cell(a));
        lemma_good(a, b, k);
        lemma_one_key(b, k, v);
        lemma_push(b, CellV::Dict(seq![(k, v)]));
        lemma_evolves_trans(h, a, b);
        lemma_evolves_trans(h, b, b.push(CellV::Dict(seq![(k, v)])));
    } else if name == "all"@ || name == "keys"@ || name == "vals"@ || name == "first"@ || name
        == "last"@ || name == "entries"@ {
        let a = h.push(CellV::Str(name));
        lemma_text_cell(h, name);
        let c = CellV::Tagged("nav"@, Value::Str(next_cell(h)));
        lemma_push(a, c);
        lemma_evolves_trans(h, a, a.push(c));
    } else if name == "del"@ {
        let a = h.push(CellV::Str("del"@));
        lemma_text_cell(h, "del"@);
        let items = seq![Value::Str(next_cell(h))];
        lemma_tagged_list(a, "term"@, items);
        lemma_evolves_trans(h, a, tagged_list(a, "term"@, items).0);
    }
}

/// What a native gives is sound, and what it hands to the host is good.
pub open spec fn sound_nat(h: Seq<CellV>, n: Nat) -> bool {
    match n {
        Nat::Val(g, v) => sound_new(h, g, v),
        Nat::Host(c) => good_call(h, c),
    }
}

/// How many cells there are once a native is done.
pub open spec fn cells_after(h: Seq<CellV>, n: Nat) -> nat {
    match n {
        Nat::Val(g, _) => g.len(),
        Nat::Host(_) => h.len(),
    }
}

proof fn lemma_arg(h: Seq<CellV>, args: Seq<Value>, i: int)
    requires
        goods(h, args),
        0 <= i,
    ensures
        good(h, arg(args, i)),
{
}

proof fn lemma_shape(h: Seq<CellV>, k: Seq<char>, of: Value)
    requires
        sound(h),
        good(h, of),
        cells_after(h, shape(h, k, of)) <= usize::MAX,
    ensures
        sound_nat(h, shape(h, k, of)),
{
    let a = h.push(CellV::Str("k"@));
    let b = a.push(CellV::Str(k));
    lemma_text_cell(h, "k"@);
    lemma_text_cell(a, k);
    lemma_evolves_trans(h, a, b);
    let kk = Value::Str(next_cell(h));
    let kv = Value::Str(next_cell(a));
    lemma_good(a, b, kk);
    if of is Nil {
        let c = CellV::Dict(seq![(kk, kv)]);
        lemma_one_key(b, kk, kv);
        lemma_push(b, c);
        lemma_evolves_trans(h, b, b.push(c));
    } else {
        let c = b.push(CellV::Str("of"@));
        lemma_text_cell(b, "of"@);
        let ok = Value::Str(next_cell(b));
        lemma_good(b, c, kk);
        lemma_good(b, c, kv);
        lemma_evolves_trans(h, b, c);
        lemma_good(h, c, of);
        reveal_strlit("k");
        reveal_strlit("of");
        assert(c[h.len() as int] == CellV::Str("k"@));
        assert(str_at(c, next_cell(h)) == "k"@);
        assert(str_at(c, next_cell(b)) == "of"@);
        assert("k"@[0] == 'k' && "of"@[0] == 'o');
        assert(crate::text::text_before("k"@, "of"@));
        lemma_two_keys(c, next_cell(h), kv, next_cell(b), of);
        let m = seq![(kk, kv), (ok, of)];
        lemma_push(c, CellV::Dict(m));
        lemma_evolves_trans(h, c, c.push(CellV::Dict(m)));
    }
}

proof fn lemma_record_shape(h: Seq<CellV>, fields: Value)
    requires
        sound(h),
        good(h, fields),
        cells_after(h, record_shape(h, fields)) <= usize::MAX,
    ensures
        sound_nat(h, record_shape(h, fields)),
{
    let a = h.push(CellV::Str("fields"@));
    let b = a.push(CellV::Str("k"@));
    let c = b.push(CellV::Str("record"@));
    lemma_text_cell(h, "fields"@);
    lemma_text_cell(a, "k"@);
    lemma_text_cell(b, "record"@);
    lemma_evolves_trans(h, a, b);
    lemma_evolves_trans(a, b, c);
    lemma_evolves_trans(h, b, c);
    let fk = Value::Str(next_cell(h));
    let kk = Value::Str(next_cell(a));
    let kv = Value::Str(next_cell(b));
    lemma_good(a, c, fk);
    lemma_good(b, c, kk);
    lemma_good(h, c, fields);
    reveal_strlit("fields");
    reveal_strlit("k");
    assert(c[h.len() as int] == CellV::Str("fields"@));
    assert(c[a.len() as int] == CellV::Str("k"@));
    assert("k"@[0] == 'k' && "fields"@[0] == 'f');
    assert(crate::text::text_before("fields"@, "k"@));
    lemma_two_keys(c, next_cell(h), fields, next_cell(a), kv);
    let m = seq![(fk, fields), (kk, kv)];
    lemma_push(c, CellV::Dict(m));
    lemma_evolves_trans(h, c, c.push(CellV::Dict(m)));
}

proof fn lemma_named_list(h: Seq<CellV>, tag: Seq<char>, name: Seq<char>, rest: Seq<Value>)
    requires
        sound(h),
        goods(h, rest),
        cells_after(h, named_list(h, tag, name, rest)) <= usize::MAX,
    ensures
        sound_nat(h, named_list(h, tag, name, rest)),
{
    let a = h.push(CellV::Str(name));
    lemma_text_cell(h, name);
    let items = seq![Value::Str(next_cell(h))] + rest;
    lemma_goods(h, a, rest);
    assert forall|i: int| 0 <= i < items.len() implies good(a, #[trigger] items[i]) by {
        if i > 0 {
            assert(items[i] == rest[i - 1]);
        }
    }
    lemma_tagged_list(a, tag, items);
    lemma_evolves_trans(h, a, tagged_list(a, tag, items).0);
}

proof fn lemma_nav_where(h: Seq<CellV>, args: Seq<Value>)
    requires
        sound(h),
        goods(h, args),
        cells_after(h, nav_where(h, args)) <= usize::MAX,
    ensures
        sound_nat(h, nav_where(h, args)),
{
    lemma_arg(h, args, 0);
    if args.len() < 2 {
        lemma_named_list(h, "nav"@, "where"@, seq![arg(args, 0)]);
    } else if args.len() < 3 {
        let a = h.push(CellV::Str("where"@));
        let b = a.push(CellV::Str("=="@));
        lemma_text_cell(h, "where"@);
        lemma_text_cell(a, "=="@);
        lemma_evolves_trans(h, a, b);
        let w = Value::Str(next_cell(h));
        let q = Value::Str(next_cell(a));
        lemma_good(a, b, w);
        lemma_good(h, b, args[0]);
        lemma_good(h, b, args[1]);
        let items = seq![w, args[0], q, args[1]];
        lemma_tagged_list(b, "nav"@, items);
        lemma_evolves_trans(h, b, tagged_list(b, "nav"@, items).0);
    } else {
        lemma_named_list(h, "nav"@, "where"@, seq![args[0], args[1], args[2]]);
    }
}

proof fn lemma_sorted(h: Seq<CellV>, keys: Seq<Seq<char>>, xs: Seq<Value>, n: int)
    requires
        goods(h, xs),
        0 <= n <= xs.len(),
    ensures
        match sorted(h, keys, xs, n) {
            Some(s) => goods(h, s),
            None => true,
        },
    decreases n,
{
    if n > 0 {
        lemma_sorted(h, keys, xs, n - 1);
        if let Some(s) = sorted(h, keys, xs, n - 1) {
            lemma_sort_place(h, keys, s, xs[n - 1], s.len() as int);
            if let Some(at) = sort_place(h, keys, s, xs[n - 1], s.len() as int) {
                let t = s.insert(at, xs[n - 1]);
                assert forall|i: int| 0 <= i < t.len() implies good(h, #[trigger] t[i]) by {
                    if i < at {
                        assert(t[i] == s[i]);
                    } else if i > at {
                        assert(t[i] == s[i - 1]);
                    }
                }
            }
        }
    }
}

proof fn lemma_sort_place(h: Seq<CellV>, keys: Seq<Seq<char>>, xs: Seq<Value>, x: Value, n: int)
    requires
        0 <= n <= xs.len(),
    ensures
        match sort_place(h, keys, xs, x, n) {
            Some(at) => 0 <= at <= n,
            None => true,
        },
    decreases n,
{
    if n > 0 {
        lemma_sort_place(h, keys, xs, x, n - 1);
    }
}

proof fn lemma_native(h: Seq<CellV>, f: Seq<FactV>, id: NativeId, args: Seq<Value>)
    requires
        sound(h),
        goods(h, args),
        call_native(h, f, id, args) is Done,
        cells_after(h, call_native(h, f, id, args)->Done_0) <= usize::MAX,
    ensures
        sound_nat(h, call_native(h, f, id, args)->Done_0),
{
    lemma_same(h);
    lemma_arg(h, args, 0);
    lemma_arg(h, args, 1);
    match id {
        NativeId::Tostring => {
            if let TryV::Done(s) = crate::value::coerced(h, f, arg(args, 0)) {
                lemma_text_cell(h, s);
            }
        },
        NativeId::TypeOf => {
            lemma_text_cell(h, crate::value::kind_of(arg(args, 0)));
        },
        NativeId::Push => {
            if args.len() >= 2 {
                if let Value::Array(a) = args[0] {
                    lemma_items(h, a);
                    let xs = array_at(h, a);
                    let ys = xs.push(args.last());
                    assert forall|j: int| 0 <= j < ys.len() implies good(h, #[trigger] ys[j]) by {
                        if j < xs.len() {
                            assert(ys[j] == xs[j]);
                        }
                    }
                    lemma_set(h, a, CellV::Array(ys));
                }
            }
        },
        NativeId::SortBy => {
            if let Value::Array(a) = arg(args, 0) {
                lemma_items(h, a);
                let xs = array_at(h, a);
                let keys = match arg(args, 1) {
                    Value::Array(ks) => sort_keys(h, array_at(h, ks), array_at(h, ks).len() as int),
                    _ => Some(Seq::empty()),
                };
                if let Some(keys) = keys {
                    lemma_sorted(h, keys, xs, xs.len() as int);
                    if let Some(s) = sorted(h, keys, xs, xs.len() as int) {
                        lemma_set(h, a, CellV::Array(s));
                    }
                }
            }
        },
        NativeId::ShapeMap => {
            lemma_shape(h, "map"@, arg(args, 0));
        },
        NativeId::ShapeList => {
            lemma_shape(h, "list"@, arg(args, 0));
        },
        NativeId::ShapeDeque => {
            lemma_shape(h, "deque"@, arg(args, 0));
        },
        NativeId::ShapeRecord => {
            lemma_record_shape(h, arg(args, 0));
        },
        NativeId::NavWhere => {
            lemma_nav_where(h, args);
        },
        NativeId::NavSlice => {
            lemma_named_list(h, "nav"@, "slice"@, seq![arg(args, 0), arg(args, 1)]);
        },
        NativeId::NavSet => {
            lemma_named_list(h, "term"@, "set"@, seq![arg(args, 0)]);
        },
        NativeId::NavAdd => {
            lemma_named_list(h, "term"@, "add"@, seq![arg(args, 0)]);
        },
        NativeId::NavPush => {
            lemma_named_list(h, "term"@, "push"@, seq![arg(args, 0)]);
        },
        _ => {},
    }
}

proof fn lemma_closure_frame(p: ProgramV, h: Seq<CellV>, c: usize, args: Seq<Value>)
    requires
        sound(h),
        goods(h, args),
    ensures
        match closure_frame(p, h, c, args) {
            Some(fr) => good_frame(h, fr),
            None => true,
        },
{
    if let Some((fi, caps)) = closure_at(h, c) {
        assert(good_cell(h, h[c as int]));
        if (fi as int) < p.fns.len() {
            if let Some(fr) = new_frame(p.fns[fi as int], fi, caps, args) {
                assert forall|i: int| 0 <= i < fr.locals.len() implies good(
                    h,
                    #[trigger] fr.locals[i],
                ) by {
                    let f = p.fns[fi as int];
                    if f.n_caps <= i < f.n_caps + f.n_params && i - f.n_caps < args.len() {
                        assert(good(h, args[i - f.n_caps]));
                    } else if i < caps.len() {
                        assert(good(h, caps[i]));
                    }
                }
            }
        }
    }
}

proof fn lemma_call(p: ProgramV, f: Seq<FactV>, e: Env, n: int)
    requires
        sound_env(e),
        0 <= n,
        cells_of(e.h, do_call(p, f, e, n)) <= usize::MAX,
    ensures
        sound_act(e.h, do_call(p, f, e, n)),
{
    let args = tail(e.fr, n);
    let below = dropped(e.fr, up_to(e.fr, n));
    lemma_tail(e.h, e.fr, n);
    lemma_dropped(e.h, e.fr, up_to(e.fr, n));
    lemma_same(e.h);
    if below.stack.len() >= 1 {
        let callee = peek(below, 0);
        let rest = dropped(below, 1);
        lemma_dropped(e.h, below, 1);
        match callee {
            Value::Closure(c) => {
                lemma_closure_frame(p, e.h, c, args);
            },
            Value::Native(id) => {
                if let TryV::Done(done) = call_native(e.h, f, id, args) {
                    lemma_native(e.h, f, id, args);
                    if let Nat::Val(g, v) = done {
                        lemma_give_on(e, g, rest, v);
                    }
                }
            },
            _ => {},
        }
    }
}

proof fn lemma_iter_new(e: Env)
    requires
        sound_env(e),
        cells_of(e.h, do_iter_new(e)) <= usize::MAX,
    ensures
        sound_act(e.h, do_iter_new(e)),
{
    if e.fr.stack.len() >= 1 {
        let v = peek(e.fr, 0);
        lemma_dropped(e.h, e.fr, 1);
        if let Ok(pairs) = pairs_of(e.h, v) {
            let h = e.h;
            let cs = Seq::new(pairs.len(), |i: int| CellV::Array(pairs[i]));
            assert forall|i: int| 0 <= i < cs.len() implies good_cell(h, #[trigger] cs[i]) by {
                match v {
                    Value::Array(a) => {
                        lemma_items(h, a);
                        assert(good(h, array_at(h, a)[i]));
                        assert(pairs[i] =~= seq![Value::Int(i as i64), array_at(h, a)[i]]);
                    },
                    Value::Dict(m) => {
                        lemma_items(h, m);
                        let x = map_at(h, m)[i];
                        assert(good(h, x.0) && good(h, x.1));
                        assert(pairs[i] =~= seq![x.0, x.1]);
                    },
                    _ => {},
                }
            }
            lemma_more(h, cs);
            let g = pair_cells(h, pairs);
            assert(g =~= h + cs);
            let list = Seq::new(pairs.len(), |i: int| Value::Array((h.len() + i) as usize));
            let c = CellV::Array(list);
            assert(g.push(c).len() <= usize::MAX);
            assert forall|i: int| 0 <= i < list.len() implies good(g, #[trigger] list[i]) by {
                assert(g[h.len() + i] == cs[i]);
            }
            lemma_push(g, c);
            lemma_evolves_trans(h, g, g.push(c));
            lemma_give_on(e, g.push(c), dropped(e.fr, 1), Value::Array(next_cell(g)));
        }
    }
}

proof fn lemma_rest(p: ProgramV, f: Seq<FactV>, e: Env, i: Instr)
    requires
        sound_env(e),
        cells_of(e.h, act(p, f, e, i)) <= usize::MAX,
        e.h.len() + 3 <= usize::MAX,
        i is GetField || i is IterNext || i is At || i is Cast || i is Spawn,
    ensures
        sound_act(e.h, act(p, f, e, i)),
{
    lemma_same(e.h);
    match i {
        Instr::GetField(k) => {
            if e.fr.stack.len() >= 1 {
                if let Some(name) = crate::machine::text_const(p, k) {
                    let obj = peek(e.fr, 0);
                    let rest = dropped(e.fr, 1);
                    lemma_dropped(e.h, e.fr, 1);
                    match obj {
                        Value::Dict(_) => {
                            lemma_field(e.h, obj, name);
                            lemma_give(e, rest, field_of(e.h, obj, name));
                        },
                        Value::Native(NativeId::StoreCall) => {
                            lemma_store_field(e.h, name);
                            if let Some((g, v)) = store_field(e.h, name) {
                                lemma_give_on(e, g, rest, v);
                            }
                        },
                        _ => {},
                    }
                }
            }
        },
        Instr::IterNext(d) => {
            if e.fr.stack.len() >= 2 {
                let rest = dropped(e.fr, 2);
                lemma_dropped(e.h, e.fr, 2);
                if let (Value::Int(n), Value::Array(a)) = (peek(e.fr, 0), peek(e.fr, 1)) {
                    assert(good(e.h, peek(e.fr, 1)));
                    lemma_items(e.h, a);
                    if 0 <= n < array_at(e.h, a).len() {
                        if let Value::Array(kv) = array_at(e.h, a)[n as int] {
                            let pair = array_at(e.h, kv);
                            lemma_items(e.h, kv);
                            if pair.len() >= 2 && n != i64::MAX {
                                let x = pushed(rest, Value::Array(a));
                                let y = pushed(x, Value::Int((n + 1) as i64));
                                let z = pushed(y, pair[0]);
                                lemma_pushed(e.h, rest, Value::Array(a));
                                lemma_pushed(e.h, x, Value::Int((n + 1) as i64));
                                lemma_pushed(e.h, y, pair[0]);
                                lemma_pushed(e.h, z, pair[1]);
                            }
                        }
                    }
                }
            }
        },
        Instr::Spawn => {
            if e.fr.stack.len() >= 2 {
                lemma_dropped(e.h, e.fr, 2);
                assert(good(e.h, peek(e.fr, 1)));
                if let Value::Array(a) = peek(e.fr, 0) {
                    lemma_items(e.h, a);
                }
            }
        },
        _ => {
            if e.fr.stack.len() >= 2 {
                lemma_dropped(e.h, e.fr, 2);
                assert(good(e.h, peek(e.fr, 0)) && good(e.h, peek(e.fr, 1)));
            }
        },
    }
}

proof fn lemma_act(p: ProgramV, f: Seq<FactV>, e: Env, i: Instr)
    requires
        good_program(p),
        sound_env(e),
        cells_of(e.h, act(p, f, e, i)) <= usize::MAX,
        e.h.len() + 3 <= usize::MAX,
    ensures
        sound_act(e.h, act(p, f, e, i)),
{
    match i {
        Instr::MakeArray(_) => {
            lemma_makes(p, f, e, i);
        },
        Instr::MakeMap(_) => {
            lemma_makes(p, f, e, i);
        },
        Instr::GetIndex => {
            lemma_makes(p, f, e, i);
        },
        Instr::SetIndex => {
            lemma_makes(p, f, e, i);
        },
        Instr::SetField(_) => {
            lemma_makes(p, f, e, i);
        },
        Instr::BinOp(_) => {
            lemma_makes(p, f, e, i);
        },
        Instr::Closure(_, _) => {
            lemma_makes(p, f, e, i);
        },
        Instr::Call(n) => {
            lemma_call(p, f, e, n as int);
        },
        Instr::IterNew => {
            lemma_iter_new(e);
        },
        Instr::GetField(_) => {
            lemma_rest(p, f, e, i);
        },
        Instr::IterNext(_) => {
            lemma_rest(p, f, e, i);
        },
        Instr::At(_) => {
            lemma_rest(p, f, e, i);
        },
        Instr::Cast(_) => {
            lemma_rest(p, f, e, i);
        },
        Instr::Spawn => {
            lemma_rest(p, f, e, i);
        },
        _ => {
            lemma_simple(p, f, e, i);
        },
    }
}

/// The frames hold good values only.
pub open spec fn good_frames(h: Seq<CellV>, frames: Seq<FrameV>) -> bool {
    forall|i: int| 0 <= i < frames.len() ==> good_frame(h, #[trigger] frames[i])
}

/// The state of a machine is sound.
pub open spec fn sound_state(s: StateV) -> bool {
    sound(s.h) && good_globals(s.h, s.g) && good_frames(s.h, s.frames)
}

proof fn lemma_frames(h: Seq<CellV>, g: Seq<CellV>, frames: Seq<FrameV>)
    requires
        evolves(h, g),
        good_frames(h, frames),
    ensures
        good_frames(g, frames),
{
    assert forall|i: int| 0 <= i < frames.len() implies good_frame(g, #[trigger] frames[i]) by {
        lemma_frame(h, g, frames[i]);
    }
}

proof fn lemma_frames_push(h: Seq<CellV>, frames: Seq<FrameV>, fr: FrameV)
    requires
        good_frames(h, frames),
        good_frame(h, fr),
    ensures
        good_frames(h, frames.push(fr)),
{
    let xs = frames.push(fr);
    assert forall|i: int| 0 <= i < xs.len() implies good_frame(h, #[trigger] xs[i]) by {
        if i < frames.len() {
            assert(xs[i] == frames[i]);
        }
    }
}

proof fn lemma_leave(s: StateV, v: Value)
    requires
        sound_state(s),
        good(s.h, v),
        s.frames.len() > 0,
    ensures
        sound_state(leave(s, v).0),
        match leave(s, v).1 {
            Some(o) => good_outcome(s.h, o),
            None => true,
        },
{
    let below = s.frames.drop_last();
    assert(good_frames(s.h, below)) by {
        assert forall|i: int| 0 <= i < below.len() implies good_frame(
            s.h,
            #[trigger] below[i],
        ) by {
            assert(below[i] == s.frames[i]);
        }
    }
    if below.len() > 0 {
        let rest = below.drop_last();
        assert(good_frames(s.h, rest)) by {
            assert forall|i: int| 0 <= i < rest.len() implies good_frame(
                s.h,
                #[trigger] rest[i],
            ) by {
                assert(rest[i] == below[i]);
            }
        }
        assert(good_frame(s.h, below[below.len() - 1]));
        lemma_pushed(s.h, below.last(), v);
        lemma_frames_push(s.h, rest, pushed(below.last(), v));
    }
}

/// Every step of a machine keeps its state sound: no value is NaN, each is held
/// by a cell of its kind, and the keys of maps are scalars, in order, none twice;
/// texts, bytes, tagged values and functions never change; and what goes out is
/// sound too.
pub proof fn law_steps_keep_values_sound(p: ProgramV, f: Seq<FactV>, s: StateV)
    requires
        good_program(p),
        sound_state(s),
        s.h.len() + 3 <= usize::MAX,
        step(p, f, s).0.h.len() <= usize::MAX,
    ensures
        sound_state(step(p, f, s).0),
        evolves(s.h, step(p, f, s).0.h),
        match step(p, f, s).1 {
            Some(o) => good_outcome(step(p, f, s).0.h, o),
            None => true,
        },
{
    lemma_same(s.h);
    if s.frames.len() > 0 {
        let fr = s.frames.last();
        assert(good_frame(s.h, s.frames[s.frames.len() - 1]));
        if (fr.fn_idx as int) < p.fns.len() {
            if (fr.pc as int) >= p.fns[fr.fn_idx as int].code.len() {
                lemma_leave(s, Value::Nil);
            } else {
                let i = p.fns[fr.fn_idx as int].code[fr.pc as int];
                let e = Env { h: s.h, g: s.g, fr: FrameV { pc: (fr.pc + 1) as usize, ..fr } };
                let below = s.frames.drop_last();
                assert(good_frames(s.h, below)) by {
                    assert forall|j: int| 0 <= j < below.len() implies good_frame(
                        s.h,
                        #[trigger] below[j],
                    ) by {
                        assert(below[j] == s.frames[j]);
                    }
                }
                lemma_act(p, f, e, i);
                match act(p, f, e, i) {
                    Act::Go(n) => {
                        lemma_frames(s.h, n.h, below);
                        lemma_frames_push(n.h, below, n.fr);
                    },
                    Act::Enter(n, top) => {
                        lemma_frames(s.h, n.h, below);
                        lemma_frames_push(n.h, below, n.fr);
                        lemma_frames_push(n.h, below.push(n.fr), top);
                    },
                    Act::Leave(v) => {
                        lemma_leave(s, v);
                    },
                    Act::Stop(n, o) => {
                        lemma_frames(s.h, n.h, below);
                        lemma_frames_push(n.h, below, n.fr);
                    },
                    _ => {},
                }
            }
        }
    }
}

proof fn lemma_text_tagged(h: Seq<CellV>, tag: Seq<char>, p: Value)
    requires
        sound(h),
        good(h, p),
        h.len() < usize::MAX,
    ensures
        sound_new(h, h.push(CellV::Tagged(tag, p)), Value::Tagged(next_cell(h))),
{
    lemma_push(h, CellV::Tagged(tag, p));
}

proof fn lemma_loaded(h: Seq<CellV>, d: DataV)
    requires
        sound(h),
        loaded(h, d).0.len() <= usize::MAX,
    ensures
        sound(loaded(h, d).0),
        evolves(h, loaded(h, d).0),
        match loaded(h, d).1 {
            Ok(v) => good(loaded(h, d).0, v),
            Err(_) => true,
        },
    decreases d, 0int, 0int,
{
    lemma_same(h);
    match d {
        DataV::Text(s) => {
            lemma_text_cell(h, s);
        },
        DataV::Bytes(b) => {
            lemma_push(h, CellV::Bytes(b));
        },
        DataV::Array(xs) => {
            lemma_loaded_items(h, xs, xs.len() as int);
            let (g, r) = loaded_items(h, xs, xs.len() as int);
            if let Ok(vs) = r {
                lemma_push(g, CellV::Array(vs));
                lemma_evolves_trans(h, g, g.push(CellV::Array(vs)));
            }
        },
        DataV::Dict(ps) => {
            lemma_loaded_pairs(h, ps, ps.len() as int);
            let (g, r) = loaded_pairs(h, ps, ps.len() as int);
            if let Ok(es) = r {
                lemma_push(g, CellV::Dict(es));
                lemma_evolves_trans(h, g, g.push(CellV::Dict(es)));
            }
        },
        DataV::Tag(n, inner) => {
            if let DataV::Array(parts) = *inner {
                if n == TAG_GENERIC && parts.len() == 2 {
                    if let DataV::Text(tag) = parts[0] {
                        lemma_loaded(h, parts[1]);
                        let (g, r) = loaded(h, parts[1]);
                        if let Ok(p) = r {
                            lemma_text_tagged(g, tag, p);
                            lemma_evolves_trans(h, g, g.push(CellV::Tagged(tag, p)));
                        }
                    }
                }
            }
        },
        _ => {},
    }
}

proof fn lemma_loaded_items(h: Seq<CellV>, xs: Seq<DataV>, n: int)
    requires
        sound(h),
        loaded_items(h, xs, n).0.len() <= usize::MAX,
    ensures
        sound(loaded_items(h, xs, n).0),
        evolves(h, loaded_items(h, xs, n).0),
        match loaded_items(h, xs, n).1 {
            Ok(vs) => goods(loaded_items(h, xs, n).0, vs),
            Err(_) => true,
        },
    decreases xs, 1int, n,
{
    lemma_same(h);
    if 0 < n <= xs.len() {
        lemma_load_items_grow(h, xs, n);
        lemma_loaded_items(h, xs, n - 1);
        let (g, r) = loaded_items(h, xs, n - 1);
        if let Ok(vs) = r {
            lemma_loaded(g, xs[n - 1]);
            let (k, s) = loaded(g, xs[n - 1]);
            lemma_evolves_trans(h, g, k);
            if let Ok(v) = s {
                lemma_goods(g, k, vs);
                let ws = vs.push(v);
                assert forall|i: int| 0 <= i < ws.len() implies good(k, #[trigger] ws[i]) by {
                    if i < vs.len() {
                        assert(ws[i] == vs[i]);
                    }
                }
            }
        }
    }
}

proof fn lemma_loaded_pairs(h: Seq<CellV>, ps: Seq<(DataV, DataV)>, n: int)
    requires
        sound(h),
        loaded_pairs(h, ps, n).0.len() <= usize::MAX,
    ensures
        sound(loaded_pairs(h, ps, n).0),
        evolves(h, loaded_pairs(h, ps, n).0),
        match loaded_pairs(h, ps, n).1 {
            Ok(es) => good_cell(loaded_pairs(h, ps, n).0, CellV::Dict(es)),
            Err(_) => true,
        },
    decreases ps, 1int, n,
{
    lemma_same(h);
    if 0 < n <= ps.len() {
        lemma_load_pairs_grow(h, ps, n);
        lemma_loaded_pairs(h, ps, n - 1);
        let (g, r) = loaded_pairs(h, ps, n - 1);
        if let Ok(es) = r {
            let (a, s) = loaded(g, ps[n - 1].0);
            lemma_load_grows(g, ps[n - 1].0);
            lemma_load_grows(a, ps[n - 1].1);
            lemma_loaded(g, ps[n - 1].0);
            lemma_evolves_trans(h, g, a);
            if let Ok(k) = s {
                if is_scalar(a, k) {
                    lemma_loaded(a, ps[n - 1].1);
                    let (b, t) = loaded(a, ps[n - 1].1);
                    lemma_evolves_trans(h, a, b);
                    lemma_evolves_trans(g, a, b);
                    if let Ok(v) = t {
                        lemma_cell(g, b, CellV::Dict(es));
                        lemma_good(a, b, k);
                        lemma_scalar(a, b, a.len(), b.len(), k);
                        lemma_put(b, es, k, v);
                    }
                }
            }
        }
    }
}

/// What comes over the wire is sound: loading data into a machine keeps its
/// values sound, whatever the data are.
pub proof fn law_loading_keeps_values_sound(h: Seq<CellV>, d: DataV)
    requires
        sound(h),
        loaded(h, d).0.len() <= usize::MAX,
    ensures
        sound(loaded(h, d).0),
        evolves(h, loaded(h, d).0),
        match loaded(h, d).1 {
            Ok(v) => good(loaded(h, d).0, v),
            Err(_) => true,
        },
{
    lemma_loaded(h, d);
}

/// The values of a sound machine cross the wire as copies.
pub proof fn law_sound_values_cross(h: Seq<CellV>, v: Value, g: Seq<CellV>)
    requires
        sound(h),
        good(h, v),
        data_of(h, h.len(), v) is Ok,
        loaded(g, data_of(h, h.len(), v)->Ok_0).0.len() <= usize::MAX,
    ensures
        ({
            let x = data_of(h, h.len(), v)->Ok_0;
            let (a, r) = loaded(g, x);
            r is Ok && data_of(a, a.len(), r->Ok_0) == Ok::<DataV, Seq<char>>(x)
        }),
{
    assert(tidy(h)) by {
        assert forall|i: usize| tidy_entries(h, #[trigger] map_at(h, i)) by {
            lemma_items(h, i);
        }
        assert forall|i: usize, j: int| 0 <= j < array_at(h, i).len() implies number(
            #[trigger] array_at(h, i)[j],
        ) by {
            lemma_items(h, i);
            assert(good(h, array_at(h, i)[j]));
        }
        assert forall|i: usize| number((#[trigger] tagged_at(h, i)).1) by {
            if i < h.len() {
                assert(good_cell(h, h[i as int]));
            }
        }
    }
    law_values_cross_as_copies(h, v, g);
}

} // verus!
