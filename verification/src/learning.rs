//! What is learned later changes nothing that was settled before: a computation
//! that did not want a fact gives the same with more facts.

use crate::db::RowV;
use crate::dynpath::{navs_spelled, peeked};
use crate::error::ErrorV;
use crate::float::{extends, FactV};
use crate::interp::{fn_frame, STEP_LIMIT};
use crate::ir::{BinOp, Instr, ProgramV};
use crate::json::JsonV;
use crate::machine::{
    act, arg, bin_op, call_native, concats, dropped, line_of, peek, step, steps, steps_left, tail,
    up_to, Env, FrameV, HostCallV, OutcomeV, StateV,
};
use crate::modules::{lib_out, LibOutV};
use crate::nav::{collecting, query_collects, NavV, QueryV};
use crate::op::{changed_all, committed, resolved, BatchV, ChangeV, OpV};
use crate::reading::{focus_spread, focus_step, focus_steps, root_of, FocusV};
use crate::runtime::Meta;
use crate::shape::ShapeV;
use crate::store::{event_value, hop_reduced, reduce_host, reduce_run, steps_of, HopReducer};
use crate::value::{
    array_at, coerced, map_at, show, show_entries, show_items, show_key, tagged_at, CellV, NativeId,
    TryV, Value,
};
use crate::wire::{loaded_json, loaded_list, loaded_object};
use vstd::prelude::*;

verus! {

proof fn lemma_show(h: Seq<CellV>, f: Seq<FactV>, g: Seq<FactV>, d: nat, v: Value)
    requires
        extends(f, g),
        !(show(h, f, d, v) is Need),
    ensures
        show(h, g, d, v) == show(h, f, d, v),
    decreases d, 0int, 0int,
{
    match v {
        Value::Array(i) => {
            if d > 0 {
                let xs = array_at(h, i);
                lemma_show_items(h, f, g, (d - 1) as nat, xs, xs.len() as int);
            }
        },
        Value::Dict(i) => {
            if d > 0 {
                let m = map_at(h, i);
                lemma_show_entries(h, f, g, (d - 1) as nat, m, m.len() as int);
            }
        },
        Value::Tagged(i) => {
            if d > 0 {
                lemma_show(h, f, g, (d - 1) as nat, tagged_at(h, i).1);
            }
        },
        _ => {},
    }
}

proof fn lemma_show_items(
    h: Seq<CellV>,
    f: Seq<FactV>,
    g: Seq<FactV>,
    d: nat,
    xs: Seq<Value>,
    n: int,
)
    requires
        extends(f, g),
        !(show_items(h, f, d, xs, n) is Need),
    ensures
        show_items(h, g, d, xs, n) == show_items(h, f, d, xs, n),
    decreases d, 1int, n,
{
    if 0 < n && n <= xs.len() {
        lemma_show_items(h, f, g, d, xs, n - 1);
        if show_items(h, f, d, xs, n - 1) is Done {
            lemma_show(h, f, g, d, xs[n - 1]);
        }
    }
}

proof fn lemma_show_entries(
    h: Seq<CellV>,
    f: Seq<FactV>,
    g: Seq<FactV>,
    d: nat,
    m: Seq<(Value, Value)>,
    n: int,
)
    requires
        extends(f, g),
        !(show_entries(h, f, d, m, n) is Need),
    ensures
        show_entries(h, g, d, m, n) == show_entries(h, f, d, m, n),
    decreases d, 2int, n,
{
    if 0 < n && n <= m.len() {
        lemma_show_entries(h, f, g, d, m, n - 1);
        if show_entries(h, f, d, m, n - 1) is Done {
            if !(m[n - 1].0 is Str) {
                lemma_show(h, f, g, d, m[n - 1].0);
            }
            assert(show_key(h, g, d, m[n - 1].0) == show_key(h, f, d, m[n - 1].0));
            if show_key(h, f, d, m[n - 1].0) is Done {
                lemma_show(h, f, g, d, m[n - 1].1);
            }
        }
    }
}

proof fn lemma_coerced(h: Seq<CellV>, f: Seq<FactV>, g: Seq<FactV>, v: Value)
    requires
        extends(f, g),
        !(coerced(h, f, v) is Need),
    ensures
        coerced(h, g, v) == coerced(h, f, v),
{
    if !(v is Str) {
        lemma_show(h, f, g, h.len(), v);
    }
}

proof fn lemma_bin_op(
    h: Seq<CellV>,
    f: Seq<FactV>,
    g: Seq<FactV>,
    op: BinOp,
    a: Value,
    b: Value,
)
    requires
        extends(f, g),
        !(bin_op(h, f, op, a, b) is Need),
    ensures
        bin_op(h, g, op, a, b) == bin_op(h, f, op, a, b),
{
    if op == BinOp::Concat {
        if concats(a) && concats(b) {
            lemma_coerced(h, f, g, a);
            if coerced(h, f, a) is Done {
                lemma_coerced(h, f, g, b);
            }
        }
    }
}

proof fn lemma_line(h: Seq<CellV>, f: Seq<FactV>, g: Seq<FactV>, args: Seq<Value>, n: int)
    requires
        extends(f, g),
        !(line_of(h, f, args, n) is Need),
    ensures
        line_of(h, g, args, n) == line_of(h, f, args, n),
    decreases n,
{
    if 0 < n && n <= args.len() {
        lemma_line(h, f, g, args, n - 1);
        if line_of(h, f, args, n - 1) is Done {
            lemma_coerced(h, f, g, args[n - 1]);
        }
    }
}

proof fn lemma_native(
    h: Seq<CellV>,
    f: Seq<FactV>,
    g: Seq<FactV>,
    id: NativeId,
    args: Seq<Value>,
)
    requires
        extends(f, g),
        !(call_native(h, f, id, args) is Need),
    ensures
        call_native(h, g, id, args) == call_native(h, f, id, args),
{
    match id {
        NativeId::Print => lemma_line(h, f, g, args, args.len() as int),
        NativeId::Error => lemma_coerced(h, f, g, arg(args, 0)),
        NativeId::Tostring => lemma_coerced(h, f, g, arg(args, 0)),
        _ => {},
    }
}

proof fn lemma_act(p: ProgramV, f: Seq<FactV>, g: Seq<FactV>, e: Env, i: Instr)
    requires
        extends(f, g),
        !(act(p, f, e, i) is Need),
    ensures
        act(p, g, e, i) == act(p, f, e, i),
{
    match i {
        Instr::BinOp(op) => {
            if e.fr.stack.len() >= 2 {
                lemma_bin_op(
                    e.h,
                    f,
                    g,
                    op,
                    peek(e.fr, 1),
                    peek(e.fr, 0),
                );
            }
        },
        Instr::Call(n) => {
            let args = tail(e.fr, n as int);
            let below = dropped(e.fr, up_to(e.fr, n as int));
            if below.stack.len() >= 1 {
                if let Value::Native(id) = peek(below, 0) {
                    lemma_native(e.h, f, g, id, args);
                }
            }
        },
        _ => {},
    }
}

proof fn lemma_step(p: ProgramV, f: Seq<FactV>, g: Seq<FactV>, s: StateV)
    requires
        extends(f, g),
        !(step(p, f, s).1 matches Some(OutcomeV::Need(_))),
    ensures
        step(p, g, s) == step(p, f, s),
{
    if s.frames.len() > 0 {
        let fr = s.frames.last();
        if (fr.fn_idx as int) < p.fns.len() && (fr.pc as int) < p.fns[fr.fn_idx as int].code.len() {
            let i = p.fns[fr.fn_idx as int].code[fr.pc as int];
            let e = Env {
                h: s.h,
                g: s.g,
                fr: FrameV { pc: (fr.pc + 1) as usize, ..fr },
            };
            lemma_act(p, f, g, e, i);
        }
    }
}

proof fn lemma_steps(p: ProgramV, f: Seq<FactV>, g: Seq<FactV>, s: StateV, fuel: nat)
    requires
        extends(f, g),
        !(steps(p, f, s, fuel).1 is Need),
    ensures
        steps(p, g, s, fuel) == steps(p, f, s, fuel),
        steps_left(p, g, s, fuel) == steps_left(p, f, s, fuel),
    decreases fuel,
{
    if fuel > 0 {
        lemma_step(p, f, g, s);
        if step(p, f, s).1 is None {
            lemma_steps(p, f, g, step(p, f, s).0, (fuel - 1) as nat);
        }
    }
}

proof fn lemma_json(h: Seq<CellV>, f: Seq<FactV>, g: Seq<FactV>, j: JsonV)
    requires
        extends(f, g),
        !(loaded_json(h, f, j).1 is Need),
    ensures
        loaded_json(h, g, j) == loaded_json(h, f, j),
    decreases j, 0int, 0int,
{
    match j {
        JsonV::Array(xs) => lemma_json_list(h, f, g, xs, xs.len() as int),
        JsonV::Object(ms) => lemma_json_object(h, f, g, ms, ms.len() as int),
        _ => {},
    }
}

proof fn lemma_json_list(h: Seq<CellV>, f: Seq<FactV>, g: Seq<FactV>, xs: Seq<JsonV>, n: int)
    requires
        extends(f, g),
        !(loaded_list(h, f, xs, n).1 is Need),
    ensures
        loaded_list(h, g, xs, n) == loaded_list(h, f, xs, n),
    decreases xs, 1int, n,
{
    if 0 < n && n <= xs.len() {
        lemma_json_list(h, f, g, xs, n - 1);
        let (k, r) = loaded_list(h, f, xs, n - 1);
        if r is Done {
            lemma_json(k, f, g, xs[n - 1]);
        }
    }
}

proof fn lemma_json_object(
    h: Seq<CellV>,
    f: Seq<FactV>,
    g: Seq<FactV>,
    ms: Seq<(Seq<char>, JsonV)>,
    n: int,
)
    requires
        extends(f, g),
        !(loaded_object(h, f, ms, n).1 is Need),
    ensures
        loaded_object(h, g, ms, n) == loaded_object(h, f, ms, n),
    decreases ms, 1int, n,
{
    if 0 < n && n <= ms.len() {
        lemma_json_object(h, f, g, ms, n - 1);
        let (k, r) = loaded_object(h, f, ms, n - 1);
        if r is Done {
            lemma_json(k.push(CellV::Str(ms[n - 1].0)), f, g, ms[n - 1].1);
        }
    }
}

/// A step that tests nothing goes by the rows alone.
proof fn lemma_plain_step(
    f: Seq<FactV>,
    g: Seq<FactV>,
    s: Seq<RowV>,
    focus: FocusV,
    nav: NavV,
)
    requires
        !(nav is Where),
    ensures
        focus_step(f, s, focus, nav) == focus_step(g, s, focus, nav),
{
}

proof fn lemma_plain_spread(
    f: Seq<FactV>,
    g: Seq<FactV>,
    s: Seq<RowV>,
    foci: Seq<FocusV>,
    nav: NavV,
    n: int,
)
    requires
        !(nav is Where),
    ensures
        focus_spread(f, s, foci, nav, n) == focus_spread(g, s, foci, nav, n),
    decreases n,
{
    if 0 < n && n <= foci.len() {
        lemma_plain_spread(f, g, s, foci, nav, n - 1);
        lemma_plain_step(f, g, s, foci[n - 1], nav);
    }
}

proof fn lemma_plain_steps(
    f: Seq<FactV>,
    g: Seq<FactV>,
    s: Seq<RowV>,
    foci: Seq<FocusV>,
    ns: Seq<NavV>,
    n: int,
)
    requires
        forall|i: int| 0 <= i < ns.len() ==> !(#[trigger] ns[i] is Where),
    ensures
        focus_steps(f, s, foci, ns, n) == focus_steps(g, s, foci, ns, n),
    decreases n,
{
    if 0 < n && n <= ns.len() {
        lemma_plain_steps(f, g, s, foci, ns, n - 1);
        if let Ok(ws) = focus_steps(f, s, foci, ns, n - 1) {
            lemma_plain_spread(f, g, s, ws, ns[n - 1], ws.len() as int);
        }
    }
}

proof fn lemma_peeked(
    f: Seq<FactV>,
    g: Seq<FactV>,
    s: Seq<RowV>,
    schema: ShapeV,
    navs: Seq<NavV>,
)
    ensures
        peeked(f, s, schema, None, navs) == peeked(g, s, schema, None, navs),
{
    let q = QueryV { namespace: None, navs };
    if !query_collects(q) {
        assert forall|i: int| 0 <= i < navs.len() implies !(#[trigger] navs[i] is Where) by {
            assert(!collecting(q.navs[i]));
        }
        lemma_plain_steps(
            f,
            g,
            s,
            seq![root_of(schema, q)],
            navs,
            navs.len() as int,
        );
    }
}

proof fn lemma_reduce_host(
    p: ProgramV,
    f: Seq<FactV>,
    g: Seq<FactV>,
    s: Seq<RowV>,
    schema: ShapeV,
    m: StateV,
    ops: Seq<OpV>,
    c: HostCallV,
)
    requires
        extends(f, g),
        !(reduce_host(p, f, s, schema, m, ops, c) matches Err(ErrorV::Need(_))),
    ensures
        reduce_host(p, g, s, schema, m, ops, c) == reduce_host(p, f, s, schema, m, ops, c),
{
    match c {
        HostCallV::Native(id, args) => {
            if id == NativeId::StoreCall {
                if let Ok(steps) = steps_of(m.h, args) {
                    if let Ok((navs, _)) = navs_spelled(schema, steps, steps.len() as int) {
                        lemma_peeked(f, g, s, schema, navs);
                    }
                }
            }
        },
        HostCallV::Lib(id, args) => {
            if let LibOutV::Json(j) = lib_out(m.h, id, args) {
                lemma_json(m.h, f, g, j);
            }
        },
        _ => {},
    }
}

proof fn lemma_reduce_run(
    p: ProgramV,
    f: Seq<FactV>,
    g: Seq<FactV>,
    s: Seq<RowV>,
    schema: ShapeV,
    m: StateV,
    ops: Seq<OpV>,
    fuel: nat,
)
    requires
        extends(f, g),
        !(reduce_run(p, f, s, schema, m, ops, fuel) matches Err(ErrorV::Need(_))),
    ensures
        reduce_run(p, g, s, schema, m, ops, fuel) == reduce_run(p, f, s, schema, m, ops, fuel),
    decreases fuel,
{
    lemma_steps(p, f, g, m, fuel);
    let (m2, o) = steps(p, f, m, fuel);
    let left = steps_left(p, f, m, fuel);
    if let OutcomeV::Host(c) = o {
        lemma_reduce_host(p, f, g, s, schema, m2, ops, c);
        if let Ok((m3, ops3)) = reduce_host(p, f, s, schema, m2, ops, c) {
            if left < fuel {
                lemma_reduce_run(p, f, g, s, schema, m3, ops3, left);
            }
        }
    }
}

/// A reducer that did not want a fact makes the same writes with more facts.
pub proof fn law_reducers_are_steady(
    r: HopReducer,
    f: Seq<FactV>,
    g: Seq<FactV>,
    s: Seq<RowV>,
    meta: Meta,
    event: JsonV,
)
    requires
        extends(f, g),
        !(hop_reduced(r, f, s, meta, event) matches Err(ErrorV::Need(_))),
    ensures
        hop_reduced(r, g, s, meta, event) == hop_reduced(r, f, s, meta, event),
{
    lemma_json(r.heap@, f, g, event);
    let (h, ev) = event_value(r.heap@, f, meta.seq, event);
    if let TryV::Done(v) = ev {
        if let Some(fr) = fn_frame(r.prog@, r.fn_idx, seq![v]) {
            lemma_reduce_run(
                r.prog@,
                f,
                g,
                s,
                r.schema@,
                StateV { h, g: r.globals@, frames: seq![fr] },
                Seq::empty(),
                STEP_LIMIT as nat,
            );
        }
    }
}

proof fn lemma_changed_all(
    f: Seq<FactV>,
    g: Seq<FactV>,
    s: Seq<RowV>,
    cs: Seq<ChangeV>,
    n: int,
)
    requires
        extends(f, g),
        !(changed_all(f, s, cs, n) is Need),
    ensures
        changed_all(g, s, cs, n) == changed_all(f, s, cs, n),
    decreases n,
{
    if 0 < n && n <= cs.len() {
        lemma_changed_all(f, g, s, cs, n - 1);
    }
}

/// A batch that did not want a fact commits the same with more facts.
pub proof fn law_commits_are_steady(f: Seq<FactV>, g: Seq<FactV>, s: Seq<RowV>, b: BatchV)
    requires
        extends(f, g),
        !(committed(f, s, b) matches Err(ErrorV::Need(_))),
    ensures
        committed(g, s, b) == committed(f, s, b),
{
    if let Ok(cs) = resolved(s, b) {
        lemma_changed_all(f, g, s, cs, cs.len() as int);
    }
}

} // verus!
