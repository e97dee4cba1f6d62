//! What a virtual machine does with its flows, as functions on its state.
//!
//! A machine works through jobs: it starts flows, runs them to their next
//! boundary, does what they ask of their host, and disposes of what came out.
//! The innermost job is done first. What it cannot do itself it asks for.

use crate::data::DataV;
use crate::float::FactV;
use crate::hui::{handler_of, hui_rendered, HuiV};
use crate::interp::{fn_frame, host_blamed, replied, value_frame, STEP_LIMIT};
use crate::ir::ProgramV;
use crate::machine::{global, steps, steps_left, FrameV, HostCallV, OutcomeV, StateV};
use crate::modules::{arg, lib_out, lib_scored, text_arg, LibOutV};
use crate::ranking::ComparisonV;
use crate::text::dec;
use crate::value::{
    coerced, entry_put, field_of, lib_name, text_of, AskV, CellV, LibId, NativeId, TryV, Value,
};
use crate::wire::{data_of, loaded, loaded_json};
use vstd::prelude::*;

verus! {

/// The side that a machine is.
pub enum SideV {
    Server,
    Browser(Seq<char>),
}

/// The address of a side.
pub open spec fn addr_of(s: SideV) -> Seq<char> {
    match s {
        SideV::Server => "server"@,
        SideV::Browser(a) => a,
    }
}

/// What a flow carries along.
pub struct CtxV {
    pub flow: Seq<char>,
    /// The session that the flow came from; nil for a flow of the server's own.
    pub origin: Value,
    /// The user of that session, or nil.
    pub user: Value,
}

/// What becomes of a flow's value.
pub enum CompleteV {
    /// Nothing.
    Done,
    /// It is sent to `to`.
    Reply { to: Value },
    /// It is handed to the caller of the function of that name.
    Sync(Seq<char>),
    /// It becomes the global of that name.
    Init(Seq<char>),
}

/// A flow at some point of its execution.
pub struct TaskV {
    pub frames: Seq<FrameV>,
    pub fuel: u64,
    pub ctx: CtxV,
    pub on_complete: CompleteV,
}

/// How a segment of a flow ended.
pub enum EndV {
    Done(Value),
    Suspended { target: Value, hop: Seq<char>, vars: Value },
    Failed(Seq<char>),
}

/// Something to do.
pub enum JobV {
    /// A packet came in.
    Packet(Value),
    /// A function is to run as a new flow.
    Start { callee: Value, args: Seq<Value> },
    /// The initializer of a global is to run.
    Init { name: Seq<char>, fn_idx: usize },
    /// A flow is to run to its next boundary.
    Run(TaskV),
    /// A flow asks something of its host.
    Host(TaskV, HostCallV),
    /// A segment has ended.
    Finish(TaskV, EndV),
}

/// What goes over the wire.
pub enum PacketV {
    Call {
        flow: Seq<char>,
        to: Value,
        hop: Seq<char>,
        vars: Value,
        origin: Value,
        user: Value,
        reply_to: Seq<char>,
    },
    Cast { flow: Seq<char>, to: Value, hop: Seq<char>, vars: Value, origin: Value, user: Value },
    Reply { flow: Seq<char>, to: Value, value: Value },
    Error { flow: Seq<char>, to: Value, err: Seq<char> },
    /// The error for a packet that cannot be served, with the flow as it said.
    Refused { said: Value, to: Value, err: Seq<char> },
}

/// What a machine has the platform do.
pub enum ActionV {
    Send(PacketV),
    Print(Seq<char>),
    DomSet { sel: Seq<char>, html: Seq<char> },
    DomClear(Seq<char>),
    DomFocus(Seq<char>),
}

/// What a machine wants answered before it goes on.
pub enum WantV {
    /// A fact about floats.
    Fact(AskV),
    /// The contents of an element of the page.
    DomGet(Seq<char>),
    /// What the store does for a native.
    Store { id: NativeId, args: Seq<Value> },
    /// The scores of votes.
    Scores { ids: Seq<Seq<char>>, votes: Seq<ComparisonV> },
}

/// What a step came to.
pub enum TickV {
    /// There is nothing to do.
    Idle,
    /// There may be more to do.
    More,
    /// An answer is wanted.
    Want(WantV),
}

/// A machine with its flows.
pub struct VmV {
    pub h: Seq<CellV>,
    pub g: Map<Seq<char>, Value>,
    pub side: SideV,
    /// The user of a browser's tab; nil on the server.
    pub user: Value,
    pub hui: HuiV,
    /// The flows that wait for a reply, by name, the innermost last.
    pub stacks: Seq<(Seq<char>, Seq<TaskV>)>,
    pub next_flow: u64,
    pub jobs: Seq<JobV>,
    /// The flows that the running segment has spawned.
    pub spawned: Seq<(Value, Seq<Value>)>,
    pub out: Seq<ActionV>,
    /// What the last synchronous call, or a failed initializer, came to.
    pub result: Option<Result<Value, Seq<char>>>,
}

/// With one more job.
pub open spec fn with_job(s: VmV, j: JobV) -> VmV {
    VmV { jobs: s.jobs.push(j), ..s }
}

/// With one more action.
pub open spec fn with_action(s: VmV, a: ActionV) -> VmV {
    VmV { out: s.out.push(a), ..s }
}

/// With a line printed.
pub open spec fn printed(s: VmV, line: Seq<char>) -> VmV {
    with_action(s, ActionV::Print(line))
}

/// With a packet sent.
pub open spec fn sent(s: VmV, p: PacketV) -> VmV {
    with_action(s, ActionV::Send(p))
}

/// The next number of a flow; it wraps around.
pub open spec fn next_number(n: u64) -> u64 {
    if n == u64::MAX {
        0
    } else {
        (n + 1) as u64
    }
}

/// The jobs that start what was spawned, the first of them innermost.
pub open spec fn starts(spawned: Seq<(Value, Seq<Value>)>) -> Seq<JobV> {
    Seq::new(
        spawned.len(),
        |i: int|
            JobV::Start {
                callee: spawned[spawned.len() - 1 - i].0,
                args: spawned[spawned.len() - 1 - i].1,
            },
    )
}

/// A segment has ended: what it spawned runs first, then it is disposed of.
pub open spec fn ended(s: VmV, t: TaskV, e: EndV) -> VmV {
    VmV {
        jobs: s.jobs.push(JobV::Finish(t, e)) + starts(s.spawned),
        spawned: Seq::empty(),
        ..s
    }
}

/// The flow goes on.
pub open spec fn again(s: VmV, t: TaskV) -> VmV {
    with_job(s, JobV::Run(t))
}

/// The state that the machine under the flow is in.
pub open spec fn state_of(s: VmV, t: TaskV) -> StateV {
    StateV { h: s.h, g: s.g, frames: t.frames }
}

/// The flow goes on with an answer to what it asked.
pub open spec fn answered(s: VmV, t: TaskV, v: Value) -> VmV {
    again(s, TaskV { frames: replied(state_of(s, t), v).frames, ..t })
}

/// What the flow asked for failed, at the place where it asked.
pub open spec fn failed(p: ProgramV, s: VmV, t: TaskV, m: Seq<char>) -> VmV {
    ended(s, t, EndV::Failed(host_blamed(p, state_of(s, t), m)))
}

/// A new flow.
pub open spec fn started(p: ProgramV, s: VmV, callee: Value, args: Seq<Value>) -> VmV {
    let n = next_number(s.next_flow);
    let flow = addr_of(s.side) + "#"@ + dec(n as nat);
    let (h, origin) = match s.side {
        SideV::Browser(a) => (s.h.push(CellV::Str(a)), Value::Str(s.h.len() as usize)),
        SideV::Server => (s.h, Value::Nil),
    };
    let s2 = VmV { h, next_flow: n, ..s };
    match value_frame(p, h, callee, args) {
        Err(m) => printed(s2, "!! unhandled flow error: "@ + m),
        Ok(fr) => again(
            s2,
            TaskV {
                frames: seq![fr],
                fuel: STEP_LIMIT,
                ctx: CtxV { flow, origin, user: s.user },
                on_complete: CompleteV::Done,
            },
        ),
    }
}

/// The initializer of a global begins.
pub open spec fn initialized(p: ProgramV, s: VmV, name: Seq<char>, fn_idx: usize) -> VmV {
    let t = TaskV {
        frames: Seq::empty(),
        fuel: STEP_LIMIT,
        ctx: CtxV { flow: "init:"@ + name, origin: Value::Nil, user: Value::Nil },
        on_complete: CompleteV::Init(name),
    };
    match fn_frame(p, fn_idx, Seq::empty()) {
        None => ended(s, t, EndV::Failed("corrupt program"@)),
        Some(fr) => again(s, TaskV { frames: seq![fr], ..t }),
    }
}

/// A flow has run to its next boundary.
pub open spec fn ran(p: ProgramV, f: Seq<FactV>, s: VmV, t: TaskV) -> (VmV, TickV) {
    let (m, o) = steps(p, f, state_of(s, t), t.fuel as nat);
    let left = steps_left(p, f, state_of(s, t), t.fuel as nat) as u64;
    let s2 = VmV { h: m.h, g: m.g, ..s };
    let t2 = TaskV { frames: m.frames, fuel: left, ..t };
    match o {
        OutcomeV::Done(v) => (ended(s2, t2, EndV::Done(v)), TickV::More),
        OutcomeV::Error(e) => (ended(s2, t2, EndV::Failed(e)), TickV::More),
        OutcomeV::Suspend { target, hop, vars } => (
            ended(s2, t2, EndV::Suspended { target, hop, vars }),
            TickV::More,
        ),
        OutcomeV::Host(c) => (with_job(s2, JobV::Host(t2, c)), TickV::More),
        OutcomeV::Need(q) => (
            again(s2, TaskV { fuel: next_number(left), ..t2 }),
            TickV::Want(WantV::Fact(q)),
        ),
    }
}

/// The host is waiting for an answer.
pub open spec fn waits(s: VmV, t: TaskV, c: HostCallV, w: WantV) -> (VmV, TickV) {
    (with_job(s, JobV::Host(t, c)), TickV::Want(w))
}

/// The selector of a native of the page.
pub open spec fn selector(h: Seq<CellV>, args: Seq<Value>) -> Option<Seq<char>> {
    text_arg(h, args, 0)
}

/// The text that a native of the page sets: that of its second argument, empty
/// where there is none.
pub open spec fn html_arg(h: Seq<CellV>, f: Seq<FactV>, args: Seq<Value>) -> TryV<Seq<char>> {
    if args.len() > 1 {
        coerced(h, f, args[1])
    } else {
        TryV::Done(Seq::empty())
    }
}

/// A native of the page or of the store.
pub open spec fn native_done(
    p: ProgramV,
    f: Seq<FactV>,
    s: VmV,
    t: TaskV,
    id: NativeId,
    args: Seq<Value>,
) -> (VmV, TickV) {
    let c = HostCallV::Native(id, args);
    match id {
        NativeId::DomGet => match selector(s.h, args) {
            None => (failed(p, s, t, "dom.get(selector)"@), TickV::More),
            Some(sel) => waits(s, t, c, WantV::DomGet(sel)),
        },
        NativeId::DomSet => match selector(s.h, args) {
            None => (failed(p, s, t, "dom.set(selector, html)"@), TickV::More),
            Some(sel) => match html_arg(s.h, f, args) {
                TryV::Done(html) => (
                    answered(with_action(s, ActionV::DomSet { sel, html }), t, Value::Nil),
                    TickV::More,
                ),
                TryV::Fail(m) => (failed(p, s, t, m), TickV::More),
                TryV::Need(q) => waits(s, t, c, WantV::Fact(q)),
            },
        },
        NativeId::DomClear => match selector(s.h, args) {
            None => (failed(p, s, t, "dom.clear(selector)"@), TickV::More),
            Some(sel) => (
                answered(with_action(s, ActionV::DomClear(sel)), t, Value::Nil),
                TickV::More,
            ),
        },
        NativeId::DomFocus => match selector(s.h, args) {
            None => (failed(p, s, t, "dom.focus(selector)"@), TickV::More),
            Some(sel) => (
                answered(with_action(s, ActionV::DomFocus(sel)), t, Value::Nil),
                TickV::More,
            ),
        },
        NativeId::HuiRender => match selector(s.h, args) {
            None => (failed(p, s, t, "hui.render(selector, node)"@), TickV::More),
            Some(sel) => {
                let (hui, r) = hui_rendered(s.h, f, s.hui, sel, arg(args, 1));
                let s2 = VmV { hui, ..s };
                match r {
                    TryV::Done(html) => (
                        answered(with_action(s2, ActionV::DomSet { sel, html }), t, Value::Nil),
                        TickV::More,
                    ),
                    TryV::Fail(m) => (failed(p, s2, t, m), TickV::More),
                    TryV::Need(q) => waits(s2, t, c, WantV::Fact(q)),
                }
            },
        },
        _ => waits(s, t, c, WantV::Store { id, args }),
    }
}

/// An effect: the flow is suspended towards the platform, on the server only.
pub open spec fn effect(p: ProgramV, s: VmV, t: TaskV, id: LibId, hop: Seq<char>, vars: Value) -> (
    VmV,
    TickV,
) {
    if s.side is Server {
        let target = Value::Str(s.h.len() as usize);
        (
            ended(
                VmV { h: s.h.push(CellV::Str("@effects"@)), ..s },
                t,
                EndV::Suspended { target, hop, vars },
            ),
            TickV::More,
        )
    } else {
        (failed(p, s, t, lib_name(id) + " is server-side only"@), TickV::More)
    }
}

/// What a module native gave is settled.
pub open spec fn lib_settled(
    p: ProgramV,
    f: Seq<FactV>,
    s: VmV,
    t: TaskV,
    id: LibId,
    args: Seq<Value>,
    out: LibOutV,
) -> (VmV, TickV) {
    let c = HostCallV::Lib(id, args);
    match out {
        LibOutV::Value(v) => (answered(s, t, v), TickV::More),
        LibOutV::Fail(m) => (failed(p, s, t, m), TickV::More),
        LibOutV::Data(d) => {
            let (h, r) = loaded(s.h, d);
            let s2 = VmV { h, ..s };
            match r {
                Ok(v) => (answered(s2, t, v), TickV::More),
                Err(m) => (failed(p, s2, t, m), TickV::More),
            }
        },
        LibOutV::Json(j) => {
            let (h, r) = loaded_json(s.h, f, j);
            let s2 = VmV { h, ..s };
            match r {
                TryV::Done(v) => (answered(s2, t, v), TickV::More),
                TryV::Fail(m) => (failed(p, s2, t, m), TickV::More),
                TryV::Need(q) => waits(s2, t, c, WantV::Fact(q)),
            }
        },
        LibOutV::Effect { hop, vars } => {
            let (h, r) = loaded(s.h, vars);
            let s2 = VmV { h, ..s };
            match r {
                Ok(v) => effect(p, s2, t, id, hop, v),
                Err(m) => (failed(p, s2, t, m), TickV::More),
            }
        },
        LibOutV::Request { hop, req } => {
            let k = Value::Str(s.h.len() as usize);
            let h = s.h.push(CellV::Str("req"@)).push(CellV::Dict(seq![(k, req)]));
            effect(p, VmV { h, ..s }, t, id, hop, Value::Dict((s.h.len() + 1) as usize))
        },
        LibOutV::Scores { ids, votes } => waits(s, t, c, WantV::Scores { ids, votes }),
    }
}

/// What a flow asked of its host is done.
pub open spec fn hosted(p: ProgramV, f: Seq<FactV>, s: VmV, t: TaskV, c: HostCallV) -> (VmV, TickV) {
    match c {
        HostCallV::Print(line) => (answered(printed(s, line), t, Value::Nil), TickV::More),
        HostCallV::Cast { target, hop, vars } => (
            again(
                sent(
                    s,
                    PacketV::Cast {
                        flow: t.ctx.flow,
                        to: target,
                        hop,
                        vars,
                        origin: t.ctx.origin,
                        user: t.ctx.user,
                    },
                ),
                t,
            ),
            TickV::More,
        ),
        HostCallV::Spawn { callee, args } => (
            again(VmV { spawned: s.spawned.push((callee, args)), ..s }, t),
            TickV::More,
        ),
        HostCallV::Session => match s.side {
            SideV::Browser(a) => (
                answered(
                    VmV { h: s.h.push(CellV::Str(a)), ..s },
                    t,
                    Value::Str(s.h.len() as usize),
                ),
                TickV::More,
            ),
            SideV::Server => if t.ctx.origin is Nil {
                (
                    failed(p, s, t, "session() in a server-origin flow with no session"@),
                    TickV::More,
                )
            } else {
                (answered(s, t, t.ctx.origin), TickV::More)
            },
        },
        HostCallV::User => {
            let u = match s.side {
                SideV::Browser(_) => s.user,
                SideV::Server => t.ctx.user,
            };
            if u is Nil {
                (failed(p, s, t, "user() in a flow with no user"@), TickV::More)
            } else {
                (answered(s, t, u), TickV::More)
            }
        },
        HostCallV::Native(id, args) => native_done(p, f, s, t, id, args),
        HostCallV::Lib(id, args) => lib_settled(
            p,
            f,
            s,
            t,
            id,
            args,
            lib_out(s.h, id, args),
        ),
    }
}

/// An error reaches the end of a flow's segment: it goes to whoever waits for a
/// reply, or is printed.
pub open spec fn disposed(s: VmV, t: TaskV, m: Seq<char>) -> VmV {
    match t.on_complete {
        CompleteV::Reply { to } => sent(s, PacketV::Error { flow: t.ctx.flow, to, err: m }),
        CompleteV::Done => printed(s, "!! unhandled flow error: "@ + m),
        CompleteV::Sync(_) => VmV { result: Some(Err(m)), ..s },
        CompleteV::Init(name) => VmV {
            result: Some(Err("server let "@ + name + ": "@ + m)),
            jobs: Seq::empty(),
            ..s
        },
    }
}

/// The place of the flow `flow` among those that wait, from `i` on.
pub open spec fn flow_place(ss: Seq<(Seq<char>, Seq<TaskV>)>, flow: Seq<char>, i: int) -> int
    decreases ss.len() - i,
{
    if i < 0 || i >= ss.len() || ss[i].0 == flow {
        i
    } else {
        flow_place(ss, flow, i + 1)
    }
}

/// The flows that wait, with one more.
pub open spec fn parked(ss: Seq<(Seq<char>, Seq<TaskV>)>, t: TaskV) -> Seq<(Seq<char>, Seq<TaskV>)> {
    let i = flow_place(ss, t.ctx.flow, 0);
    if i < ss.len() {
        ss.update(i, (ss[i].0, ss[i].1.push(t)))
    } else {
        ss.push((t.ctx.flow, seq![t]))
    }
}

/// The flows that wait, without the innermost of the flow `flow`.
pub open spec fn unparked(ss: Seq<(Seq<char>, Seq<TaskV>)>, flow: Seq<char>) -> Option<
    (Seq<(Seq<char>, Seq<TaskV>)>, TaskV),
> {
    let i = flow_place(ss, flow, 0);
    if i < ss.len() && ss[i].1.len() > 0 {
        let t = ss[i].1.last();
        if ss[i].1.len() == 1 {
            Some((ss.remove(i), t))
        } else {
            Some((ss.update(i, (ss[i].0, ss[i].1.drop_last())), t))
        }
    } else {
        None
    }
}

/// A segment is disposed of.
pub open spec fn finished(s: VmV, t: TaskV, e: EndV) -> VmV {
    match e {
        EndV::Done(v) => match t.on_complete {
            CompleteV::Reply { to } => sent(
                s,
                PacketV::Reply { flow: t.ctx.flow, to, value: v },
            ),
            CompleteV::Done => s,
            CompleteV::Sync(_) => VmV { result: Some(Ok(v)), ..s },
            CompleteV::Init(name) => VmV { g: s.g.insert(name, v), ..s },
        },
        EndV::Failed(m) => disposed(s, t, m),
        EndV::Suspended { target, hop, vars } => match t.on_complete {
            CompleteV::Sync(name) => VmV {
                result: Some(Err("call_sync "@ + name + ": cannot hop"@)),
                ..s
            },
            CompleteV::Init(name) => disposed(s, t, "initializer cannot hop"@),
            _ => {
                let s2 = sent(
                    s,
                    PacketV::Call {
                        flow: t.ctx.flow,
                        to: target,
                        hop,
                        vars,
                        origin: t.ctx.origin,
                        user: t.ctx.user,
                        reply_to: addr_of(s.side),
                    },
                );
                VmV { stacks: parked(s2.stacks, t), ..s2 }
            },
        },
    }
}

/// The text of a field; `other` where it is none.
pub open spec fn field_text(h: Seq<CellV>, v: Value, k: Seq<char>, other: Seq<char>) -> Seq<char> {
    match text_of(h, field_of(h, v, k)) {
        Some(s) => s,
        None => other,
    }
}

/// A call or a cast came in.
pub open spec fn called(p: ProgramV, s: VmV, pkt: Value, call: bool) -> VmV {
    let hop = field_text(s.h, pkt, "hop"@, Seq::empty());
    let reply_to = field_of(s.h, pkt, "reply_to"@);
    if p.hops.contains_key(hop) {
        let t = TaskV {
            frames: Seq::empty(),
            fuel: STEP_LIMIT,
            ctx: CtxV {
                flow: field_text(s.h, pkt, "flow"@, "?"@),
                origin: field_of(s.h, pkt, "origin"@),
                user: field_of(s.h, pkt, "user"@),
            },
            on_complete: if call {
                CompleteV::Reply { to: reply_to }
            } else {
                CompleteV::Done
            },
        };
        match fn_frame(p, p.hops[hop], seq![field_of(s.h, pkt, "vars"@)]) {
            None => ended(s, t, EndV::Failed("corrupt program"@)),
            Some(fr) => again(s, TaskV { frames: seq![fr], ..t }),
        }
    } else if call {
        sent(
            s,
            PacketV::Refused {
                said: field_of(s.h, pkt, "flow"@),
                to: reply_to,
                err: "unknown hop: "@ + hop,
            },
        )
    } else {
        printed(s, "!! unknown hop: "@ + hop + " (cast dropped)"@)
    }
}

/// A reply or an error came in: it goes to the innermost waiting segment of its
/// flow.
pub open spec fn returned(f: Seq<FactV>, s: VmV, pkt: Value, kind: Seq<char>) -> (VmV, TickV) {
    let flow = field_text(s.h, pkt, "flow"@, "?"@);
    let err = coerced(s.h, f, field_of(s.h, pkt, "err"@));
    let reply = kind == "reply"@;
    if !reply && err is Need {
        (with_job(s, JobV::Packet(pkt)), TickV::Want(WantV::Fact(err->Need_0)))
    } else {
        let m = match err {
            TryV::Done(m) => m,
            TryV::Fail(m) => m,
            TryV::Need(_) => Seq::empty(),
        };
        match unparked(s.stacks, flow) {
            None => (
                printed(
                    s,
                    "!! "@ + kind + " for a flow with nothing suspended: "@ + flow + (if reply {
                        Seq::empty()
                    } else {
                        ": "@ + m
                    }),
                ),
                TickV::More,
            ),
            Some((stacks, t)) => {
                let s2 = VmV { stacks, ..s };
                if reply {
                    (
                        answered(
                            s2,
                            TaskV { fuel: STEP_LIMIT, ..t },
                            field_of(s.h, pkt, "value"@),
                        ),
                        TickV::More,
                    )
                } else {
                    (disposed(s2, t, m), TickV::More)
                }
            },
        }
    }
}

/// A packet came in.
pub open spec fn received(p: ProgramV, f: Seq<FactV>, s: VmV, pkt: Value) -> (VmV, TickV) {
    let kind = field_text(s.h, pkt, "kind"@, Seq::empty());
    if kind == "call"@ {
        (called(p, s, pkt, true), TickV::More)
    } else if kind == "cast"@ {
        (called(p, s, pkt, false), TickV::More)
    } else if kind == "reply"@ || kind == "error"@ {
        returned(f, s, pkt, kind)
    } else {
        (printed(s, "!! unknown packet kind: "@ + kind), TickV::More)
    }
}

/// The innermost job is done.
pub open spec fn vm_step(p: ProgramV, f: Seq<FactV>, s: VmV) -> (VmV, TickV) {
    if s.jobs.len() == 0 {
        (s, TickV::Idle)
    } else {
        let s2 = VmV { jobs: s.jobs.drop_last(), ..s };
        match s.jobs.last() {
            JobV::Packet(pkt) => received(p, f, s2, pkt),
            JobV::Start { callee, args } => (started(p, s2, callee, args), TickV::More),
            JobV::Init { name, fn_idx } => (initialized(p, s2, name, fn_idx), TickV::More),
            JobV::Run(t) => ran(p, f, s2, t),
            JobV::Host(t, c) => hosted(p, f, s2, t, c),
            JobV::Finish(t, e) => (finished(s2, t, e), TickV::More),
        }
    }
}

/// The machine once what it wanted is answered.
pub open spec fn vm_answered(p: ProgramV, s: VmV, r: Result<Value, Seq<char>>) -> VmV {
    if s.jobs.len() == 0 {
        s
    } else {
        let s2 = VmV { jobs: s.jobs.drop_last(), ..s };
        match s.jobs.last() {
            JobV::Host(t, c) => match r {
                Ok(v) => answered(s2, t, v),
                Err(m) => failed(p, s2, t, m),
            },
            _ => s,
        }
    }
}

/// The machine once the scores that it wanted are known.
pub open spec fn vm_scored(p: ProgramV, f: Seq<FactV>, s: VmV, scores: Seq<Seq<u64>>) -> (
    VmV,
    TickV,
) {
    if s.jobs.len() == 0 {
        (s, TickV::Idle)
    } else {
        let s2 = VmV { jobs: s.jobs.drop_last(), ..s };
        match s.jobs.last() {
            JobV::Host(t, HostCallV::Lib(id, args)) => lib_settled(
                p,
                f,
                s2,
                t,
                id,
                args,
                lib_scored(s.h, id, args, scores),
            ),
            _ => (s, TickV::More),
        }
    }
}

/// A field of a packet, unless it is nil.
pub open spec fn packet_field(h: Seq<CellV>, k: Seq<char>, v: Value) -> Result<
    Seq<(DataV, DataV)>,
    Seq<char>,
> {
    if v is Nil {
        Ok(Seq::empty())
    } else {
        match data_of(h, h.len(), v) {
            Ok(d) => Ok(seq![(DataV::Text(k), d)]),
            Err(m) => Err(m),
        }
    }
}

/// The pair of two texts.
pub open spec fn text_pair(k: Seq<char>, v: Seq<char>) -> (DataV, DataV) {
    (DataV::Text(k), DataV::Text(v))
}

/// What comes of two lists of fields.
pub open spec fn both(
    a: Result<Seq<(DataV, DataV)>, Seq<char>>,
    b: Result<Seq<(DataV, DataV)>, Seq<char>>,
) -> Result<Seq<(DataV, DataV)>, Seq<char>> {
    match a {
        Err(m) => Err(m),
        Ok(x) => match b {
            Err(m) => Err(m),
            Ok(y) => Ok(x + y),
        },
    }
}

/// The fields of a packet, by key; those that are nil are left out.
pub open spec fn packet_fields(h: Seq<CellV>, p: PacketV) -> Result<
    Seq<(DataV, DataV)>,
    Seq<char>,
> {
    match p {
        PacketV::Call { flow, to, hop, vars, origin, user, reply_to } => both(
            Ok(
                seq![
                    text_pair("flow"@, flow),
                    text_pair("hop"@, hop),
                    text_pair("kind"@, "call"@),
                ],
            ),
            both(
                packet_field(h, "origin"@, origin),
                both(
                    Ok(seq![text_pair("reply_to"@, reply_to)]),
                    both(
                        packet_field(h, "to"@, to),
                        both(packet_field(h, "user"@, user), packet_field(h, "vars"@, vars)),
                    ),
                ),
            ),
        ),
        PacketV::Cast { flow, to, hop, vars, origin, user } => both(
            Ok(
                seq![
                    text_pair("flow"@, flow),
                    text_pair("hop"@, hop),
                    text_pair("kind"@, "cast"@),
                ],
            ),
            both(
                packet_field(h, "origin"@, origin),
                both(
                    packet_field(h, "to"@, to),
                    both(packet_field(h, "user"@, user), packet_field(h, "vars"@, vars)),
                ),
            ),
        ),
        PacketV::Reply { flow, to, value } => both(
            Ok(seq![text_pair("flow"@, flow), text_pair("kind"@, "reply"@)]),
            both(packet_field(h, "to"@, to), packet_field(h, "value"@, value)),
        ),
        PacketV::Error { flow, to, err } => both(
            Ok(
                seq![
                    text_pair("err"@, err),
                    text_pair("flow"@, flow),
                    text_pair("kind"@, "error"@),
                ],
            ),
            packet_field(h, "to"@, to),
        ),
        PacketV::Refused { said, to, err } => both(
            Ok(seq![text_pair("err"@, err)]),
            both(
                packet_field(h, "flow"@, said),
                both(
                    Ok(seq![text_pair("kind"@, "error"@)]),
                    packet_field(h, "to"@, to),
                ),
            ),
        ),
    }
}

/// A packet as data.
pub open spec fn packet_data(h: Seq<CellV>, p: PacketV) -> Result<DataV, Seq<char>> {
    match packet_fields(h, p) {
        Ok(fs) => Ok(DataV::Dict(fs)),
        Err(m) => Err(m),
    }
}

/// The cells once a map of named values is made, and its entries.
pub open spec fn named_entries(h: Seq<CellV>, fs: Seq<(Seq<char>, Value)>, n: int) -> (
    Seq<CellV>,
    Seq<(Value, Value)>,
)
    decreases n,
{
    if n <= 0 || n > fs.len() {
        (h, Seq::empty())
    } else {
        let (g, es) = named_entries(h, fs, n - 1);
        let k = Value::Str(g.len() as usize);
        let g2 = g.push(CellV::Str(fs[n - 1].0));
        (g2, entry_put(g2, es, k, fs[n - 1].1))
    }
}

/// The cells once a map of named values is made, and the map.
pub open spec fn named_map(h: Seq<CellV>, fs: Seq<(Seq<char>, Value)>) -> (Seq<CellV>, Value) {
    let (g, es) = named_entries(h, fs, fs.len() as int);
    (g.push(CellV::Dict(es)), Value::Dict(g.len() as usize))
}

/// The cells and globals once a map of named values is mounted as the global
/// `name`.
pub open spec fn mounted(s: VmV, name: Seq<char>, fs: Seq<(Seq<char>, Value)>) -> VmV {
    let (h, v) = named_map(s.h, fs);
    VmV { h, g: s.g.insert(name, v), ..s }
}

/// With a global set.
pub open spec fn with_global(s: VmV, name: Seq<char>, v: Value) -> VmV {
    VmV { g: s.g.insert(name, v), ..s }
}

/// With the core of the language.
pub open spec fn with_core(s: VmV) -> VmV {
    VmV {
        g: s.g.insert("print"@, Value::Native(NativeId::Print)).insert(
            "error"@,
            Value::Native(NativeId::Error),
        ).insert("tostring"@, Value::Native(NativeId::Tostring)).insert(
            "tonumber"@,
            Value::Native(NativeId::Tonumber),
        ).insert("push"@, Value::Native(NativeId::Push)).insert(
            "len"@,
            Value::Native(NativeId::Len),
        ).insert("sort_by"@, Value::Native(NativeId::SortBy)).insert(
            "floor"@,
            Value::Native(NativeId::Floor),
        ).insert("type"@, Value::Native(NativeId::TypeOf)),
        ..s
    }
}

/// With the modules.
pub open spec fn with_modules(s: VmV) -> VmV {
    let a = mounted(
        s,
        "json"@,
        seq![
            ("decode"@, Value::Lib(LibId::JsonDecode)),
            ("encode"@, Value::Lib(LibId::JsonEncode)),
            ("first"@, Value::Lib(LibId::JsonFirst)),
        ],
    );
    let b = with_global(
        with_global(a, "markdown"@, Value::Lib(LibId::Markdown)),
        "bash"@,
        Value::Lib(LibId::Bash),
    );
    let c = mounted(
        b,
        "llm"@,
        seq![
            ("call"@, Value::Lib(LibId::LlmCall)),
            ("models"@, Value::Lib(LibId::LlmModels)),
            ("next"@, Value::Lib(LibId::LlmNext)),
            ("stream"@, Value::Lib(LibId::LlmStream)),
        ],
    );
    mounted(
        c,
        "rank"@,
        seq![
            ("before"@, Value::Lib(LibId::RankBefore)),
            ("components"@, Value::Lib(LibId::RankComponents)),
            ("cut"@, Value::Lib(LibId::RankCut)),
            ("finalize"@, Value::Lib(LibId::RankFinalize)),
            ("has"@, Value::Lib(LibId::RankHas)),
            ("parse_score"@, Value::Lib(LibId::RankParseScore)),
            ("plan"@, Value::Lib(LibId::RankPlan)),
            ("project"@, Value::Lib(LibId::RankProject)),
            ("score"@, Value::Lib(LibId::RankScore)),
            ("strip"@, Value::Lib(LibId::RankStrip)),
        ],
    )
}

/// With the store and the page.
pub open spec fn with_platform(s: VmV) -> VmV {
    let a = with_global(s, "store"@, Value::Native(NativeId::StoreCall));
    let b = mounted(
        a,
        "dom"@,
        seq![
            ("clear"@, Value::Native(NativeId::DomClear)),
            ("focus"@, Value::Native(NativeId::DomFocus)),
            ("get"@, Value::Native(NativeId::DomGet)),
            ("set"@, Value::Native(NativeId::DomSet)),
        ],
    );
    mounted(b, "hui"@, seq![("render"@, Value::Native(NativeId::HuiRender))])
}

/// With the first `n` named functions.
pub open spec fn with_functions(s: VmV, fns: Seq<(Seq<char>, usize)>, n: int) -> VmV
    decreases n,
{
    if n <= 0 || n > fns.len() {
        s
    } else {
        let t = with_functions(s, fns, n - 1);
        VmV {
            h: t.h.push(CellV::Closure(fns[n - 1].1, Seq::empty())),
            g: t.g.insert(fns[n - 1].0, Value::Closure(t.h.len() as usize)),
            ..t
        }
    }
}

/// The jobs that run the initializers, the first of them innermost.
pub open spec fn init_jobs(lets: Seq<(Seq<char>, usize)>) -> Seq<JobV> {
    Seq::new(
        lets.len(),
        |i: int|
            JobV::Init { name: lets[lets.len() - 1 - i].0, fn_idx: lets[lets.len() - 1 - i].1 },
    )
}

/// A new machine: the core, the modules, the platform and the program's
/// functions are its globals, and on the server the initializers are to run.
pub open spec fn new_vm(p: ProgramV, fns: Seq<(Seq<char>, usize)>, side: SideV) -> VmV {
    let s = VmV {
        h: Seq::empty(),
        g: Map::empty(),
        side,
        user: Value::Nil,
        hui: HuiV { handlers: Seq::empty(), seq: 0 },
        stacks: Seq::empty(),
        next_flow: 0,
        jobs: if side is Server {
            init_jobs(p.server_lets)
        } else {
            Seq::empty()
        },
        spawned: Seq::empty(),
        out: Seq::empty(),
        result: None,
    };
    with_functions(with_platform(with_modules(with_core(s))), fns, fns.len() as int)
}

/// The function `name` is to run as a new flow.
pub open spec fn fired(s: VmV, name: Seq<char>, args: Seq<Value>) -> VmV {
    with_job(s, JobV::Start { callee: global(s.g, name), args })
}

/// The handler `id` is to run as a new flow with an event.
pub open spec fn handler_fired(s: VmV, id: i64, ev: Value) -> VmV {
    match handler_of(s.hui, id) {
        Some(h) => with_job(s, JobV::Start { callee: h, args: seq![ev] }),
        None => s,
    }
}

/// The hook `name` is to run for a session, where the program has one.
pub open spec fn hooked(s: VmV, name: Seq<char>, sid: Seq<char>, user: Seq<char>) -> VmV {
    if global(s.g, name) is Nil {
        s
    } else {
        let n = s.h.len();
        fired(
            VmV { h: s.h.push(CellV::Str(sid)).push(CellV::Str(user)), ..s },
            name,
            seq![Value::Str(n as usize), Value::Str((n + 1) as usize)],
        )
    }
}

/// The function `name` is to run at once, for its value.
pub open spec fn call_synced(p: ProgramV, s: VmV, name: Seq<char>, args: Seq<Value>) -> VmV {
    let s1 = VmV { result: None, ..s };
    match value_frame(p, s.h, global(s.g, name), args) {
        Err(m) => VmV { result: Some(Err(m)), ..s1 },
        Ok(fr) => {
            let n = next_number(s.next_flow);
            again(
                VmV { next_flow: n, ..s1 },
                TaskV {
                    frames: seq![fr],
                    fuel: STEP_LIMIT,
                    ctx: CtxV {
                        flow: addr_of(s.side) + "#sync"@ + dec(n as nat),
                        origin: Value::Nil,
                        user: Value::Nil,
                    },
                    on_complete: CompleteV::Sync(name),
                },
            )
        },
    }
}

/// No flow is listed as waiting without a segment that waits.
pub open spec fn stacks_full(ss: Seq<(Seq<char>, Seq<TaskV>)>) -> bool {
    forall|i: int| 0 <= i < ss.len() ==> (#[trigger] ss[i]).1.len() > 0
}

proof fn lemma_flow_place(ss: Seq<(Seq<char>, Seq<TaskV>)>, flow: Seq<char>, i: int)
    requires
        0 <= i <= ss.len(),
    ensures
        i <= flow_place(ss, flow, i) <= ss.len(),
        flow_place(ss, flow, i) < ss.len() ==> ss[flow_place(ss, flow, i)].0 == flow,
        forall|j: int| i <= j < flow_place(ss, flow, i) ==> (#[trigger] ss[j]).0 != flow,
    decreases ss.len() - i,
{
    if i < ss.len() && ss[i].0 != flow {
        lemma_flow_place(ss, flow, i + 1);
    }
}

proof fn lemma_place_is(ss: Seq<(Seq<char>, Seq<TaskV>)>, flow: Seq<char>, i: int, k: int)
    requires
        0 <= i <= k < ss.len(),
        ss[k].0 == flow,
        forall|j: int| i <= j < k ==> (#[trigger] ss[j]).0 != flow,
    ensures
        flow_place(ss, flow, i) == k,
    decreases k - i,
{
    if i < k {
        assert(ss[i].0 != flow);
        lemma_place_is(ss, flow, i + 1, k);
    }
}

/// Replies are routed to the segment that was suspended last: what was parked
/// comes back first, and the flows that wait are then as they were before.
pub proof fn law_replies_are_lifo(ss: Seq<(Seq<char>, Seq<TaskV>)>, t: TaskV)
    requires
        stacks_full(ss),
    ensures
        unparked(parked(ss, t), t.ctx.flow) == Some((ss, t)),
        stacks_full(parked(ss, t)),
{
    let flow = t.ctx.flow;
    let i = flow_place(ss, flow, 0);
    lemma_flow_place(ss, flow, 0);
    let ps = parked(ss, t);
    if i < ss.len() {
        assert(ss[i].1.len() > 0);
        assert forall|j: int| 0 <= j < i implies (#[trigger] ps[j]).0 != flow by {
            assert(ps[j] == ss[j]);
        }
        lemma_place_is(ps, flow, 0, i);
        assert(ps[i].1.drop_last() =~= ss[i].1);
        assert(ps.update(i, (ps[i].0, ps[i].1.drop_last())) =~= ss);
    } else {
        assert forall|j: int| 0 <= j < i implies (#[trigger] ps[j]).0 != flow by {
            assert(ps[j] == ss[j]);
        }
        lemma_place_is(ps, flow, 0, i);
        assert(ps.remove(i) =~= ss);
    }
    assert forall|j: int| 0 <= j < ps.len() implies (#[trigger] ps[j]).1.len() > 0 by {
        if j < ss.len() {
            assert(ss[j].1.len() > 0);
        }
    }
}

proof fn lemma_unparked_full(ss: Seq<(Seq<char>, Seq<TaskV>)>, flow: Seq<char>)
    requires
        stacks_full(ss),
    ensures
        unparked(ss, flow) matches Some((rest, t)) ==> stacks_full(rest),
{
    let i = flow_place(ss, flow, 0);
    lemma_flow_place(ss, flow, 0);
    if i < ss.len() && ss[i].1.len() > 0 {
        if ss[i].1.len() == 1 {
            let rest = ss.remove(i);
            assert forall|j: int| 0 <= j < rest.len() implies (#[trigger] rest[j]).1.len() > 0 by {
                if j < i {
                    assert(rest[j] == ss[j]);
                } else {
                    assert(rest[j] == ss[j + 1]);
                }
            }
        } else {
            let rest = ss.update(i, (ss[i].0, ss[i].1.drop_last()));
            assert forall|j: int| 0 <= j < rest.len() implies (#[trigger] rest[j]).1.len() > 0 by {
                if j != i {
                    assert(rest[j] == ss[j]);
                }
            }
        }
    }
}

/// Whatever a machine does, no flow is listed as waiting without a segment that
/// waits.
pub proof fn law_waiting_flows_have_segments(p: ProgramV, f: Seq<FactV>, s: VmV)
    requires
        stacks_full(s.stacks),
    ensures
        stacks_full(vm_step(p, f, s).0.stacks),
{
    if s.jobs.len() > 0 {
        let s2 = VmV { jobs: s.jobs.drop_last(), ..s };
        match s.jobs.last() {
            JobV::Packet(pkt) => {
                lemma_unparked_full(s.stacks, field_text(s.h, pkt, "flow"@, "?"@));
            },
            JobV::Finish(t, e) => {
                law_replies_are_lifo(s.stacks, t);
            },
            _ => {},
        }
    }
}

/// Effects are for the server alone: in a browser, a native that is one fails
/// with its name, and nothing is sent.
pub proof fn law_effects_are_server_side(
    p: ProgramV,
    s: VmV,
    t: TaskV,
    id: LibId,
    hop: Seq<char>,
    vars: Value,
)
    requires
        s.side is Browser,
    ensures
        ({
            let (s2, tick) = effect(p, s, t, id, hop, vars);
            s2 == failed(p, s, t, lib_name(id) + " is server-side only"@) && s2.out == s.out
        }),
{
}

/// An error in a segment that someone waits for goes to the one who waits, and
/// to nobody else.
pub proof fn law_errors_unwind(s: VmV, t: TaskV, m: Seq<char>, to: Value)
    requires
        t.on_complete == (CompleteV::Reply { to }),
    ensures
        finished(s, t, EndV::Failed(m)).out == s.out.push(
            ActionV::Send(PacketV::Error { flow: t.ctx.flow, to, err: m }),
        ),
{
}

/// A hop keeps the origin and the user of its flow: they are those that the
/// flow came with, whatever the program says.
pub proof fn law_identity_rides_along(s: VmV, t: TaskV, target: Value, hop: Seq<char>, vars: Value)
    requires
        t.on_complete is Done || t.on_complete is Reply,
    ensures
        finished(s, t, EndV::Suspended { target, hop, vars }).out.last() == ActionV::Send(
            PacketV::Call {
                flow: t.ctx.flow,
                to: target,
                hop,
                vars,
                origin: t.ctx.origin,
                user: t.ctx.user,
                reply_to: addr_of(s.side),
            },
        ),
{
}

/// A flow that was called stays with its caller's flow, origin and user.
pub proof fn law_calls_stay_in_their_flow(p: ProgramV, s: VmV, pkt: Value, call: bool)
    requires
        p.hops.contains_key(field_text(s.h, pkt, "hop"@, Seq::empty())),
        fn_frame(
            p,
            p.hops[field_text(s.h, pkt, "hop"@, Seq::empty())],
            seq![field_of(s.h, pkt, "vars"@)],
        ) is Some,
    ensures
        called(p, s, pkt, call).jobs.last() matches JobV::Run(t) && t.ctx == (CtxV {
            flow: field_text(s.h, pkt, "flow"@, "?"@),
            origin: field_of(s.h, pkt, "origin"@),
            user: field_of(s.h, pkt, "user"@),
        }),
{
}

} // verus!
