//! The flow runtime: a virtual machine is one side of a cluster, the server or
//! one browser session.
//!
//! It owns the globals, the suspended flows and the handlers of its page, and
//! knows nothing of transports. Packets go out as actions and come back in
//! through `receive`. Replies are routed to the innermost waiting segment of
//! their flow: hops nest like calls. An error in a remote segment unwinds hop
//! by hop to where the flow came from. Flows that were spawned run once the
//! running segment has ended.

use crate::data::{pairs_v, Data, DataV};
use crate::float::FloatTable;
use crate::flow::{
    again, answered, call_synced, called, disposed, effect, ended, failed, field_text, finished,
    fired, flow_place, handler_fired, hooked, hosted, init_jobs, initialized, lib_settled, mounted,
    named_entries, named_map, native_done, new_vm, next_number, packet_data, packet_field, parked,
    printed, ran, received, returned, selector, sent, started, starts, state_of, text_pair,
    unparked, vm_answered, vm_scored, vm_step, waits, with_action, with_core, with_functions,
    with_global, with_job, with_modules, with_platform, ActionV, CompleteV, CtxV, EndV, JobV,
    PacketV, SideV, TaskV, TickV, VmV, WantV,
};
use crate::hui::{hui_render, HuiState};
use crate::interp::{
    call, call_value, frames_v, get_global, Frame, HostCall, Machine, Outcome, STEP_LIMIT,
};
use crate::ir::{lets_v, Program};
use crate::machine::FrameV;
use crate::modules::{arg, call_lib, call_scored, fields_data, no_fields, push_field, LibOut};
use crate::ranking::{ordered_scores, score_lists, votes_v, Comparison};
use crate::text::{dec_u64, text_eq, texts};
use crate::value::{
    copy_values, field_of, lib_str, Ask, Cell, CellV, Heap, LibId, NativeId, Try, Value,
};
use crate::wire::{from_cbor, from_json, loaded};
use vstd::prelude::*;
use vstd::string::*;

verus! {

/// The pseudo-address that effects are sent to. It is no machine: the platform
/// runs the effect and sends the reply itself.
pub const EFFECTS_ADDR: &'static str = "@effects";

/// The side that a machine is.
#[derive(Debug)]
pub enum SideId {
    Server,
    Browser(String),
}

impl View for SideId {
    type V = SideV;

    open spec fn view(&self) -> SideV {
        match *self {
            SideId::Server => SideV::Server,
            SideId::Browser(s) => SideV::Browser(s@),
        }
    }
}

impl SideId {
    /// The address of the side.
    pub fn addr(&self) -> (r: &str)
        ensures
            r@ == crate::flow::addr_of(self@),
    {
        match self {
            SideId::Server => "server",
            SideId::Browser(s) => s.as_str(),
        }
    }
}

/// What a flow carries along.
pub struct FlowCtx {
    pub flow: String,
    pub origin: Value,
    pub user: Value,
}

impl View for FlowCtx {
    type V = CtxV;

    open spec fn view(&self) -> CtxV {
        CtxV { flow: self.flow@, origin: self.origin, user: self.user }
    }
}

/// What becomes of a flow's value.
pub enum Complete {
    Done,
    Reply { to: Value },
    Sync(String),
    Init(String),
}

impl View for Complete {
    type V = CompleteV;

    open spec fn view(&self) -> CompleteV {
        match *self {
            Complete::Done => CompleteV::Done,
            Complete::Reply { to } => CompleteV::Reply { to },
            Complete::Sync(s) => CompleteV::Sync(s@),
            Complete::Init(s) => CompleteV::Init(s@),
        }
    }
}

/// A flow at some point of its execution.
pub struct Task {
    pub frames: Vec<Frame>,
    pub fuel: u64,
    pub ctx: FlowCtx,
    pub on_complete: Complete,
}

impl View for Task {
    type V = TaskV;

    open spec fn view(&self) -> TaskV {
        TaskV {
            frames: frames_v(self.frames@),
            fuel: self.fuel,
            ctx: self.ctx@,
            on_complete: self.on_complete@,
        }
    }
}

/// How a segment of a flow ended.
pub enum End {
    Done(Value),
    Suspended { target: Value, hop: String, vars: Value },
    Failed(String),
}

impl View for End {
    type V = EndV;

    open spec fn view(&self) -> EndV {
        match *self {
            End::Done(v) => EndV::Done(v),
            End::Suspended { target, hop, vars } => EndV::Suspended { target, hop: hop@, vars },
            End::Failed(m) => EndV::Failed(m@),
        }
    }
}

/// Something to do.
pub enum Job {
    Packet(Value),
    Start { callee: Value, args: Vec<Value> },
    Init { name: String, fn_idx: usize },
    Run(Task),
    Host(Task, HostCall),
    Finish(Task, End),
}

impl View for Job {
    type V = JobV;

    open spec fn view(&self) -> JobV {
        match *self {
            Job::Packet(v) => JobV::Packet(v),
            Job::Start { callee, args } => JobV::Start { callee, args: args@ },
            Job::Init { name, fn_idx } => JobV::Init { name: name@, fn_idx },
            Job::Run(t) => JobV::Run(t@),
            Job::Host(t, c) => JobV::Host(t@, c@),
            Job::Finish(t, e) => JobV::Finish(t@, e@),
        }
    }
}

/// What goes over the wire.
pub enum Packet {
    Call {
        flow: String,
        to: Value,
        hop: String,
        vars: Value,
        origin: Value,
        user: Value,
        reply_to: String,
    },
    Cast { flow: String, to: Value, hop: String, vars: Value, origin: Value, user: Value },
    Reply { flow: String, to: Value, value: Value },
    Error { flow: String, to: Value, err: String },
    Refused { said: Value, to: Value, err: String },
}

impl View for Packet {
    type V = PacketV;

    open spec fn view(&self) -> PacketV {
        match *self {
            Packet::Call { flow, to, hop, vars, origin, user, reply_to } => PacketV::Call {
                flow: flow@,
                to,
                hop: hop@,
                vars,
                origin,
                user,
                reply_to: reply_to@,
            },
            Packet::Cast { flow, to, hop, vars, origin, user } => PacketV::Cast {
                flow: flow@,
                to,
                hop: hop@,
                vars,
                origin,
                user,
            },
            Packet::Reply { flow, to, value } => PacketV::Reply { flow: flow@, to, value },
            Packet::Error { flow, to, err } => PacketV::Error { flow: flow@, to, err: err@ },
            Packet::Refused { said, to, err } => PacketV::Refused { said, to, err: err@ },
        }
    }
}

/// What a machine has the platform do.
pub enum Action {
    Send(Packet),
    Print(String),
    DomSet { sel: String, html: String },
    DomClear(String),
    DomFocus(String),
}

impl View for Action {
    type V = ActionV;

    open spec fn view(&self) -> ActionV {
        match *self {
            Action::Send(p) => ActionV::Send(p@),
            Action::Print(s) => ActionV::Print(s@),
            Action::DomSet { sel, html } => ActionV::DomSet { sel: sel@, html: html@ },
            Action::DomClear(s) => ActionV::DomClear(s@),
            Action::DomFocus(s) => ActionV::DomFocus(s@),
        }
    }
}

/// What a machine wants answered before it goes on.
pub enum Want {
    Fact(Ask),
    DomGet(String),
    Store { id: NativeId, args: Vec<Value> },
    Scores { ids: Vec<String>, votes: Vec<Comparison> },
}

impl View for Want {
    type V = WantV;

    open spec fn view(&self) -> WantV {
        match *self {
            Want::Fact(q) => WantV::Fact(q@),
            Want::DomGet(s) => WantV::DomGet(s@),
            Want::Store { id, args } => WantV::Store { id, args: args@ },
            Want::Scores { ids, votes } => WantV::Scores {
                ids: texts(ids@),
                votes: votes_v(votes@),
            },
        }
    }
}

/// What a step came to.
pub enum Tick {
    Idle,
    More,
    Want(Want),
}

impl View for Tick {
    type V = TickV;

    open spec fn view(&self) -> TickV {
        match *self {
            Tick::Idle => TickV::Idle,
            Tick::More => TickV::More,
            Tick::Want(w) => TickV::Want(w@),
        }
    }
}

pub open spec fn tasks_v(s: Seq<Task>) -> Seq<TaskV> {
    s.map_values(|t: Task| t@)
}

pub open spec fn jobs_v(s: Seq<Job>) -> Seq<JobV> {
    s.map_values(|j: Job| j@)
}

pub open spec fn actions_v(s: Seq<Action>) -> Seq<ActionV> {
    s.map_values(|a: Action| a@)
}

pub open spec fn stacks_v(s: Seq<(String, Vec<Task>)>) -> Seq<(Seq<char>, Seq<TaskV>)> {
    Seq::new(s.len(), |i: int| (s[i].0@, tasks_v(s[i].1@)))
}

pub open spec fn spawned_v(s: Seq<(Value, Vec<Value>)>) -> Seq<(Value, Seq<Value>)> {
    s.map_values(|p: (Value, Vec<Value>)| (p.0, p.1@))
}

pub open spec fn fns_by_name(s: Seq<(String, usize)>) -> Seq<(Seq<char>, usize)> {
    s.map_values(|p: (String, usize)| (p.0@, p.1))
}

pub open spec fn result_v(r: Option<Result<Value, String>>) -> Option<Result<Value, Seq<char>>> {
    match r {
        None => None,
        Some(Ok(v)) => Some(Ok(v)),
        Some(Err(m)) => Some(Err(m@)),
    }
}

/// A virtual machine: one side of a cluster. The last job that it is given is
/// the first it does, so its jobs are run to their end before it is given the
/// next from outside.
pub struct Vm {
    pub prog: Program,
    pub machine: Machine,
    pub side: SideId,
    /// The user of a browser's tab; nil on the server.
    pub user: Value,
    pub hui: HuiState,
    pub stacks: Vec<(String, Vec<Task>)>,
    pub next_flow: u64,
    pub jobs: Vec<Job>,
    pub spawned: Vec<(Value, Vec<Value>)>,
    pub out: Vec<Action>,
    pub result: Option<Result<Value, String>>,
}

impl View for Vm {
    type V = VmV;

    open spec fn view(&self) -> VmV {
        VmV {
            h: self.machine.heap@,
            g: self.machine.globals@,
            side: self.side@,
            user: self.user,
            hui: self.hui@,
            stacks: stacks_v(self.stacks@),
            next_flow: self.next_flow,
            jobs: jobs_v(self.jobs@),
            spawned: spawned_v(self.spawned@),
            out: actions_v(self.out@),
            result: result_v(self.result),
        }
    }
}

/// `b` is `a` further on: it runs the same program, and can be used.
pub open spec fn keeps(a: Vm, b: Vm) -> bool {
    b.prog == a.prog && b.wf()
}

fn cat2(a: &str, b: &str) -> (r: String)
    ensures
        r@ == a@ + b@,
{
    let mut m: String = a.to_owned();
    m.append(b);
    m
}

fn cat3(a: &str, b: &str, c: &str) -> (r: String)
    ensures
        r@ == a@ + b@ + c@,
{
    let mut m: String = a.to_owned();
    m.append(b);
    m.append(c);
    m
}

fn one_frame(fr: Frame) -> (r: Vec<Frame>)
    ensures
        frames_v(r@) == seq![fr@],
{
    let mut v: Vec<Frame> = Vec::new();
    v.push(fr);
    assert(frames_v(v@) =~= seq![fr@]);
    v
}

fn next_of(n: u64) -> (r: u64)
    ensures
        r == next_number(n),
{
    if n == u64::MAX {
        0
    } else {
        n + 1
    }
}

impl Vm {
    /// The machine can be used.
    pub open spec fn wf(&self) -> bool {
        self.machine.wf() && self.prog.hops.wf() && self.prog.named.wf()
    }

    fn push_job(&mut self, j: Job)
        requires
            old(self).wf(),
        ensures
            keeps(*old(self), *final(self)),
            final(self)@ == with_job(old(self)@, j@),
    {
        let ghost before = self.jobs@;
        self.jobs.push(j);
        assert(jobs_v(self.jobs@) =~= jobs_v(before).push(j@));
    }

    fn act(&mut self, a: Action)
        requires
            old(self).wf(),
        ensures
            keeps(*old(self), *final(self)),
            final(self)@ == with_action(old(self)@, a@),
    {
        let ghost before = self.out@;
        self.out.push(a);
        assert(actions_v(self.out@) =~= actions_v(before).push(a@));
    }

    fn print(&mut self, line: String)
        requires
            old(self).wf(),
        ensures
            keeps(*old(self), *final(self)),
            final(self)@ == printed(old(self)@, line@),
    {
        self.act(Action::Print(line));
    }

    fn send(&mut self, p: Packet)
        requires
            old(self).wf(),
        ensures
            keeps(*old(self), *final(self)),
            final(self)@ == sent(old(self)@, p@),
    {
        self.act(Action::Send(p));
    }

    fn new_text(&mut self, s: &str) -> (v: Value)
        requires
            old(self).wf(),
        ensures
            keeps(*old(self), *final(self)),
            final(self)@ == (VmV { h: old(self)@.h.push(CellV::Str(s@)), ..old(self)@ }),
            v == Value::Str(old(self)@.h.len() as usize),
    {
        self.machine.heap.str(s)
    }

    fn end_segment(&mut self, t: Task, e: End)
        requires
            old(self).wf(),
        ensures
            keeps(*old(self), *final(self)),
            final(self)@ == ended(old(self)@, t@, e@),
    {
        let ghost before = self@;
        self.push_job(Job::Finish(t, e));
        let ghost base = self@.jobs;
        let ghost sp = self@.spawned;
        let n: usize = self.spawned.len();
        let mut i: usize = 0;
        assert(base + starts(sp).take(0) =~= base);
        assert(sp.take(n as int) =~= sp);
        while i < n
            invariant
                i <= n,
                n == sp.len(),
                keeps(*old(self), *self),
                self@.spawned == sp.take(n - i),
                self@ == (VmV {
                    jobs: base + starts(sp).take(i as int),
                    spawned: sp.take(n - i),
                    ..before
                }),
            decreases n - i,
        {
            let ghost cur = self.spawned@;
            match self.spawned.pop() {
                None => {
                    assert(spawned_v(cur).len() == 0);
                },
                Some((callee, args)) => {
                    proof {
                        assert(spawned_v(cur) == sp.take(n - i));
                        assert(spawned_v(self.spawned@) =~= spawned_v(cur).drop_last());
                        assert(sp.take(n - i).drop_last() =~= sp.take(n - i - 1));
                        assert(spawned_v(cur).last() == (callee, args@));
                        assert(sp.take(n - i).last() == sp[n - i - 1]);
                        assert(starts(sp).take(i + 1) =~= starts(sp).take(i as int).push(
                            JobV::Start { callee, args: args@ },
                        ));
                    }
                    self.push_job(Job::Start { callee, args });
                    assert(self@.jobs =~= base + starts(sp).take(i + 1));
                },
            }
            i = i + 1;
        }
        assert(starts(sp).take(n as int) =~= starts(sp));
        assert(sp.take(0) =~= Seq::<(Value, Seq<Value>)>::empty());
    }

    fn again(&mut self, t: Task)
        requires
            old(self).wf(),
        ensures
            keeps(*old(self), *final(self)),
            final(self)@ == again(old(self)@, t@),
    {
        self.push_job(Job::Run(t));
    }

    fn answer_task(&mut self, t: Task, v: Value)
        requires
            old(self).wf(),
        ensures
            keeps(*old(self), *final(self)),
            final(self)@ == answered(old(self)@, t@, v),
    {
        let mut t: Task = t;
        let ghost before = t.frames@;
        match t.frames.pop() {
            None => {
                assert(frames_v(t.frames@) =~= frames_v(before));
            },
            Some(mut fr) => {
                fr.stack.push(v);
                t.frames.push(fr);
                assert(frames_v(t.frames@) =~= frames_v(before).drop_last().push(fr@));
            },
        }
        self.again(t);
    }

    fn fail_task(&mut self, t: Task, m: &str)
        requires
            old(self).wf(),
        ensures
            keeps(*old(self), *final(self)),
            final(self)@ == failed(old(self).prog@, old(self)@, t@, m@),
    {
        let mut t: Task = t;
        let ghost tv = t@;
        let ghost spare = self.machine.frames@;
        core::mem::swap(&mut self.machine.frames, &mut t.frames);
        let e: String = self.machine.host_error(&self.prog, m);
        core::mem::swap(&mut self.machine.frames, &mut t.frames);
        assert(t@ == tv);
        self.end_segment(t, End::Failed(e));
    }

    fn start(&mut self, callee: Value, args: Vec<Value>)
        requires
            old(self).wf(),
        ensures
            keeps(*old(self), *final(self)),
            final(self)@ == started(old(self).prog@, old(self)@, callee, args@),
    {
        self.next_flow = next_of(self.next_flow);
        let mut flow: String = self.side.addr().to_owned();
        flow.append("#");
        flow.append(dec_u64(self.next_flow).as_str());
        let origin: Value = match &self.side {
            SideId::Browser(s) => self.machine.heap.str(s.as_str()),
            SideId::Server => Value::Nil,
        };
        match call_value(&self.prog, &self.machine.heap, callee, &args) {
            Err(m) => {
                self.print(cat2("!! unhandled flow error: ", m.as_str()));
            },
            Ok(fr) => {
                let user: Value = self.user;
                self.again(
                    Task {
                        frames: one_frame(fr),
                        fuel: STEP_LIMIT,
                        ctx: FlowCtx { flow, origin, user },
                        on_complete: Complete::Done,
                    },
                );
            },
        }
    }

    fn init(&mut self, name: String, fn_idx: usize)
        requires
            old(self).wf(),
        ensures
            keeps(*old(self), *final(self)),
            final(self)@ == initialized(old(self).prog@, old(self)@, name@, fn_idx),
    {
        let ctx = FlowCtx {
            flow: cat2("init:", name.as_str()),
            origin: Value::Nil,
            user: Value::Nil,
        };
        let none: Vec<Value> = Vec::new();
        assert(none@ =~= Seq::<Value>::empty());
        match call(&self.prog, fn_idx, &none) {
            None => {
                let frames: Vec<Frame> = Vec::new();
                assert(frames_v(frames@) =~= Seq::<FrameV>::empty());
                let t = Task { frames, fuel: STEP_LIMIT, ctx, on_complete: Complete::Init(name) };
                self.end_segment(t, End::Failed("corrupt program".to_owned()));
            },
            Some(fr) => {
                self.again(
                    Task {
                        frames: one_frame(fr),
                        fuel: STEP_LIMIT,
                        ctx,
                        on_complete: Complete::Init(name),
                    },
                );
            },
        }
    }

    fn run(&mut self, floats: &FloatTable, t: Task) -> (r: Tick)
        requires
            old(self).wf(),
        ensures
            keeps(*old(self), *final(self)),
            (final(self)@, r@) == ran(old(self).prog@, floats@, old(self)@, t@),
    {
        let mut t: Task = t;
        let ghost tv = t@;
        let ghost s0 = self@;
        core::mem::swap(&mut self.machine.frames, &mut t.frames);
        assert(self.machine@ == state_of(s0, tv));
        let (o, left) = self.machine.run_for(&self.prog, floats, t.fuel);
        core::mem::swap(&mut self.machine.frames, &mut t.frames);
        t.fuel = left;
        match o {
            Outcome::Done(v) => {
                self.end_segment(t, End::Done(v));
                Tick::More
            },
            Outcome::Error(e) => {
                self.end_segment(t, End::Failed(e));
                Tick::More
            },
            Outcome::Suspend { target, hop, vars } => {
                self.end_segment(t, End::Suspended { target, hop, vars });
                Tick::More
            },
            Outcome::Host(c) => {
                self.push_job(Job::Host(t, c));
                Tick::More
            },
            Outcome::Need(q) => {
                t.fuel = next_of(t.fuel);
                self.again(t);
                Tick::Want(Want::Fact(q))
            },
        }
    }
}

fn get_arg(args: &Vec<Value>, i: usize) -> (r: Value)
    ensures
        r == arg(args@, i as int),
{
    if i < args.len() {
        args[i]
    } else {
        Value::Nil
    }
}

impl Vm {
    fn wait(&mut self, t: Task, c: HostCall, w: Want) -> (r: Tick)
        requires
            old(self).wf(),
        ensures
            keeps(*old(self), *final(self)),
            (final(self)@, r@) == waits(old(self)@, t@, c@, w@),
    {
        self.push_job(Job::Host(t, c));
        Tick::Want(w)
    }

    fn fail_tick(&mut self, t: Task, m: &str) -> (r: Tick)
        requires
            old(self).wf(),
        ensures
            keeps(*old(self), *final(self)),
            final(self)@ == failed(old(self).prog@, old(self)@, t@, m@),
            r@ == TickV::More,
    {
        self.fail_task(t, m);
        Tick::More
    }

    fn act_and_answer(&mut self, t: Task, a: Action) -> (r: Tick)
        requires
            old(self).wf(),
        ensures
            keeps(*old(self), *final(self)),
            final(self)@ == answered(with_action(old(self)@, a@), t@, Value::Nil),
            r@ == TickV::More,
    {
        self.act(a);
        self.answer_task(t, Value::Nil);
        Tick::More
    }

    fn selector(&self, args: &Vec<Value>) -> (r: Option<String>)
        ensures
            match (r, selector(self@.h, args@)) {
                (Some(x), Some(y)) => x@ == y,
                (None, None) => true,
                _ => false,
            },
    {
        match self.machine.heap.as_str(get_arg(args, 0)) {
            Some(s) => Some(s.to_owned()),
            None => None,
        }
    }

    fn dom_set(&mut self, floats: &FloatTable, t: Task, args: Vec<Value>) -> (r: Tick)
        requires
            old(self).wf(),
        ensures
            keeps(*old(self), *final(self)),
            (final(self)@, r@) == native_done(
                old(self).prog@,
                floats@,
                old(self)@,
                t@,
                NativeId::DomSet,
                args@,
            ),
    {
        match self.selector(&args) {
            None => self.fail_tick(t, "dom.set(selector, html)"),
            Some(sel) => {
                let html: Try<String> = if args.len() > 1 {
                    self.machine.heap.coerce_str(floats, args[1])
                } else {
                    let none: String = String::new();
                    assert(none@ =~= Seq::<char>::empty());
                    Try::Done(none)
                };
                match html {
                    Try::Done(html) => self.act_and_answer(t, Action::DomSet { sel, html }),
                    Try::Fail(m) => self.fail_tick(t, m.as_str()),
                    Try::Need(q) => self.wait(
                        t,
                        HostCall::Native(NativeId::DomSet, args),
                        Want::Fact(q),
                    ),
                }
            },
        }
    }

    fn render(&mut self, floats: &FloatTable, t: Task, args: Vec<Value>) -> (r: Tick)
        requires
            old(self).wf(),
        ensures
            keeps(*old(self), *final(self)),
            (final(self)@, r@) == native_done(
                old(self).prog@,
                floats@,
                old(self)@,
                t@,
                NativeId::HuiRender,
                args@,
            ),
    {
        match self.selector(&args) {
            None => self.fail_tick(t, "hui.render(selector, node)"),
            Some(sel) => {
                let node: Value = get_arg(&args, 1);
                match hui_render(&self.machine.heap, floats, &mut self.hui, sel.as_str(), node) {
                    Try::Done(html) => self.act_and_answer(t, Action::DomSet { sel, html }),
                    Try::Fail(m) => self.fail_tick(t, m.as_str()),
                    Try::Need(q) => self.wait(
                        t,
                        HostCall::Native(NativeId::HuiRender, args),
                        Want::Fact(q),
                    ),
                }
            },
        }
    }

    fn native(&mut self, floats: &FloatTable, t: Task, id: NativeId, args: Vec<Value>) -> (r: Tick)
        requires
            old(self).wf(),
        ensures
            keeps(*old(self), *final(self)),
            (final(self)@, r@) == native_done(
                old(self).prog@,
                floats@,
                old(self)@,
                t@,
                id,
                args@,
            ),
    {
        match id {
            NativeId::DomGet => match self.selector(&args) {
                None => self.fail_tick(t, "dom.get(selector)"),
                Some(sel) => self.wait(t, HostCall::Native(id, args), Want::DomGet(sel)),
            },
            NativeId::DomSet => self.dom_set(floats, t, args),
            NativeId::DomClear => match self.selector(&args) {
                None => self.fail_tick(t, "dom.clear(selector)"),
                Some(sel) => self.act_and_answer(t, Action::DomClear(sel)),
            },
            NativeId::DomFocus => match self.selector(&args) {
                None => self.fail_tick(t, "dom.focus(selector)"),
                Some(sel) => self.act_and_answer(t, Action::DomFocus(sel)),
            },
            NativeId::HuiRender => self.render(floats, t, args),
            _ => {
                let copy: Vec<Value> = copy_values(&args);
                self.wait(t, HostCall::Native(id, args), Want::Store { id, args: copy })
            },
        }
    }

    fn effect(&mut self, t: Task, id: LibId, hop: &str, vars: Value) -> (r: Tick)
        requires
            old(self).wf(),
        ensures
            keeps(*old(self), *final(self)),
            (final(self)@, r@) == effect(old(self).prog@, old(self)@, t@, id, hop@, vars),
    {
        match &self.side {
            SideId::Server => {
                let target: Value = self.new_text("@effects");
                self.end_segment(t, End::Suspended { target, hop: hop.to_owned(), vars });
                Tick::More
            },
            SideId::Browser(_) => {
                let m: String = cat2(lib_str(id), " is server-side only");
                self.fail_tick(t, m.as_str())
            },
        }
    }

    fn settle(&mut self, floats: &FloatTable, t: Task, id: LibId, args: Vec<Value>, out: LibOut) -> (r:
        Tick)
        requires
            old(self).wf(),
        ensures
            keeps(*old(self), *final(self)),
            (final(self)@, r@) == lib_settled(
                old(self).prog@,
                floats@,
                old(self)@,
                t@,
                id,
                args@,
                out@,
            ),
    {
        match out {
            LibOut::Value(v) => {
                self.answer_task(t, v);
                Tick::More
            },
            LibOut::Fail(m) => self.fail_tick(t, m.as_str()),
            LibOut::Data(d) => match from_cbor(&mut self.machine.heap, &d) {
                Ok(v) => {
                    self.answer_task(t, v);
                    Tick::More
                },
                Err(m) => self.fail_tick(t, m.as_str()),
            },
            LibOut::Json(j) => match from_json(&mut self.machine.heap, floats, &j) {
                Try::Done(v) => {
                    self.answer_task(t, v);
                    Tick::More
                },
                Try::Fail(m) => self.fail_tick(t, m.as_str()),
                Try::Need(q) => self.wait(t, HostCall::Lib(id, args), Want::Fact(q)),
            },
            LibOut::Effect { hop, vars } => match from_cbor(&mut self.machine.heap, &vars) {
                Ok(v) => self.effect(t, id, hop, v),
                Err(m) => self.fail_tick(t, m.as_str()),
            },
            LibOut::Request { hop, req } => {
                let ghost h0 = self@.h;
                let k: Value = self.new_text("req");
                let mut es: Vec<(Value, Value)> = Vec::new();
                es.push((k, req));
                assert(es@ =~= seq![(k, req)]);
                let vars: Value = self.machine.heap.map(es);
                self.effect(t, id, hop, vars)
            },
            LibOut::Scores { ids, votes } => self.wait(
                t,
                HostCall::Lib(id, args),
                Want::Scores { ids, votes },
            ),
        }
    }

    fn host(&mut self, floats: &FloatTable, t: Task, c: HostCall) -> (r: Tick)
        requires
            old(self).wf(),
        ensures
            keeps(*old(self), *final(self)),
            (final(self)@, r@) == hosted(old(self).prog@, floats@, old(self)@, t@, c@),
    {
        match c {
            HostCall::Print(line) => self.act_and_answer(t, Action::Print(line)),
            HostCall::Cast { target, hop, vars } => {
                let p = Packet::Cast {
                    flow: t.ctx.flow.clone(),
                    to: target,
                    hop,
                    vars,
                    origin: t.ctx.origin,
                    user: t.ctx.user,
                };
                self.send(p);
                self.again(t);
                Tick::More
            },
            HostCall::Spawn { callee, args } => {
                let ghost before = self.spawned@;
                self.spawned.push((callee, args));
                assert(spawned_v(self.spawned@) =~= spawned_v(before).push((callee, args@)));
                self.again(t);
                Tick::More
            },
            HostCall::Session => match &self.side {
                SideId::Browser(s) => {
                    let v: Value = self.machine.heap.str(s.as_str());
                    self.answer_task(t, v);
                    Tick::More
                },
                SideId::Server => {
                    let origin: Value = t.ctx.origin;
                    match origin {
                        Value::Nil => self.fail_tick(
                            t,
                            "session() in a server-origin flow with no session",
                        ),
                        _ => {
                            self.answer_task(t, origin);
                            Tick::More
                        },
                    }
                },
            },
            HostCall::User => {
                let u: Value = match &self.side {
                    SideId::Browser(_) => self.user,
                    SideId::Server => t.ctx.user,
                };
                match u {
                    Value::Nil => self.fail_tick(t, "user() in a flow with no user"),
                    _ => {
                        self.answer_task(t, u);
                        Tick::More
                    },
                }
            },
            HostCall::Native(id, args) => self.native(floats, t, id, args),
            HostCall::Lib(id, args) => {
                let out: LibOut = call_lib(&self.machine.heap, id, &args);
                self.settle(floats, t, id, args, out)
            },
        }
    }

    fn dispose_error(&mut self, t: Task, m: &str)
        requires
            old(self).wf(),
        ensures
            keeps(*old(self), *final(self)),
            final(self)@ == disposed(old(self)@, t@, m@),
    {
        match &t.on_complete {
            Complete::Reply { to } => {
                let p = Packet::Error { flow: t.ctx.flow.clone(), to: *to, err: m.to_owned() };
                self.send(p);
            },
            Complete::Done => {
                self.print(cat2("!! unhandled flow error: ", m));
            },
            Complete::Sync(_) => {
                self.result = Some(Err(m.to_owned()));
            },
            Complete::Init(name) => {
                let mut e: String = cat3("server let ", name.as_str(), ": ");
                e.append(m);
                self.result = Some(Err(e));
                self.jobs = Vec::new();
                assert(jobs_v(self.jobs@) =~= Seq::<JobV>::empty());
            },
        }
    }

    fn flow_at(&self, flow: &str) -> (i: usize)
        ensures
            i == flow_place(self@.stacks, flow@, 0),
            i <= self.stacks@.len(),
    {
        let ghost ss = self@.stacks;
        let mut i: usize = 0;
        while i < self.stacks.len() && !text_eq(self.stacks[i].0.as_str(), flow)
            invariant
                i <= self.stacks@.len(),
                ss == self@.stacks,
                flow_place(ss, flow@, 0) == flow_place(ss, flow@, i as int),
            decreases self.stacks@.len() - i,
        {
            assert(ss[i as int].0 == self.stacks@[i as int].0@);
            i = i + 1;
        }
        if i < self.stacks.len() {
            assert(ss[i as int].0 == self.stacks@[i as int].0@);
        }
        i
    }

    fn park(&mut self, t: Task)
        requires
            old(self).wf(),
        ensures
            keeps(*old(self), *final(self)),
            final(self)@ == (VmV { stacks: parked(old(self)@.stacks, t@), ..old(self)@ }),
    {
        let ghost before = self.stacks@;
        let ghost tv = t@;
        let i: usize = self.flow_at(t.ctx.flow.as_str());
        if i < self.stacks.len() {
            let (name, mut ts) = self.stacks.remove(i);
            let ghost ts0 = ts@;
            ts.push(t);
            assert(tasks_v(ts@) =~= tasks_v(ts0).push(tv));
            self.stacks.insert(i, (name, ts));
            proof {
                let want = stacks_v(before).update(
                    i as int,
                    (stacks_v(before)[i as int].0, stacks_v(before)[i as int].1.push(tv)),
                );
                assert(stacks_v(self.stacks@) =~= want);
            }
        } else {
            let name: String = t.ctx.flow.clone();
            let mut ts: Vec<Task> = Vec::new();
            ts.push(t);
            assert(tasks_v(ts@) =~= seq![tv]);
            self.stacks.push((name, ts));
            assert(stacks_v(self.stacks@) =~= stacks_v(before).push((tv.ctx.flow, seq![tv])));
        }
    }

    fn unpark(&mut self, flow: &str) -> (r: Option<Task>)
        requires
            old(self).wf(),
        ensures
            keeps(*old(self), *final(self)),
            match (r, unparked(old(self)@.stacks, flow@)) {
                (Some(t), Some((ss, tv))) => t@ == tv && final(self)@ == (VmV {
                    stacks: ss,
                    ..old(self)@
                }),
                (None, None) => final(self)@ == old(self)@,
                _ => false,
            },
    {
        let ghost before = self.stacks@;
        let i: usize = self.flow_at(flow);
        if i >= self.stacks.len() {
            return None;
        }
        assert(stacks_v(before)[i as int] == (before[i as int].0@, tasks_v(before[i as int].1@)));
        let (name, mut ts) = self.stacks.remove(i);
        let ghost ts0 = ts@;
        match ts.pop() {
            None => {
                self.stacks.insert(i, (name, ts));
                assert(stacks_v(self.stacks@) =~= stacks_v(before));
                None
            },
            Some(t) => {
                assert(tasks_v(ts@) =~= tasks_v(ts0).drop_last());
                assert(tasks_v(ts0).last() == t@);
                if ts.len() > 0 {
                    self.stacks.insert(i, (name, ts));
                    assert(stacks_v(self.stacks@) =~= stacks_v(before).update(
                        i as int,
                        (stacks_v(before)[i as int].0, tasks_v(ts0).drop_last()),
                    ));
                } else {
                    assert(stacks_v(self.stacks@) =~= stacks_v(before).remove(i as int));
                }
                Some(t)
            },
        }
    }

    fn finish(&mut self, t: Task, e: End)
        requires
            old(self).wf(),
        ensures
            keeps(*old(self), *final(self)),
            final(self)@ == finished(old(self)@, t@, e@),
    {
        match e {
            End::Done(v) => match &t.on_complete {
                Complete::Reply { to } => {
                    let p = Packet::Reply { flow: t.ctx.flow.clone(), to: *to, value: v };
                    self.send(p);
                },
                Complete::Done => {},
                Complete::Sync(_) => {
                    self.result = Some(Ok(v));
                },
                Complete::Init(name) => {
                    self.machine.globals.insert(name.as_str(), v);
                },
            },
            End::Failed(m) => self.dispose_error(t, m.as_str()),
            End::Suspended { target, hop, vars } => match &t.on_complete {
                Complete::Sync(name) => {
                    self.result = Some(Err(cat3("call_sync ", name.as_str(), ": cannot hop")));
                },
                Complete::Init(_) => self.dispose_error(t, "initializer cannot hop"),
                _ => {
                    let p = Packet::Call {
                        flow: t.ctx.flow.clone(),
                        to: target,
                        hop,
                        vars,
                        origin: t.ctx.origin,
                        user: t.ctx.user,
                        reply_to: self.side.addr().to_owned(),
                    };
                    self.send(p);
                    self.park(t);
                },
            },
        }
    }

    fn text_field(&self, v: Value, k: &str, other: &str) -> (r: String)
        ensures
            r@ == field_text(self@.h, v, k@, other@),
    {
        match self.machine.heap.as_str(self.machine.heap.get_field(v, k)) {
            Some(s) => s.to_owned(),
            None => other.to_owned(),
        }
    }

    fn receive_call(&mut self, pkt: Value, is_call: bool)
        requires
            old(self).wf(),
        ensures
            keeps(*old(self), *final(self)),
            final(self)@ == called(old(self).prog@, old(self)@, pkt, is_call),
    {
        proof {
            reveal_strlit("");
            assert(""@ =~= Seq::<char>::empty());
        }
        let hop: String = self.text_field(pkt, "hop", "");
        let reply_to: Value = self.machine.heap.get_field(pkt, "reply_to");
        match self.prog.hops.get(hop.as_str()) {
            Some(fn_idx) => {
                let ctx = FlowCtx {
                    flow: self.text_field(pkt, "flow", "?"),
                    origin: self.machine.heap.get_field(pkt, "origin"),
                    user: self.machine.heap.get_field(pkt, "user"),
                };
                let on_complete: Complete = if is_call {
                    Complete::Reply { to: reply_to }
                } else {
                    Complete::Done
                };
                let mut args: Vec<Value> = Vec::new();
                args.push(self.machine.heap.get_field(pkt, "vars"));
                assert(args@ =~= seq![field_of(self@.h, pkt, "vars"@)]);
                match call(&self.prog, fn_idx, &args) {
                    None => {
                        let frames: Vec<Frame> = Vec::new();
                        assert(frames_v(frames@) =~= Seq::<FrameV>::empty());
                        let t = Task { frames, fuel: STEP_LIMIT, ctx, on_complete };
                        self.end_segment(t, End::Failed("corrupt program".to_owned()));
                    },
                    Some(fr) => {
                        self.again(
                            Task { frames: one_frame(fr), fuel: STEP_LIMIT, ctx, on_complete },
                        );
                    },
                }
            },
            None => {
                if is_call {
                    let p = Packet::Refused {
                        said: self.machine.heap.get_field(pkt, "flow"),
                        to: reply_to,
                        err: cat2("unknown hop: ", hop.as_str()),
                    };
                    self.send(p);
                } else {
                    self.print(cat3("!! unknown hop: ", hop.as_str(), " (cast dropped)"));
                }
            },
        }
    }

    fn receive_return(&mut self, floats: &FloatTable, pkt: Value, kind: &str) -> (r: Tick)
        requires
            old(self).wf(),
        ensures
            keeps(*old(self), *final(self)),
            (final(self)@, r@) == returned(floats@, old(self)@, pkt, kind@),
    {
        let reply: bool = text_eq(kind, "reply");
        let flow: String = self.text_field(pkt, "flow", "?");
        let err: Value = self.machine.heap.get_field(pkt, "err");
        let mut m: String = String::new();
        assert(m@ =~= Seq::<char>::empty());
        match self.machine.heap.coerce_str(floats, err) {
            Try::Done(s) => {
                m = s;
            },
            Try::Fail(s) => {
                m = s;
            },
            Try::Need(q) => {
                if !reply {
                    self.push_job(Job::Packet(pkt));
                    return Tick::Want(Want::Fact(q));
                }
            },
        }
        match self.unpark(flow.as_str()) {
            None => {
                let mut line: String = cat3(
                    "!! ",
                    kind,
                    " for a flow with nothing suspended: ",
                );
                line.append(flow.as_str());
                if !reply {
                    let ghost l0 = line@;
                    line.append(": ");
                    line.append(m.as_str());
                    assert(line@ =~= l0 + (": "@ + m@));
                } else {
                    assert(line@ =~= line@ + Seq::<char>::empty());
                }
                self.print(line);
            },
            Some(t) => {
                if reply {
                    let mut t: Task = t;
                    t.fuel = STEP_LIMIT;
                    let v: Value = self.machine.heap.get_field(pkt, "value");
                    self.answer_task(t, v);
                } else {
                    self.dispose_error(t, m.as_str());
                }
            },
        }
        Tick::More
    }

    fn receive_packet(&mut self, floats: &FloatTable, pkt: Value) -> (r: Tick)
        requires
            old(self).wf(),
        ensures
            keeps(*old(self), *final(self)),
            (final(self)@, r@) == received(old(self).prog@, floats@, old(self)@, pkt),
    {
        proof {
            reveal_strlit("");
            assert(""@ =~= Seq::<char>::empty());
        }
        let kind: String = self.text_field(pkt, "kind", "");
        let k = kind.as_str();
        if text_eq(k, "call") {
            self.receive_call(pkt, true);
            Tick::More
        } else if text_eq(k, "cast") {
            self.receive_call(pkt, false);
            Tick::More
        } else if text_eq(k, "reply") || text_eq(k, "error") {
            self.receive_return(floats, pkt, k)
        } else {
            self.print(cat2("!! unknown packet kind: ", k));
            Tick::More
        }
    }

    /// Does the innermost job.
    pub fn step(&mut self, floats: &FloatTable) -> (r: Tick)
        requires
            old(self).wf(),
        ensures
            keeps(*old(self), *final(self)),
            (final(self)@, r@) == vm_step(old(self).prog@, floats@, old(self)@),
    {
        let ghost before = self.jobs@;
        match self.jobs.pop() {
            None => Tick::Idle,
            Some(j) => {
                proof {
                    assert(jobs_v(self.jobs@) =~= jobs_v(before).drop_last());
                    assert(jobs_v(before).last() == j@);
                }
                match j {
                    Job::Packet(pkt) => self.receive_packet(floats, pkt),
                    Job::Start { callee, args } => {
                        self.start(callee, args);
                        Tick::More
                    },
                    Job::Init { name, fn_idx } => {
                        self.init(name, fn_idx);
                        Tick::More
                    },
                    Job::Run(t) => self.run(floats, t),
                    Job::Host(t, c) => self.host(floats, t, c),
                    Job::Finish(t, e) => {
                        self.finish(t, e);
                        Tick::More
                    },
                }
            },
        }
    }

    /// Answers what the machine wanted of its platform.
    pub fn answer(&mut self, r: Result<Value, String>)
        requires
            old(self).wf(),
        ensures
            keeps(*old(self), *final(self)),
            final(self)@ == vm_answered(
                old(self).prog@,
                old(self)@,
                match r {
                    Ok(v) => Ok(v),
                    Err(m) => Err(m@),
                },
            ),
    {
        let ghost before = self.jobs@;
        match self.jobs.pop() {
            None => {},
            Some(j) => {
                let ghost jv = j@;
                proof {
                    assert(jobs_v(self.jobs@) =~= jobs_v(before).drop_last());
                    assert(jobs_v(before).last() == jv);
                }
                match j {
                    Job::Host(t, _) => match r {
                        Ok(v) => self.answer_task(t, v),
                        Err(m) => self.fail_task(t, m.as_str()),
                    },
                    other => {
                        self.jobs.push(other);
                        assert(jobs_v(self.jobs@) =~= jobs_v(before));
                    },
                }
            },
        }
    }

    /// Ends a ranking call with the scores that it wanted.
    pub fn answer_scores(&mut self, floats: &FloatTable, scores: &Vec<Vec<u64>>) -> (r: Tick)
        requires
            old(self).wf(),
            forall|k: int| 0 <= k < scores@.len() ==> ordered_scores((#[trigger] scores@[k])@),
        ensures
            keeps(*old(self), *final(self)),
            (final(self)@, r@) == vm_scored(
                old(self).prog@,
                floats@,
                old(self)@,
                score_lists(scores@),
            ),
    {
        let ghost before = self.jobs@;
        match self.jobs.pop() {
            None => Tick::Idle,
            Some(j) => {
                let ghost jv = j@;
                proof {
                    assert(jobs_v(self.jobs@) =~= jobs_v(before).drop_last());
                    assert(jobs_v(before).last() == jv);
                }
                match j {
                    Job::Host(t, HostCall::Lib(id, args)) => {
                        let out: LibOut = call_scored(&self.machine.heap, id, &args, scores);
                        self.settle(floats, t, id, args, out)
                    },
                    other => {
                        self.jobs.push(other);
                        assert(jobs_v(self.jobs@) =~= jobs_v(before));
                        Tick::More
                    },
                }
            },
        }
    }

    /// A packet came in.
    pub fn receive(&mut self, pkt: Value)
        requires
            old(self).wf(),
        ensures
            keeps(*old(self), *final(self)),
            final(self)@ == with_job(old(self)@, JobV::Packet(pkt)),
    {
        self.push_job(Job::Packet(pkt));
    }

    /// Loads a value that came over the wire.
    pub fn load(&mut self, d: &Data) -> (r: Result<Value, String>)
        requires
            old(self).wf(),
        ensures
            keeps(*old(self), *final(self)),
            final(self)@ == (VmV { h: loaded(old(self)@.h, d@).0, ..old(self)@ }),
            crate::wire::same_value(r, loaded(old(self)@.h, d@).1),
    {
        from_cbor(&mut self.machine.heap, d)
    }

    /// The function `name` is to run as a new flow.
    pub fn fire(&mut self, name: &str, args: Vec<Value>)
        requires
            old(self).wf(),
        ensures
            keeps(*old(self), *final(self)),
            final(self)@ == fired(old(self)@, name@, args@),
    {
        let callee: Value = get_global(&self.machine.globals, name);
        self.push_job(Job::Start { callee, args });
    }

    /// A function is to run as a new flow.
    pub fn start_flow(&mut self, callee: Value, args: Vec<Value>)
        requires
            old(self).wf(),
        ensures
            keeps(*old(self), *final(self)),
            final(self)@ == with_job(old(self)@, JobV::Start { callee, args: args@ }),
    {
        self.push_job(Job::Start { callee, args });
    }

    /// The handler `id` is to run as a new flow, with the event of the page.
    pub fn fire_handler(&mut self, id: i64, ev: Value)
        requires
            old(self).wf(),
        ensures
            keeps(*old(self), *final(self)),
            final(self)@ == handler_fired(old(self)@, id, ev),
    {
        if let Some(callee) = self.hui.handler(id) {
            let mut args: Vec<Value> = Vec::new();
            args.push(ev);
            assert(args@ =~= seq![ev]);
            self.push_job(Job::Start { callee, args });
        }
    }

    fn hook(&mut self, name: &str, sid: &str, user: &str)
        requires
            old(self).wf(),
        ensures
            keeps(*old(self), *final(self)),
            final(self)@ == hooked(old(self)@, name@, sid@, user@),
    {
        match get_global(&self.machine.globals, name) {
            Value::Nil => {},
            _ => {
                let a: Value = self.new_text(sid);
                let b: Value = self.new_text(user);
                let mut args: Vec<Value> = Vec::new();
                args.push(a);
                args.push(b);
                assert(args@ =~= seq![a, b]);
                self.fire(name, args);
            },
        }
    }

    /// A session has connected to the server.
    pub fn session_connect(&mut self, sid: &str, user: &str)
        requires
            old(self).wf(),
        ensures
            keeps(*old(self), *final(self)),
            final(self)@ == hooked(old(self)@, "on_connect"@, sid@, user@),
    {
        self.hook("on_connect", sid, user);
    }

    /// A session has gone.
    pub fn session_disconnect(&mut self, sid: &str, user: &str)
        requires
            old(self).wf(),
        ensures
            keeps(*old(self), *final(self)),
            final(self)@ == hooked(old(self)@, "on_disconnect"@, sid@, user@),
    {
        self.hook("on_disconnect", sid, user);
    }

    /// The function `name` is to run at once, for its value, which `result`
    /// holds in the end. It may cast and spawn, but not hop.
    pub fn call_sync(&mut self, name: &str, args: Vec<Value>)
        requires
            old(self).wf(),
        ensures
            keeps(*old(self), *final(self)),
            final(self)@ == call_synced(old(self).prog@, old(self)@, name@, args@),
    {
        self.result = None;
        let callee: Value = get_global(&self.machine.globals, name);
        match call_value(&self.prog, &self.machine.heap, callee, &args) {
            Err(m) => {
                self.result = Some(Err(m));
            },
            Ok(fr) => {
                self.next_flow = next_of(self.next_flow);
                let mut flow: String = self.side.addr().to_owned();
                flow.append("#sync");
                flow.append(dec_u64(self.next_flow).as_str());
                self.again(
                    Task {
                        frames: one_frame(fr),
                        fuel: STEP_LIMIT,
                        ctx: FlowCtx { flow, origin: Value::Nil, user: Value::Nil },
                        on_complete: Complete::Sync(name.to_owned()),
                    },
                );
            },
        }
    }

    /// No flow of this side waits for a reply.
    pub fn quiescent(&self) -> (r: Result<(), String>)
        ensures
            match r {
                Ok(_) => self@.stacks.len() == 0,
                Err(m) => self@.stacks.len() > 0 && m@ == "suspended flow: "@ + self@.stacks[0].0,
            },
    {
        if self.stacks.len() == 0 {
            Ok(())
        } else {
            assert(self@.stacks[0].0 == self.stacks@[0].0@);
            Err(cat2("suspended flow: ", self.stacks[0].0.as_str()))
        }
    }

    /// The actions for the platform, which are then done.
    pub fn take_actions(&mut self) -> (r: Vec<Action>)
        requires
            old(self).wf(),
        ensures
            keeps(*old(self), *final(self)),
            actions_v(r@) == old(self)@.out,
            final(self)@ == (VmV { out: Seq::empty(), ..old(self)@ }),
    {
        let mut r: Vec<Action> = Vec::new();
        core::mem::swap(&mut r, &mut self.out);
        assert(actions_v(self.out@) =~= Seq::<ActionV>::empty());
        r
    }
}

fn text_data(s: &str) -> (r: Data)
    ensures
        r@ == DataV::Text(s@),
{
    Data::Text(s.to_owned())
}

/// A field more, unless it is nil.
fn push_value(heap: &Heap, m: &mut Vec<(Data, Data)>, k: &str, v: Value) -> (r: Result<(), String>)
    ensures
        match (r, packet_field(heap@, k@, v)) {
            (Ok(_), Ok(fs)) => pairs_v(*final(m)) == pairs_v(*old(m)) + fs,
            (Err(x), Err(y)) => x@ == y,
            _ => false,
        },
{
    match v {
        Value::Nil => {
            assert(pairs_v(*m) =~= pairs_v(*m) + Seq::<(DataV, DataV)>::empty());
            Ok(())
        },
        _ => {
            let d: Data = heap.to_cbor(v)?;
            let ghost before = pairs_v(*m);
            push_field(m, k, d);
            assert(pairs_v(*m) =~= before + seq![(DataV::Text(k@), d@)]);
            Ok(())
        },
    }
}

/// The packet as data.
pub fn encode_packet(heap: &Heap, p: &Packet) -> (r: Result<Data, String>)
    ensures
        crate::wire::same_result(r, packet_data(heap@, p@)),
{
    let mut m: Vec<(Data, Data)> = no_fields();
    match p {
        Packet::Call { flow, to, hop, vars, origin, user, reply_to } => {
            push_field(&mut m, "flow", text_data(flow.as_str()));
            push_field(&mut m, "hop", text_data(hop.as_str()));
            push_field(&mut m, "kind", text_data("call"));
            let ghost a = pairs_v(m);
            assert(a =~= seq![
                text_pair("flow"@, flow@),
                text_pair("hop"@, hop@),
                text_pair("kind"@, "call"@),
            ]);
            push_value(heap, &mut m, "origin", *origin)?;
            push_field(&mut m, "reply_to", text_data(reply_to.as_str()));
            push_value(heap, &mut m, "to", *to)?;
            push_value(heap, &mut m, "user", *user)?;
            push_value(heap, &mut m, "vars", *vars)?;
            proof {
                let f1 = packet_field(heap@, "origin"@, *origin)->Ok_0;
                let f2 = seq![text_pair("reply_to"@, reply_to@)];
                let f3 = packet_field(heap@, "to"@, *to)->Ok_0;
                let f4 = packet_field(heap@, "user"@, *user)->Ok_0;
                let f5 = packet_field(heap@, "vars"@, *vars)->Ok_0;
                assert(pairs_v(m) =~= a + (f1 + (f2 + (f3 + (f4 + f5)))));
            }
        },
        Packet::Cast { flow, to, hop, vars, origin, user } => {
            push_field(&mut m, "flow", text_data(flow.as_str()));
            push_field(&mut m, "hop", text_data(hop.as_str()));
            push_field(&mut m, "kind", text_data("cast"));
            let ghost a = pairs_v(m);
            assert(a =~= seq![
                text_pair("flow"@, flow@),
                text_pair("hop"@, hop@),
                text_pair("kind"@, "cast"@),
            ]);
            push_value(heap, &mut m, "origin", *origin)?;
            push_value(heap, &mut m, "to", *to)?;
            push_value(heap, &mut m, "user", *user)?;
            push_value(heap, &mut m, "vars", *vars)?;
            proof {
                let f1 = packet_field(heap@, "origin"@, *origin)->Ok_0;
                let f3 = packet_field(heap@, "to"@, *to)->Ok_0;
                let f4 = packet_field(heap@, "user"@, *user)->Ok_0;
                let f5 = packet_field(heap@, "vars"@, *vars)->Ok_0;
                assert(pairs_v(m) =~= a + (f1 + (f3 + (f4 + f5))));
            }
        },
        Packet::Reply { flow, to, value } => {
            push_field(&mut m, "flow", text_data(flow.as_str()));
            push_field(&mut m, "kind", text_data("reply"));
            let ghost a = pairs_v(m);
            assert(a =~= seq![text_pair("flow"@, flow@), text_pair("kind"@, "reply"@)]);
            push_value(heap, &mut m, "to", *to)?;
            push_value(heap, &mut m, "value", *value)?;
            proof {
                let f1 = packet_field(heap@, "to"@, *to)->Ok_0;
                let f2 = packet_field(heap@, "value"@, *value)->Ok_0;
                assert(pairs_v(m) =~= a + (f1 + f2));
            }
        },
        Packet::Error { flow, to, err } => {
            push_field(&mut m, "err", text_data(err.as_str()));
            push_field(&mut m, "flow", text_data(flow.as_str()));
            push_field(&mut m, "kind", text_data("error"));
            let ghost a = pairs_v(m);
            assert(a =~= seq![
                text_pair("err"@, err@),
                text_pair("flow"@, flow@),
                text_pair("kind"@, "error"@),
            ]);
            push_value(heap, &mut m, "to", *to)?;
        },
        Packet::Refused { said, to, err } => {
            push_field(&mut m, "err", text_data(err.as_str()));
            let ghost a = pairs_v(m);
            assert(a =~= seq![text_pair("err"@, err@)]);
            push_value(heap, &mut m, "flow", *said)?;
            push_field(&mut m, "kind", text_data("error"));
            push_value(heap, &mut m, "to", *to)?;
            proof {
                let f1 = packet_field(heap@, "flow"@, *said)->Ok_0;
                let f2 = seq![text_pair("kind"@, "error"@)];
                let f3 = packet_field(heap@, "to"@, *to)->Ok_0;
                assert(pairs_v(m) =~= a + (f1 + (f2 + f3)));
            }
        },
    }
    Ok(fields_data(m))
}

/// Named values of a list.
pub open spec fn values_by_name(s: Seq<(&'static str, Value)>) -> Seq<(Seq<char>, Value)> {
    Seq::new(s.len(), |i: int| (s[i].0@, s[i].1))
}

fn put_named_map(heap: &mut Heap, fs: &Vec<(&'static str, Value)>) -> (v: Value)
    ensures
        (final(heap)@, v) == named_map(old(heap)@, values_by_name(fs@)),
{
    let ghost h0 = heap@;
    let ghost fv = values_by_name(fs@);
    let mut es: Vec<(Value, Value)> = Vec::new();
    let mut i: usize = 0;
    while i < fs.len()
        invariant
            i <= fs@.len(),
            fv == values_by_name(fs@),
            (heap@, es@) == named_entries(h0, fv, i as int),
        decreases fs@.len() - i,
    {
        assert(fv[i as int] == (fs@[i as int].0@, fs@[i as int].1));
        let k: Value = heap.str(fs[i].0);
        heap.entry_put(&mut es, k, fs[i].1);
        i = i + 1;
    }
    heap.map(es)
}

impl Vm {
    fn set_global(&mut self, name: &str, v: Value)
        requires
            old(self).wf(),
        ensures
            keeps(*old(self), *final(self)),
            final(self)@ == with_global(old(self)@, name@, v),
    {
        self.machine.globals.insert(name, v);
    }

    fn mount(&mut self, name: &str, fs: Vec<(&'static str, Value)>)
        requires
            old(self).wf(),
        ensures
            keeps(*old(self), *final(self)),
            final(self)@ == mounted(old(self)@, name@, values_by_name(fs@)),
    {
        let v: Value = put_named_map(&mut self.machine.heap, &fs);
        self.set_global(name, v);
    }

    fn install_core(&mut self)
        requires
            old(self).wf(),
        ensures
            keeps(*old(self), *final(self)),
            final(self)@ == with_core(old(self)@),
    {
        self.set_global("print", Value::Native(NativeId::Print));
        self.set_global("error", Value::Native(NativeId::Error));
        self.set_global("tostring", Value::Native(NativeId::Tostring));
        self.set_global("tonumber", Value::Native(NativeId::Tonumber));
        self.set_global("push", Value::Native(NativeId::Push));
        self.set_global("len", Value::Native(NativeId::Len));
        self.set_global("sort_by", Value::Native(NativeId::SortBy));
        self.set_global("floor", Value::Native(NativeId::Floor));
        self.set_global("type", Value::Native(NativeId::TypeOf));
    }

    fn install_modules(&mut self)
        requires
            old(self).wf(),
        ensures
            keeps(*old(self), *final(self)),
            final(self)@ == with_modules(old(self)@),
    {
        let json: Vec<(&'static str, Value)> = vec![
            ("decode", Value::Lib(LibId::JsonDecode)),
            ("encode", Value::Lib(LibId::JsonEncode)),
            ("first", Value::Lib(LibId::JsonFirst)),
        ];
        assert(values_by_name(json@) =~= seq![
            ("decode"@, Value::Lib(LibId::JsonDecode)),
            ("encode"@, Value::Lib(LibId::JsonEncode)),
            ("first"@, Value::Lib(LibId::JsonFirst)),
        ]);
        self.mount("json", json);
        self.set_global("markdown", Value::Lib(LibId::Markdown));
        self.set_global("bash", Value::Lib(LibId::Bash));
        let llm: Vec<(&'static str, Value)> = vec![
            ("call", Value::Lib(LibId::LlmCall)),
            ("models", Value::Lib(LibId::LlmModels)),
            ("next", Value::Lib(LibId::LlmNext)),
            ("stream", Value::Lib(LibId::LlmStream)),
        ];
        assert(values_by_name(llm@) =~= seq![
            ("call"@, Value::Lib(LibId::LlmCall)),
            ("models"@, Value::Lib(LibId::LlmModels)),
            ("next"@, Value::Lib(LibId::LlmNext)),
            ("stream"@, Value::Lib(LibId::LlmStream)),
        ]);
        self.mount("llm", llm);
        let rank: Vec<(&'static str, Value)> = vec![
            ("before", Value::Lib(LibId::RankBefore)),
            ("components", Value::Lib(LibId::RankComponents)),
            ("cut", Value::Lib(LibId::RankCut)),
            ("finalize", Value::Lib(LibId::RankFinalize)),
            ("has", Value::Lib(LibId::RankHas)),
            ("parse_score", Value::Lib(LibId::RankParseScore)),
            ("plan", Value::Lib(LibId::RankPlan)),
            ("project", Value::Lib(LibId::RankProject)),
            ("score", Value::Lib(LibId::RankScore)),
            ("strip", Value::Lib(LibId::RankStrip)),
        ];
        assert(values_by_name(rank@) =~= seq![
            ("before"@, Value::Lib(LibId::RankBefore)),
            ("components"@, Value::Lib(LibId::RankComponents)),
            ("cut"@, Value::Lib(LibId::RankCut)),
            ("finalize"@, Value::Lib(LibId::RankFinalize)),
            ("has"@, Value::Lib(LibId::RankHas)),
            ("parse_score"@, Value::Lib(LibId::RankParseScore)),
            ("plan"@, Value::Lib(LibId::RankPlan)),
            ("project"@, Value::Lib(LibId::RankProject)),
            ("score"@, Value::Lib(LibId::RankScore)),
            ("strip"@, Value::Lib(LibId::RankStrip)),
        ]);
        self.mount("rank", rank);
    }

    fn install_platform(&mut self)
        requires
            old(self).wf(),
        ensures
            keeps(*old(self), *final(self)),
            final(self)@ == with_platform(old(self)@),
    {
        self.set_global("store", Value::Native(NativeId::StoreCall));
        let dom: Vec<(&'static str, Value)> = vec![
            ("clear", Value::Native(NativeId::DomClear)),
            ("focus", Value::Native(NativeId::DomFocus)),
            ("get", Value::Native(NativeId::DomGet)),
            ("set", Value::Native(NativeId::DomSet)),
        ];
        assert(values_by_name(dom@) =~= seq![
            ("clear"@, Value::Native(NativeId::DomClear)),
            ("focus"@, Value::Native(NativeId::DomFocus)),
            ("get"@, Value::Native(NativeId::DomGet)),
            ("set"@, Value::Native(NativeId::DomSet)),
        ]);
        self.mount("dom", dom);
        let hui: Vec<(&'static str, Value)> = vec![("render", Value::Native(NativeId::HuiRender))];
        assert(values_by_name(hui@) =~= seq![("render"@, Value::Native(NativeId::HuiRender))]);
        self.mount("hui", hui);
    }

    fn install_functions(&mut self)
        requires
            old(self).wf(),
        ensures
            keeps(*old(self), *final(self)),
            final(self)@ == with_functions(
                old(self)@,
                fns_by_name(old(self).prog.named.entries@),
                old(self).prog.named.entries@.len() as int,
            ),
    {
        let ghost s0 = self@;
        let ghost fs = fns_by_name(self.prog.named.entries@);
        let mut i: usize = 0;
        while i < self.prog.named.entries.len()
            invariant
                i <= self.prog.named.entries@.len(),
                keeps(*old(self), *self),
                s0 == old(self)@,
                fs == fns_by_name(self.prog.named.entries@),
                self@ == with_functions(s0, fs, i as int),
            decreases self.prog.named.entries@.len() - i,
        {
            assert(fs[i as int] == (
                self.prog.named.entries@[i as int].0@,
                self.prog.named.entries@[i as int].1,
            ));
            let none: Vec<Value> = Vec::new();
            assert(none@ =~= Seq::<Value>::empty());
            let c: usize = self.machine.heap.put(Cell::Closure(self.prog.named.entries[i].1, none));
            self.machine.globals.insert(
                self.prog.named.entries[i].0.as_str(),
                Value::Closure(c),
            );
            i = i + 1;
        }
    }

    /// A new machine for a program. On the server the initializers of its
    /// globals are the first jobs; where one fails, `result` says so.
    pub fn new(prog: Program, side: SideId) -> (r: Vm)
        requires
            prog.hops.wf(),
            prog.named.wf(),
        ensures
            r.wf(),
            r.prog == prog,
            r@ == new_vm(prog@, fns_by_name(prog.named.entries@), side@),
    {
        let mut jobs: Vec<Job> = Vec::new();
        let ghost lets = lets_v(prog.server_lets@);
        assert(jobs_v(jobs@) =~= Seq::<JobV>::empty());
        if let SideId::Server = &side {
            let n: usize = prog.server_lets.len();
            let mut i: usize = 0;
            assert(jobs_v(jobs@) =~= init_jobs(lets).take(0));
            while i < n
                invariant
                    i <= n,
                    n == prog.server_lets@.len(),
                    lets == lets_v(prog.server_lets@),
                    jobs_v(jobs@) == init_jobs(lets).take(i as int),
                decreases n - i,
            {
                let ghost before = jobs@;
                let k: usize = n - 1 - i;
                assert(lets[k as int] == (
                    prog.server_lets@[k as int].0@,
                    prog.server_lets@[k as int].1,
                ));
                let j = Job::Init {
                    name: prog.server_lets[k].0.clone(),
                    fn_idx: prog.server_lets[k].1,
                };
                jobs.push(j);
                proof {
                    assert(jobs_v(jobs@) =~= jobs_v(before).push(j@));
                    assert(init_jobs(lets).take(i + 1) =~= init_jobs(lets).take(i as int).push(
                        j@,
                    ));
                }
                i = i + 1;
            }
            assert(init_jobs(lets).take(n as int) =~= init_jobs(lets));
        }
        let mut vm = Vm {
            prog,
            machine: Machine::new(),
            side,
            user: Value::Nil,
            hui: HuiState::new(),
            stacks: Vec::new(),
            next_flow: 0,
            jobs,
            spawned: Vec::new(),
            out: Vec::new(),
            result: None,
        };
        proof {
            assert(vm@.stacks =~= Seq::<(Seq<char>, Seq<TaskV>)>::empty());
            assert(vm@.spawned =~= Seq::<(Value, Seq<Value>)>::empty());
            assert(vm@.out =~= Seq::<ActionV>::empty());
        }
        vm.install_core();
        vm.install_modules();
        vm.install_platform();
        vm.install_functions();
        vm
    }
}

} // verus!
