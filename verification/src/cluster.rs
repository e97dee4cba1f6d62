//! The simulated cluster: a server and some browsers in one process, connected
//! by a queue that carries packets as bytes only. A hop is a copy here as it is
//! over a socket.

use crate::compiler::{compile, compiled};
use crate::data::{Data, DataV};
use crate::effects::{effect_reply, reply_data, Effects, EffectsV};
use crate::float::{FactV, FloatTable};
use crate::flow::{
    addr_of, call_synced, fired, handler_fired, new_vm, vm_answered, vm_scored, vm_step, with_job, ActionV,
    JobV, SideV, TickV, VmV, WantV,
};
use crate::ir::{Program, ProgramV};
use crate::ranking::{ordered_scores, score_lists};
use crate::rt::{actions_v, fns_by_name, Action, SideId, Tick, Vm, Want};
use crate::sim::{
    dom_of, logged, performed, posted, queue_v, simulate, simulated, Effect, EffectV, Shared,
    SharedV,
};
use crate::text::{text_before, text_eq, text_lt, texts};
use crate::value::{coerced, field_of, show, text_of, Ask, AskV, CellV, Heap, Try, TryV, Value};
use crate::wire::{decode_value, decoded, from_cbor, loaded};
use vstd::prelude::*;
use vstd::string::*;

verus! {

/// A command that a flow waits for.
#[derive(Debug)]
pub struct Command {
    pub flow: String,
    pub cmd: String,
    pub dir: String,
}

/// The model of a command.
pub struct CommandV {
    pub flow: Seq<char>,
    pub cmd: Seq<char>,
    pub dir: Seq<char>,
}

impl View for Command {
    type V = CommandV;

    open spec fn view(&self) -> CommandV {
        CommandV { flow: self.flow@, cmd: self.cmd@, dir: self.dir@ }
    }
}

/// What a step of the cluster came to.
pub enum Progress {
    /// There is nothing to do.
    Idle,
    /// Something was done.
    More,
    /// A fact about floats is wanted.
    Need(Ask),
    /// The command is to be run.
    Bash,
    /// The store is to do something for a native.
    Store,
    /// Scores are to be computed.
    Scores,
    /// A packet was for an address that nobody has.
    Lost(String),
    /// What was under way is no packet.
    Undecodable(String),
}

/// The model of progress.
pub enum ProgressV {
    Idle,
    More,
    Need(AskV),
    Bash,
    Store,
    Scores,
    Lost(Seq<char>),
    Undecodable(Seq<char>),
}

impl View for Progress {
    type V = ProgressV;

    open spec fn view(&self) -> ProgressV {
        match *self {
            Progress::Idle => ProgressV::Idle,
            Progress::More => ProgressV::More,
            Progress::Need(q) => ProgressV::Need(q@),
            Progress::Bash => ProgressV::Bash,
            Progress::Store => ProgressV::Store,
            Progress::Scores => ProgressV::Scores,
            Progress::Lost(s) => ProgressV::Lost(s@),
            Progress::Undecodable(s) => ProgressV::Undecodable(s@),
        }
    }
}

/// What a machine is set to do.
pub enum Call {
    /// A function runs as a flow.
    Entry { name: String, args: Vec<Value> },
    /// A handler of the page runs as a flow, with an event.
    Handler { id: i64, ev: Value },
    /// A function runs at once, for its value.
    Sync { name: String, args: Vec<Value> },
}

/// The model of what a machine is set to do.
pub enum CallV {
    Entry { name: Seq<char>, args: Seq<Value> },
    Handler { id: i64, ev: Value },
    Sync { name: Seq<char>, args: Seq<Value> },
}

impl View for Call {
    type V = CallV;

    open spec fn view(&self) -> CallV {
        match *self {
            Call::Entry { name, args } => CallV::Entry { name: name@, args: args@ },
            Call::Handler { id, ev } => CallV::Handler { id, ev },
            Call::Sync { name, args } => CallV::Sync { name: name@, args: args@ },
        }
    }
}

pub open spec fn calls_v(s: Seq<(usize, Call)>) -> Seq<(usize, CallV)> {
    Seq::new(s.len(), |i: int| (s[i].0, s[i].1@))
}

/// A simulated cluster. The first machine is the server.
pub struct Cluster {
    pub vms: Vec<Vm>,
    pub shared: Shared,
    pub fx: Effects,
    /// The machine that is at work, or was last.
    pub at: usize,
    pub busy: bool,
    /// What that machine has its platform do.
    pub todo: Vec<Action>,
    /// What it wants answered.
    pub want: Option<Want>,
    /// What the machines are to do once none is at work, in this order.
    pub waiting: Vec<(usize, Call)>,
    /// A packet, and the machines that are to get it.
    pub parcel: Vec<u8>,
    pub deliver: Vec<usize>,
    pub bash: Option<Command>,
}

/// The model of a cluster.
pub struct ClusterV {
    pub vms: Seq<(ProgramV, VmV)>,
    pub shared: SharedV,
    pub fx: EffectsV,
    pub at: usize,
    pub busy: bool,
    pub todo: Seq<ActionV>,
    pub want: Option<WantV>,
    pub waiting: Seq<(usize, CallV)>,
    pub parcel: Seq<u8>,
    pub deliver: Seq<usize>,
    pub bash: Option<CommandV>,
}

pub open spec fn vms_v(s: Seq<Vm>) -> Seq<(ProgramV, VmV)> {
    Seq::new(s.len(), |i: int| (s[i].prog@, s[i]@))
}

impl View for Cluster {
    type V = ClusterV;

    open spec fn view(&self) -> ClusterV {
        ClusterV {
            vms: vms_v(self.vms@),
            shared: self.shared@,
            fx: self.fx@,
            at: self.at,
            busy: self.busy,
            todo: actions_v(self.todo@),
            want: match self.want {
                Some(w) => Some(w@),
                None => None,
            },
            waiting: calls_v(self.waiting@),
            parcel: self.parcel@,
            deliver: self.deliver@,
            bash: match self.bash {
                Some(b) => Some(b@),
                None => None,
            },
        }
    }
}

/// The address of machine `i`.
pub open spec fn addr_at(vms: Seq<(ProgramV, VmV)>, i: int) -> Seq<char> {
    addr_of(vms[i].1.side)
}

/// The machine is a new one of the program, on that side, with the program's
/// functions among its globals.
pub open spec fn born_on(vm: Vm, p: ProgramV, side: SideV) -> bool {
    vm.prog@ == p && vm@ == new_vm(p, fns_by_name(vm.prog.named.entries@), side)
}

/// The cluster once machine `i` is `s`.
pub open spec fn with_vm(c: ClusterV, i: int, s: VmV) -> ClusterV {
    ClusterV { vms: c.vms.update(i, (c.vms[i].0, s)), ..c }
}

/// The cluster once the machine that is at work has come to `t`.
pub open spec fn ticked(c: ClusterV, s: VmV, t: TickV) -> ClusterV {
    let c2 = with_vm(c, c.at as int, VmV { out: Seq::empty(), ..s });
    ClusterV {
        todo: s.out,
        busy: !(t is Idle),
        want: match t {
            TickV::Want(w) => Some(w),
            _ => None,
        },
        ..c2
    }
}

/// The cluster once the machine at work has what it wanted.
pub open spec fn given(c: ClusterV, h: Seq<CellV>, r: Result<Value, Seq<char>>) -> ClusterV {
    let (p, s) = c.vms[c.at as int];
    ClusterV {
        want: None,
        ..with_vm(c, c.at as int, vm_answered(p, VmV { h, ..s }, r))
    }
}

/// What becomes of what the machine at work wants.
pub open spec fn wanted(c: ClusterV, w: WantV) -> (ClusterV, ProgressV) {
    match w {
        WantV::Fact(q) => (ClusterV { want: None, ..c }, ProgressV::Need(q)),
        WantV::DomGet(sel) => {
            let s = c.vms[c.at as int].1;
            let text = dom_of(c.shared.doms, addr_of(s.side), sel);
            (
                given(c, s.h.push(CellV::Str(text)), Ok(Value::Str(s.h.len() as usize))),
                ProgressV::More,
            )
        },
        WantV::Store { .. } => (c, ProgressV::Store),
        WantV::Scores { .. } => (c, ProgressV::Scores),
    }
}

/// The place of the browser with that address from `i` on.
pub open spec fn browser_place(vms: Seq<(ProgramV, VmV)>, addr: Seq<char>, i: int) -> int
    decreases vms.len() - i,
{
    if i < 0 || i >= vms.len() || addr_at(vms, i) == addr {
        i
    } else {
        browser_place(vms, addr, i + 1)
    }
}

proof fn lemma_browser_place(vms: Seq<(ProgramV, VmV)>, addr: Seq<char>, i: int)
    ensures
        i <= browser_place(vms, addr, i),
    decreases vms.len() - i,
{
    if 0 <= i < vms.len() && addr_at(vms, i) != addr {
        lemma_browser_place(vms, addr, i + 1);
    }
}

/// The place in `order` before which machine `k` comes.
pub open spec fn order_place(vms: Seq<(ProgramV, VmV)>, order: Seq<usize>, k: int, i: int) -> int
    decreases order.len() - i,
{
    if i < 0 || i >= order.len() || text_before(addr_at(vms, k), addr_at(vms, order[i] as int)) {
        i
    } else {
        order_place(vms, order, k, i + 1)
    }
}

/// The browsers among the first `n` machines, in the order of their addresses.
pub open spec fn browsers_in_order(vms: Seq<(ProgramV, VmV)>, n: int) -> Seq<usize>
    decreases n,
{
    if n <= 1 || n > vms.len() {
        Seq::empty()
    } else {
        let before = browsers_in_order(vms, n - 1);
        before.insert(order_place(vms, before, n - 1, 0), (n - 1) as usize)
    }
}

/// What the transcript shows of the value of a reply.
pub open spec fn shown_reply(f: Seq<FactV>, d: DataV) -> Seq<char> {
    let (h, r) = loaded(Seq::empty(), d);
    match r {
        Ok(v) => match show(h, f, h.len(), field_of(h, v, "value"@)) {
            TryV::Done(s) => s,
            _ => "?"@,
        },
        Err(_) => "?"@,
    }
}

/// What is shared once a reply of an effect is under way.
pub open spec fn effect_sent(f: Seq<FactV>, s: SharedV, d: DataV) -> SharedV {
    posted(
        logged(s, "        ~ wire @effects -> server   reply value="@ + shown_reply(f, d)),
        Ok(d),
        "!! unencodable effect reply: "@,
    )
}

/// The cluster once the first packet under way is taken.
pub open spec fn dequeued(c: ClusterV) -> ClusterV {
    ClusterV { shared: SharedV { queue: c.shared.queue.skip(1), ..c.shared }, ..c }
}

/// The cluster once an effect is called for.
pub open spec fn effect_called(f: Seq<FactV>, c: ClusterV, h: Seq<CellV>, pkt: Value) -> (
    ClusterV,
    ProgressV,
) {
    match coerced(h, f, field_of(h, pkt, "flow"@)) {
        TryV::Need(q) => (c, ProgressV::Need(q)),
        TryV::Fail(m) => (dequeued(c), ProgressV::Undecodable(m)),
        TryV::Done(flow) => {
            let hop = match text_of(h, field_of(h, pkt, "hop"@)) {
                Some(s) => s,
                None => Seq::empty(),
            };
            let (fx, r) = simulated(h, f, c.fx, flow, hop, field_of(h, pkt, "vars"@));
            let c2 = ClusterV { fx, ..c };
            match r {
                TryV::Need(q) => (c2, ProgressV::Need(q)),
                TryV::Fail(m) => (dequeued(c2), ProgressV::Undecodable(m)),
                TryV::Done(EffectV::Wait) => (dequeued(c2), ProgressV::More),
                TryV::Done(EffectV::Bash { flow, cmd, dir }) => (
                    ClusterV { bash: Some(CommandV { flow, cmd, dir }), ..dequeued(c2) },
                    ProgressV::More,
                ),
                TryV::Done(EffectV::Reply(d)) => {
                    let c3 = dequeued(c2);
                    (ClusterV { shared: effect_sent(f, c3.shared, d), ..c3 }, ProgressV::More)
                },
            }
        },
    }
}

/// The cluster once the first packet under way is with those it is for.
pub open spec fn routed(f: Seq<FactV>, c: ClusterV) -> (ClusterV, ProgressV) {
    let b = c.shared.queue[0];
    let (h, r) = decoded(Seq::empty(), b);
    match r {
        Err(m) => (dequeued(c), ProgressV::Undecodable(m)),
        Ok(pkt) => match coerced(h, f, field_of(h, pkt, "to"@)) {
            TryV::Need(q) => (c, ProgressV::Need(q)),
            TryV::Fail(m) => (dequeued(c), ProgressV::Undecodable(m)),
            TryV::Done(to) => if to == "@effects"@ {
                effect_called(f, c, h, pkt)
            } else if to == "server"@ {
                (ClusterV { parcel: b, deliver: seq![0usize], ..dequeued(c) }, ProgressV::More)
            } else if to == "browsers"@ {
                (
                    ClusterV {
                        parcel: b,
                        deliver: browsers_in_order(c.vms, c.vms.len() as int),
                        ..dequeued(c)
                    },
                    ProgressV::More,
                )
            } else {
                let i = browser_place(c.vms, to, 1);
                if i < c.vms.len() {
                    (
                        ClusterV { parcel: b, deliver: seq![i as usize], ..dequeued(c) },
                        ProgressV::More,
                    )
                } else {
                    (dequeued(c), ProgressV::Lost(to))
                }
            },
        },
    }
}

/// The cluster once the packet is with the next machine that it is for.
pub open spec fn delivered(c: ClusterV) -> (ClusterV, ProgressV) {
    let i = c.deliver[0];
    let s = c.vms[i as int].1;
    let c2 = ClusterV { deliver: c.deliver.skip(1), ..c };
    let (h, r) = decoded(s.h, c.parcel);
    match r {
        Ok(pkt) => (
            ClusterV {
                at: i,
                busy: true,
                ..with_vm(c2, i as int, with_job(VmV { h, ..s }, JobV::Packet(pkt)))
            },
            ProgressV::More,
        ),
        Err(m) => (with_vm(c2, i as int, VmV { h, ..s }), ProgressV::Undecodable(m)),
    }
}

/// The machine once it is set to do that.
pub open spec fn call_begun(p: ProgramV, s: VmV, k: CallV) -> VmV {
    match k {
        CallV::Entry { name, args } => fired(s, name, args),
        CallV::Handler { id, ev } => handler_fired(s, id, ev),
        CallV::Sync { name, args } => call_synced(p, s, name, args),
    }
}

/// The cluster once machine `i` is at work on that.
pub open spec fn begun(c: ClusterV, i: int, k: CallV) -> ClusterV {
    let (p, s) = c.vms[i];
    ClusterV { at: i as usize, busy: true, ..with_vm(c, i, call_begun(p, s, k)) }
}

/// A machine has something to finish before another one begins.
pub open spec fn at_work(c: ClusterV) -> bool {
    c.busy || c.todo.len() > 0 || c.want is Some || c.waiting.len() > 0
}

/// The cluster once machine `i` is to do that: at once where none is at work,
/// else after all that is to be done already.
pub open spec fn asked(c: ClusterV, i: int, k: CallV) -> ClusterV {
    if at_work(c) {
        ClusterV { waiting: c.waiting.push((i as usize, k)), ..c }
    } else {
        begun(c, i, k)
    }
}

/// A step of the cluster: what the machine at work has its platform do comes
/// first, then what it wants, then its next job; where none is at work, what
/// waits to be done, the packet in delivery, and then the next packet.
pub open spec fn cluster_step(f: Seq<FactV>, c: ClusterV) -> (ClusterV, ProgressV) {
    if c.bash is Some {
        (c, ProgressV::Bash)
    } else if c.todo.len() > 0 {
        let s = c.vms[c.at as int].1;
        match performed(s.h, f, c.shared, s.side, c.todo[0]) {
            TryV::Need(q) => (c, ProgressV::Need(q)),
            TryV::Fail(m) => (
                ClusterV { todo: c.todo.skip(1), ..c },
                ProgressV::Undecodable(m),
            ),
            TryV::Done(shared) => (
                ClusterV { shared, todo: c.todo.skip(1), ..c },
                ProgressV::More,
            ),
        }
    } else if c.want is Some {
        wanted(c, c.want->Some_0)
    } else if c.busy {
        let (p, s) = c.vms[c.at as int];
        let (s2, t) = vm_step(p, f, s);
        (ticked(c, s2, t), ProgressV::More)
    } else if c.waiting.len() > 0 {
        let (i, k) = c.waiting[0];
        (begun(ClusterV { waiting: c.waiting.skip(1), ..c }, i as int, k), ProgressV::More)
    } else if c.deliver.len() > 0 {
        delivered(c)
    } else if c.shared.queue.len() > 0 {
        routed(f, c)
    } else {
        (c, ProgressV::Idle)
    }
}

impl Cluster {
    /// The machines can be used, and there is a server.
    pub open spec fn wf(&self) -> bool {
        &&& self.at < self.vms@.len()
        &&& forall|i: int| 0 <= i < self.vms@.len() ==> (#[trigger] self.vms@[i]).wf()
        &&& forall|i: int|
            0 <= i < self.deliver@.len() ==> (#[trigger] self.deliver@[i]) < self.vms@.len()
        &&& forall|i: int|
            0 <= i < self.waiting@.len() ==> (#[trigger] self.waiting@[i]).0 < self.vms@.len()
    }

    /// A cluster of machines, of which the first is the server. Its
    /// initializers are the first to run.
    pub fn of_machines(vms: Vec<Vm>) -> (r: Cluster)
        requires
            vms@.len() > 0,
            forall|i: int| 0 <= i < vms@.len() ==> (#[trigger] vms@[i]).wf(),
        ensures
            r.wf(),
            r.vms == vms,
            r@.vms == vms_v(vms@),
            r@.shared == (SharedV { queue: Seq::empty(), log: Seq::empty(), doms: Seq::empty() }),
            r@.fx == (EffectsV { streams: Seq::empty(), next_id: 0 }),
            r@.at == 0,
            r@.busy,
            r@.todo.len() == 0,
            r@.want is None,
            r@.waiting.len() == 0,
            r@.parcel.len() == 0,
            r@.deliver.len() == 0,
            r@.bash is None,
    {
        Cluster {
            vms,
            shared: Shared::new(),
            fx: Effects::new(),
            at: 0,
            busy: true,
            todo: Vec::new(),
            want: None,
            waiting: Vec::new(),
            parcel: Vec::new(),
            deliver: Vec::new(),
            bash: None,
        }
    }

    /// Compiles a program and builds the cluster: a server, and a browser for each
    /// session. Every machine loads the same program.
    pub fn new(sessions: &Vec<String>, src: &str, floats: &FloatTable) -> (r: Result<Cluster, String>)
        ensures
            match (r, compiled(floats@, src@)) {
                (Ok(c), Ok(p)) => {
                    &&& c.wf()
                    &&& c.vms@.len() == sessions@.len() + 1
                    &&& born_on(c.vms@[0], p, SideV::Server)
                    &&& forall|i: int|
                        0 <= i < sessions@.len() ==> born_on(
                            #[trigger] c.vms@[i + 1],
                            p,
                            SideV::Browser(sessions@[i]@),
                        )
                    &&& c@.shared == (SharedV {
                        queue: Seq::empty(),
                        log: Seq::empty(),
                        doms: Seq::empty(),
                    })
                    &&& c@.fx == (EffectsV { streams: Seq::empty(), next_id: 0 })
                    &&& c@.at == 0
                    &&& c@.busy
                    &&& c@.todo.len() == 0
                    &&& c@.want is None
                    &&& c@.waiting.len() == 0
                    &&& c@.parcel.len() == 0
                    &&& c@.deliver.len() == 0
                    &&& c@.bash is None
                },
                (Err(m), Err(w)) => m@ == w,
                _ => false,
            },
    {
        let ghost p = compiled(floats@, src@)->Ok_0;
        let prog: Program = compile(src, floats)?;
        let mut vms: Vec<Vm> = Vec::new();
        vms.push(Vm::new(prog, SideId::Server));
        let mut i: usize = 0;
        while i < sessions.len()
            invariant
                i <= sessions@.len(),
                compiled(floats@, src@) == Ok::<ProgramV, Seq<char>>(p),
                vms@.len() == i + 1,
                forall|j: int| 0 <= j < vms@.len() ==> (#[trigger] vms@[j]).wf(),
                born_on(vms@[0], p, SideV::Server),
                forall|j: int|
                    0 <= j < i ==> born_on(
                        #[trigger] vms@[j + 1],
                        p,
                        SideV::Browser(sessions@[j]@),
                    ),
            decreases sessions@.len() - i,
        {
            let ghost before = vms@;
            let prog: Program = compile(src, floats)?;
            let vm: Vm = Vm::new(prog, SideId::Browser(sessions[i].clone()));
            assert(born_on(vm, p, SideV::Browser(sessions@[i as int]@)));
            vms.push(vm);
            assert forall|j: int| 0 <= j < i + 1 implies born_on(
                #[trigger] vms@[j + 1],
                p,
                SideV::Browser(sessions@[j]@),
            ) by {
                if j < i {
                    assert(vms@[j + 1] == before[j + 1]);
                }
            }
            i = i + 1;
        }
        Ok(Cluster::of_machines(vms))
    }

    fn perform_next(&mut self, floats: &FloatTable) -> (r: Progress)
        requires
            old(self).wf(),
            old(self).bash is None,
            old(self).todo@.len() > 0,
        ensures
            final(self).wf(),
            (final(self)@, r@) == cluster_step(floats@, old(self)@),
    {
        let ghost c = self@;
        let ghost before = self.todo@;
        assert(c.todo[0] == self.todo@[0]@);
        let vm: &Vm = &self.vms[self.at];
        match self.shared.perform(&vm.machine.heap, floats, &vm.side, &self.todo[0]) {
            Try::Need(q) => Progress::Need(q),
            Try::Fail(m) => {
                let a: Action = self.todo.remove(0);
                assert(actions_v(self.todo@) =~= actions_v(before).skip(1));
                Progress::Undecodable(m)
            },
            Try::Done(_) => {
                let a: Action = self.todo.remove(0);
                assert(actions_v(self.todo@) =~= actions_v(before).skip(1));
                Progress::More
            },
        }
    }

    fn put_back(&mut self, i: usize, vm: Vm)
        requires
            i <= old(self).vms@.len(),
        ensures
            final(self).vms@ == old(self).vms@.insert(i as int, vm),
            final(self).shared == old(self).shared,
            final(self).fx == old(self).fx,
            final(self).at == old(self).at,
            final(self).busy == old(self).busy,
            final(self).todo == old(self).todo,
            final(self).want == old(self).want,
            final(self).waiting == old(self).waiting,
            final(self).parcel == old(self).parcel,
            final(self).deliver == old(self).deliver,
            final(self).bash == old(self).bash,
    {
        self.vms.insert(i, vm);
    }

    fn step_vm(&mut self, floats: &FloatTable) -> (r: Progress)
        requires
            old(self).wf(),
            old(self).todo@.len() == 0,
        ensures
            final(self).wf(),
            r is More,
            final(self)@ == ({
                let (p, s) = old(self)@.vms[old(self).at as int];
                let (s2, t) = vm_step(p, floats@, s);
                ticked(old(self)@, s2, t)
            }),
    {
        let at: usize = self.at;
        let ghost before = self.vms@;
        let mut vm: Vm = self.vms.remove(at);
        assert(vm.wf());
        let t: Tick = vm.step(floats);
        self.tick(vm, t, Ghost(before))
    }

    fn tick(&mut self, vm0: Vm, t: Tick, before: Ghost<Seq<Vm>>) -> (r: Progress)
        requires
            old(self).at < before@.len(),
            old(self).vms@ == before@.remove(old(self).at as int),
            forall|i: int| 0 <= i < before@.len() ==> (#[trigger] before@[i]).wf(),
            forall|i: int|
                0 <= i < old(self).deliver@.len() ==> (#[trigger] old(self).deliver@[i])
                    < before@.len(),
            forall|i: int|
                0 <= i < old(self).waiting@.len() ==> (#[trigger] old(self).waiting@[i]).0
                    < before@.len(),
            vm0.wf(),
            vm0.prog@ == before@[old(self).at as int].prog@,
        ensures
            final(self).wf(),
            r is More,
            final(self)@ == ticked(
                (ClusterV { vms: vms_v(before@), ..old(self)@ }),
                vm0@,
                t@,
            ),
    {
        let at: usize = self.at;
        let mut vm: Vm = vm0;
        self.todo = vm.take_actions();
        let ghost done = vm;
        self.put_back(at, vm);
        assert(vms_v(self.vms@) =~= vms_v(before@).update(
            at as int,
            (before@[at as int].prog@, done@),
        ));
        assert forall|i: int| 0 <= i < self.vms@.len() implies (#[trigger] self.vms@[i]).wf() by {
            if i != at {
                assert(self.vms@[i] == before@[i]);
            }
        }
        match t {
            Tick::Idle => {
                self.busy = false;
                self.want = None;
            },
            Tick::More => {
                self.busy = true;
                self.want = None;
            },
            Tick::Want(w) => {
                self.busy = true;
                self.want = Some(w);
            },
        }
        Progress::More
    }

    fn give(&mut self, d: Result<Data, String>)
        requires
            old(self).wf(),
        ensures
            final(self).wf(),
            final(self)@ == answered_data(
                old(self)@,
                match d {
                    Ok(d) => Ok(d@),
                    Err(m) => Err(m@),
                },
            ),
    {
        let at: usize = self.at;
        let ghost before = self.vms@;
        let mut vm: Vm = self.vms.remove(at);
        match d {
            Ok(d) => {
                let r: Result<Value, String> = vm.load(&d);
                vm.answer(r);
            },
            Err(m) => {
                vm.answer(Err(m));
            },
        }
        let ghost done = vm;
        self.put_back(at, vm);
        self.want = None;
        proof {
            assert(vms_v(self.vms@) =~= vms_v(before).update(
                at as int,
                (before[at as int].prog@, done@),
            ));
            assert forall|i: int| 0 <= i < self.vms@.len() implies (#[trigger] self.vms@[i]).wf() by {
                if i != at {
                    assert(self.vms@[i] == before[i]);
                }
            }
        }
    }

    /// Answers what the machine at work wanted of the store.
    pub fn answer_store(&mut self, d: Result<Data, String>)
        requires
            old(self).wf(),
        ensures
            final(self).wf(),
            final(self)@ == answered_data(
                old(self)@,
                match d {
                    Ok(d) => Ok(d@),
                    Err(m) => Err(m@),
                },
            ),
    {
        self.give(d)
    }

    /// Gives the machine at work the scores that it wanted.
    pub fn answer_scores(&mut self, floats: &FloatTable, scores: &Vec<Vec<u64>>) -> (r: Progress)
        requires
            old(self).wf(),
            old(self).todo@.len() == 0,
            forall|k: int| 0 <= k < scores@.len() ==> ordered_scores((#[trigger] scores@[k])@),
        ensures
            final(self).wf(),
            r is More,
            final(self)@ == ({
                let (p, s) = old(self)@.vms[old(self).at as int];
                let (s2, t) = vm_scored(p, floats@, s, score_lists(scores@));
                ticked(old(self)@, s2, t)
            }),
    {
        let at: usize = self.at;
        let ghost before = self.vms@;
        let mut vm: Vm = self.vms.remove(at);
        let t: Tick = vm.answer_scores(floats, scores);
        self.tick(vm, t, Ghost(before))
    }
}

/// The cluster once the machine at work has data for what it wanted.
pub open spec fn answered_data(c: ClusterV, d: Result<DataV, Seq<char>>) -> ClusterV {
    let s = c.vms[c.at as int].1;
    match d {
        Ok(d) => given(c, loaded(s.h, d).0, loaded(s.h, d).1),
        Err(m) => given(c, s.h, Err(m)),
    }
}

/// The cluster once at most `fuel` steps are done, up to one that leaves
/// something to be answered, or nothing.
pub open spec fn pumped(f: Seq<FactV>, c: ClusterV, fuel: nat) -> (ClusterV, ProgressV)
    decreases fuel,
{
    if fuel == 0 {
        (c, ProgressV::More)
    } else {
        let (d, p) = cluster_step(f, c);
        if p is More {
            pumped(f, d, (fuel - 1) as nat)
        } else {
            (d, p)
        }
    }
}

/// The machine with that address: the server, or a browser.
pub open spec fn machine_place(vms: Seq<(ProgramV, VmV)>, addr: Seq<char>) -> int {
    if addr == "server"@ {
        0
    } else {
        browser_place(vms, addr, 1)
    }
}

/// The cells once data are loaded one by one, and their values.
pub open spec fn loaded_all(h: Seq<CellV>, ds: Seq<DataV>, n: int) -> (
    Seq<CellV>,
    Result<Seq<Value>, Seq<char>>,
)
    decreases n,
{
    if n <= 0 || n > ds.len() {
        (h, Ok(Seq::empty()))
    } else {
        let (g, r) = loaded_all(h, ds, n - 1);
        match r {
            Err(m) => (g, Err(m)),
            Ok(vs) => {
                let (k, s) = loaded(g, ds[n - 1]);
                match s {
                    Ok(v) => (k, Ok(vs.push(v))),
                    Err(m) => (k, Err(m)),
                }
            },
        }
    }
}

proof fn lemma_loaded_all_err(h: Seq<CellV>, ds: Seq<DataV>, i: int, n: int)
    requires
        0 <= i <= n <= ds.len(),
        loaded_all(h, ds, i).1 is Err,
    ensures
        loaded_all(h, ds, n) == loaded_all(h, ds, i),
    decreases n,
{
    if i < n {
        lemma_loaded_all_err(h, ds, i, n - 1);
    }
}

fn load_all(vm: &mut Vm, ds: &Vec<Data>) -> (r: Result<Vec<Value>, String>)
    requires
        old(vm).wf(),
    ensures
        crate::rt::keeps(*old(vm), *final(vm)),
        ({
            let (h, s) = loaded_all(old(vm)@.h, ds@.map_values(|d: Data| d@), ds@.len() as int);
            &&& final(vm)@ == (VmV { h, ..old(vm)@ })
            &&& match (r, s) {
                (Ok(x), Ok(y)) => x@ == y,
                (Err(x), Err(y)) => x@ == y,
                _ => false,
            }
        }),
{
    let ghost dv = ds@.map_values(|d: Data| d@);
    let ghost s0 = vm@;
    let mut out: Vec<Value> = Vec::new();
    let mut i: usize = 0;
    assert(out@ =~= Seq::<Value>::empty());
    while i < ds.len()
        invariant
            i <= ds@.len(),
            dv == ds@.map_values(|d: Data| d@),
            s0 == old(vm)@,
            crate::rt::keeps(*old(vm), *vm),
            vm@ == (VmV { h: loaded_all(s0.h, dv, i as int).0, ..s0 }),
            loaded_all(s0.h, dv, i as int).1 == Ok::<Seq<Value>, Seq<char>>(out@),
        decreases ds@.len() - i,
    {
        assert(dv[i as int] == ds@[i as int]@);
        match vm.load(&ds[i]) {
            Ok(v) => {
                out.push(v);
            },
            Err(m) => {
                proof {
                    lemma_loaded_all_err(s0.h, dv, i + 1, ds@.len() as int);
                }
                return Err(m);
            },
        }
        i = i + 1;
    }
    Ok(out)
}

impl Cluster {
    fn browser_at(&self, addr: &str) -> (i: usize)
        requires
            self.wf(),
        ensures
            i == browser_place(self@.vms, addr@, 1),
            1 <= i <= self.vms@.len(),
    {
        let ghost vs = self@.vms;
        let mut i: usize = 1;
        while i < self.vms.len() && !text_eq(self.vms[i].side.addr(), addr)
            invariant
                1 <= i <= self.vms@.len(),
                vs == vms_v(self.vms@),
                browser_place(vs, addr@, 1) == browser_place(vs, addr@, i as int),
            decreases self.vms@.len() - i,
        {
            assert(vs[i as int].1 == self.vms@[i as int]@);
            i = i + 1;
        }
        if i < self.vms.len() {
            assert(vs[i as int].1 == self.vms@[i as int]@);
        }
        i
    }

    fn place_in_order(&self, order: &Vec<usize>, k: usize) -> (i: usize)
        requires
            k < self.vms@.len(),
            forall|j: int| 0 <= j < order@.len() ==> (#[trigger] order@[j]) < self.vms@.len(),
        ensures
            i == order_place(self@.vms, order@, k as int, 0),
            i <= order@.len(),
    {
        let ghost vs = self@.vms;
        let mut i: usize = 0;
        assert(vs[k as int].1 == self.vms@[k as int]@);
        while i < order.len() && !text_lt(
            self.vms[k].side.addr(),
            self.vms[order[i]].side.addr(),
        )
            invariant
                i <= order@.len(),
                k < self.vms@.len(),
                vs == vms_v(self.vms@),
                vs[k as int].1 == self.vms@[k as int]@,
                forall|j: int| 0 <= j < order@.len() ==> (#[trigger] order@[j]) < self.vms@.len(),
                order_place(vs, order@, k as int, 0) == order_place(
                    vs,
                    order@,
                    k as int,
                    i as int,
                ),
            decreases order@.len() - i,
        {
            assert(vs[order@[i as int] as int].1 == self.vms@[order@[i as int] as int]@);
            i = i + 1;
        }
        if i < order.len() {
            assert(vs[order@[i as int] as int].1 == self.vms@[order@[i as int] as int]@);
        }
        i
    }

    fn in_order(&self) -> (r: Vec<usize>)
        requires
            self.wf(),
        ensures
            r@ == browsers_in_order(self@.vms, self@.vms.len() as int),
            forall|j: int| 0 <= j < r@.len() ==> (#[trigger] r@[j]) < self.vms@.len(),
    {
        let mut out: Vec<usize> = Vec::new();
        let mut n: usize = 1;
        assert(out@ =~= Seq::<usize>::empty());
        while n < self.vms.len()
            invariant
                1 <= n <= self.vms@.len(),
                self@.vms.len() == self.vms@.len(),
                out@ == browsers_in_order(self@.vms, n as int),
                forall|j: int| 0 <= j < out@.len() ==> (#[trigger] out@[j]) < n,
            decreases self.vms@.len() - n,
        {
            let ghost before = out@;
            let i: usize = self.place_in_order(&out, n);
            out.insert(i, n);
            assert forall|j: int| 0 <= j < out@.len() implies (#[trigger] out@[j]) < n + 1 by {
                if j < i {
                    assert(out@[j] == before[j]);
                } else if j > i {
                    assert(out@[j] == before[j - 1]);
                }
            }
            n = n + 1;
        }
        out
    }

    fn take_packet(&mut self) -> (b: Vec<u8>)
        requires
            old(self).wf(),
            old(self).shared.queue@.len() > 0,
        ensures
            final(self).wf(),
            final(self).vms == old(self).vms,
            final(self)@ == dequeued(old(self)@),
            b@ == old(self)@.shared.queue[0],
    {
        let ghost before = self.shared.queue@;
        let b: Vec<u8> = self.shared.queue.remove(0);
        assert(queue_v(self.shared.queue@) =~= queue_v(before).skip(1));
        assert(queue_v(before)[0] == b@);
        b
    }

    fn send_reply(&mut self, floats: &FloatTable, d: Data)
        requires
            old(self).wf(),
        ensures
            final(self).wf(),
            final(self)@ == (ClusterV {
                shared: effect_sent(floats@, old(self)@.shared, d@),
                ..old(self)@
            }),
    {
        let mut line: String = "        ~ wire @effects -> server   reply value=".to_owned();
        let mut heap: Heap = Heap::new();
        assert(heap@ =~= Seq::<CellV>::empty());
        match from_cbor(&mut heap, &d) {
            Ok(v) => {
                match heap.show(floats, heap.cells.len(), heap.get_field(v, "value")) {
                    Try::Done(s) => {
                        line.append(s.as_str());
                    },
                    _ => {
                        line.append("?");
                    },
                }
            },
            Err(_) => {
                line.append("?");
            },
        }
        self.shared.emit(line);
        self.shared.post(Ok(d), "!! unencodable effect reply: ");
    }

    fn call_effect(&mut self, floats: &FloatTable, heap: &Heap, pkt: Value) -> (r: Progress)
        requires
            old(self).wf(),
            old(self).shared.queue@.len() > 0,
        ensures
            final(self).wf(),
            (final(self)@, r@) == effect_called(floats@, old(self)@, heap@, pkt),
    {
        let flow: String = match heap.coerce_str(floats, heap.get_field(pkt, "flow")) {
            Try::Done(s) => s,
            Try::Need(q) => {
                return Progress::Need(q);
            },
            Try::Fail(m) => {
                let b: Vec<u8> = self.take_packet();
                return Progress::Undecodable(m);
            },
        };
        let hop: String = match heap.as_str(heap.get_field(pkt, "hop")) {
            Some(s) => s.to_owned(),
            None => {
                let none: String = String::new();
                assert(none@ =~= Seq::<char>::empty());
                none
            },
        };
        let vars: Value = heap.get_field(pkt, "vars");
        match simulate(&mut self.fx, heap, floats, flow.as_str(), hop.as_str(), vars) {
            Try::Need(q) => Progress::Need(q),
            Try::Fail(m) => {
                let b: Vec<u8> = self.take_packet();
                Progress::Undecodable(m)
            },
            Try::Done(e) => {
                let b: Vec<u8> = self.take_packet();
                match e {
                    Effect::Wait => {},
                    Effect::Bash { flow, cmd, dir } => {
                        self.bash = Some(Command { flow, cmd, dir });
                    },
                    Effect::Reply(d) => {
                        self.send_reply(floats, d);
                    },
                }
                Progress::More
            },
        }
    }

    fn hand_to(&mut self, to: Vec<usize>)
        requires
            old(self).wf(),
            old(self).shared.queue@.len() > 0,
            forall|j: int| 0 <= j < to@.len() ==> (#[trigger] to@[j]) < old(self).vms@.len(),
        ensures
            final(self).wf(),
            final(self)@ == (ClusterV {
                parcel: old(self)@.shared.queue[0],
                deliver: to@,
                ..dequeued(old(self)@)
            }),
    {
        let b: Vec<u8> = self.take_packet();
        self.parcel = b;
        self.deliver = to;
    }

    fn route_next(&mut self, floats: &FloatTable) -> (r: Progress)
        requires
            old(self).wf(),
            old(self).shared.queue@.len() > 0,
        ensures
            final(self).wf(),
            (final(self)@, r@) == routed(floats@, old(self)@),
    {
        assert(self@.shared.queue[0] == self.shared.queue@[0]@);
        let mut heap: Heap = Heap::new();
        assert(heap@ =~= Seq::<CellV>::empty());
        let pkt: Value = match decode_value(&mut heap, self.shared.queue[0].as_slice()) {
            Ok(v) => v,
            Err(m) => {
                let b: Vec<u8> = self.take_packet();
                return Progress::Undecodable(m);
            },
        };
        let to: String = match heap.coerce_str(floats, heap.get_field(pkt, "to")) {
            Try::Done(s) => s,
            Try::Need(q) => {
                return Progress::Need(q);
            },
            Try::Fail(m) => {
                let b: Vec<u8> = self.take_packet();
                return Progress::Undecodable(m);
            },
        };
        if text_eq(to.as_str(), "@effects") {
            return self.call_effect(floats, &heap, pkt);
        }
        if text_eq(to.as_str(), "server") {
            let mut one: Vec<usize> = Vec::new();
            one.push(0);
            assert(one@ =~= seq![0usize]);
            self.hand_to(one);
            return Progress::More;
        }
        if text_eq(to.as_str(), "browsers") {
            let all: Vec<usize> = self.in_order();
            self.hand_to(all);
            return Progress::More;
        }
        let i: usize = self.browser_at(to.as_str());
        if i < self.vms.len() {
            let mut one: Vec<usize> = Vec::new();
            one.push(i);
            assert(one@ =~= seq![i]);
            self.hand_to(one);
            Progress::More
        } else {
            let b: Vec<u8> = self.take_packet();
            Progress::Lost(to)
        }
    }

    fn restore(&mut self, i: usize, vm: Vm, before: Ghost<Seq<Vm>>)
        requires
            i < before@.len(),
            old(self).vms@ == before@.remove(i as int),
            old(self).at < before@.len(),
            forall|j: int| 0 <= j < before@.len() ==> (#[trigger] before@[j]).wf(),
            forall|j: int|
                0 <= j < old(self).deliver@.len() ==> (#[trigger] old(self).deliver@[j])
                    < before@.len(),
            forall|j: int|
                0 <= j < old(self).waiting@.len() ==> (#[trigger] old(self).waiting@[j]).0
                    < before@.len(),
            vm.wf(),
            vm.prog@ == before@[i as int].prog@,
        ensures
            final(self).wf(),
            final(self)@ == with_vm(
                (ClusterV { vms: vms_v(before@), ..old(self)@ }),
                i as int,
                vm@,
            ),
            final(self).vms@.len() == before@.len(),
    {
        self.put_back(i, vm);
        assert(vms_v(self.vms@) =~= vms_v(before@).update(
            i as int,
            (before@[i as int].prog@, vm@),
        ));
        assert forall|j: int| 0 <= j < self.vms@.len() implies (#[trigger] self.vms@[j]).wf() by {
            if j != i {
                assert(self.vms@[j] == before@[j]);
            }
        }
    }

    fn deliver_next(&mut self) -> (r: Progress)
        requires
            old(self).wf(),
            old(self).deliver@.len() > 0,
        ensures
            final(self).wf(),
            (final(self)@, r@) == delivered(old(self)@),
    {
        let ghost todo = self.deliver@;
        let i: usize = self.deliver.remove(0);
        assert(self.deliver@ =~= todo.skip(1));
        assert(todo[0] < self.vms@.len());
        assert forall|j: int| 0 <= j < self.deliver@.len() implies (#[trigger] self.deliver@[j])
            < self.vms@.len() by {
            assert(self.deliver@[j] == todo[j + 1]);
        }
        let ghost before = self.vms@;
        let mut vm: Vm = self.vms.remove(i);
        let r: Result<Value, String> = decode_value(
            &mut vm.machine.heap,
            self.parcel.as_slice(),
        );
        match r {
            Ok(pkt) => {
                vm.receive(pkt);
                self.restore(i, vm, Ghost(before));
                self.at = i;
                self.busy = true;
                Progress::More
            },
            Err(m) => {
                self.restore(i, vm, Ghost(before));
                Progress::Undecodable(m)
            },
        }
    }

    fn begin(&mut self, i: usize, call: Call)
        requires
            old(self).wf(),
            i < old(self).vms@.len(),
        ensures
            final(self).wf(),
            final(self)@ == begun(old(self)@, i as int, call@),
    {
        let ghost before = self.vms@;
        let mut vm: Vm = self.vms.remove(i);
        match call {
            Call::Entry { name, args } => {
                vm.fire(name.as_str(), args);
            },
            Call::Handler { id, ev } => {
                vm.fire_handler(id, ev);
            },
            Call::Sync { name, args } => {
                vm.call_sync(name.as_str(), args);
            },
        }
        self.restore(i, vm, Ghost(before));
        self.at = i;
        self.busy = true;
    }

    fn begin_next(&mut self) -> (r: Progress)
        requires
            old(self).wf(),
            old(self).waiting@.len() > 0,
        ensures
            final(self).wf(),
            r is More,
            final(self)@ == ({
                let c = old(self)@;
                let (i, k) = c.waiting[0];
                begun(ClusterV { waiting: c.waiting.skip(1), ..c }, i as int, k)
            }),
    {
        let ghost before = self.waiting@;
        let (i, call): (usize, Call) = self.waiting.remove(0);
        assert(calls_v(self.waiting@) =~= calls_v(before).skip(1));
        assert(before[0].0 < self.vms@.len());
        assert forall|j: int| 0 <= j < self.waiting@.len() implies (#[trigger] self.waiting@[j]).0
            < self.vms@.len() by {
            assert(self.waiting@[j] == before[j + 1]);
        }
        self.begin(i, call);
        Progress::More
    }

    fn ask(&mut self, i: usize, call: Call)
        requires
            old(self).wf(),
            i < old(self).vms@.len(),
        ensures
            final(self).wf(),
            final(self)@ == asked(old(self)@, i as int, call@),
    {
        assert(self@.todo.len() == self.todo@.len());
        if self.busy || self.todo.len() > 0 || self.want.is_some() || self.waiting.len() > 0 {
            let ghost before = self.waiting@;
            let ghost k = call@;
            self.waiting.push((i, call));
            assert(calls_v(self.waiting@) =~= calls_v(before).push((i, k)));
            assert forall|j: int| 0 <= j < self.waiting@.len() implies (
            #[trigger] self.waiting@[j]).0 < self.vms@.len() by {
                if j < before.len() {
                    assert(self.waiting@[j] == before[j]);
                }
            }
        } else {
            self.begin(i, call);
        }
    }

    fn want_next(&mut self) -> (r: Progress)
        requires
            old(self).wf(),
            old(self).want is Some,
        ensures
            final(self).wf(),
            (final(self)@, r@) == wanted(old(self)@, old(self)@.want->Some_0),
    {
        match self.want.take() {
            None => Progress::More,
            Some(Want::Fact(q)) => Progress::Need(q),
            Some(Want::DomGet(sel)) => {
                let ghost vs = self@.vms;
                assert(vs[self.at as int].1 == self.vms@[self.at as int]@);
                let text: String = self.shared.dom(
                    self.vms[self.at].side.addr(),
                    sel.as_str(),
                );
                self.give(Ok(Data::Text(text)));
                Progress::More
            },
            Some(Want::Store { id, args }) => {
                self.want = Some(Want::Store { id, args });
                Progress::Store
            },
            Some(Want::Scores { ids, votes }) => {
                self.want = Some(Want::Scores { ids, votes });
                Progress::Scores
            },
        }
    }

    /// Does the next thing.
    pub fn step(&mut self, floats: &FloatTable) -> (r: Progress)
        requires
            old(self).wf(),
        ensures
            final(self).wf(),
            (final(self)@, r@) == cluster_step(floats@, old(self)@),
    {
        if self.bash.is_some() {
            return Progress::Bash;
        }
        assert(self@.todo.len() == self.todo@.len());
        if self.todo.len() > 0 {
            return self.perform_next(floats);
        }
        if self.want.is_some() {
            return self.want_next();
        }
        if self.busy {
            return self.step_vm(floats);
        }
        assert(self@.waiting.len() == self.waiting@.len());
        if self.waiting.len() > 0 {
            return self.begin_next();
        }
        if self.deliver.len() > 0 {
            return self.deliver_next();
        }
        assert(self@.shared.queue.len() == self.shared.queue@.len());
        if self.shared.queue.len() > 0 {
            return self.route_next(floats);
        }
        Progress::Idle
    }

    /// Answers the command that a flow waits for.
    pub fn answer_bash(&mut self, floats: &FloatTable, value: Data)
        requires
            old(self).wf(),
        ensures
            final(self).wf(),
            final(self)@ == (match old(self)@.bash {
                None => old(self)@,
                Some(b) => ClusterV {
                    bash: None,
                    shared: effect_sent(
                        floats@,
                        old(self)@.shared,
                        reply_data(b.flow, value@),
                    ),
                    ..old(self)@
                },
            }),
    {
        if let Some(b) = self.bash.take() {
            let d: Data = effect_reply(b.flow.as_str(), value);
            self.send_reply(floats, d);
        }
    }

    fn machine_at(&self, addr: &str) -> (i: usize)
        requires
            self.wf(),
        ensures
            i == machine_place(self@.vms, addr@),
    {
        if text_eq(addr, "server") {
            0
        } else {
            self.browser_at(addr)
        }
    }

    /// Does what there is to do, in at most `fuel` steps: until something is to
    /// be answered or nothing is left.
    pub fn pump(&mut self, floats: &FloatTable, fuel: u64) -> (r: Progress)
        requires
            old(self).wf(),
        ensures
            final(self).wf(),
            (final(self)@, r@) == pumped(floats@, old(self)@, fuel as nat),
    {
        let mut left: u64 = fuel;
        while left > 0
            invariant
                self.wf(),
                left <= fuel,
                pumped(floats@, old(self)@, fuel as nat) == pumped(floats@, self@, left as nat),
            decreases left,
        {
            left = left - 1;
            match self.step(floats) {
                Progress::More => {},
                other => {
                    return other;
                },
            }
        }
        Progress::More
    }

    /// Simulates an event: the function `entry` is to run as a flow on one
    /// machine, with arguments, once no machine is at work. Says whether there
    /// is one at that address; arguments that are no values fail it.
    pub fn fire_args(&mut self, addr: &str, entry: &str, args: &Vec<Data>) -> (r: Result<
        bool,
        String,
    >)
        requires
            old(self).wf(),
        ensures
            final(self).wf(),
            ({
                let c = old(self)@;
                let i = machine_place(c.vms, addr@);
                let s = c.vms[i].1;
                let (h, vs) = loaded_all(s.h, args@.map_values(|d: Data| d@), args@.len() as int);
                if i >= c.vms.len() {
                    r == Ok::<bool, String>(false) && final(self)@ == c
                } else {
                    match (r, vs) {
                        (Ok(b), Ok(vs)) => b && final(self)@ == asked(
                            with_vm(c, i, VmV { h, ..s }),
                            i,
                            CallV::Entry { name: entry@, args: vs },
                        ),
                        (Err(x), Err(y)) => x@ == y && final(self)@ == with_vm(
                            c,
                            i,
                            VmV { h, ..s },
                        ),
                        _ => false,
                    }
                }
            }),
    {
        let i: usize = self.machine_at(addr);
        if i >= self.vms.len() {
            return Ok(false);
        }
        let ghost before = self.vms@;
        let mut vm: Vm = self.vms.remove(i);
        match load_all(&mut vm, args) {
            Err(m) => {
                self.restore(i, vm, Ghost(before));
                Err(m)
            },
            Ok(vs) => {
                self.restore(i, vm, Ghost(before));
                self.ask(i, Call::Entry { name: entry.to_owned(), args: vs });
                Ok(true)
            },
        }
    }

    /// Simulates an event without arguments. Says whether there is a machine at
    /// that address.
    pub fn fire(&mut self, addr: &str, entry: &str) -> (r: bool)
        requires
            old(self).wf(),
        ensures
            final(self).wf(),
            ({
                let c = old(self)@;
                let i = machine_place(c.vms, addr@);
                &&& r == (i < c.vms.len())
                &&& final(self)@ == if r {
                    asked(c, i, CallV::Entry { name: entry@, args: Seq::empty() })
                } else {
                    c
                }
            }),
    {
        proof {
            let vs = self@.vms;
            lemma_browser_place(vs, addr@, 1);
            assert forall|i: int| 0 <= i < vs.len() implies #[trigger] vs.update(i, vs[i]) == vs by {
                assert(vs.update(i, vs[i]) =~= vs);
            }
        }
        let none: Vec<Data> = Vec::new();
        match self.fire_args(addr, entry, &none) {
            Ok(b) => b,
            Err(_) => false,
        }
    }

    /// The handler `id` of a browser's page is to run, with an event. Says
    /// whether there is a browser at that address.
    pub fn fire_handler_ev(&mut self, addr: &str, id: i64, ev: &Data) -> (r: bool)
        requires
            old(self).wf(),
        ensures
            final(self).wf(),
            ({
                let c = old(self)@;
                let i = browser_place(c.vms, addr@, 1);
                let s = c.vms[i].1;
                let (h, e) = loaded(s.h, ev@);
                &&& r == (i < c.vms.len())
                &&& final(self)@ == if r {
                    asked(
                        with_vm(c, i, VmV { h, ..s }),
                        i,
                        CallV::Handler {
                            id,
                            ev: match e {
                                Ok(v) => v,
                                Err(_) => Value::Nil,
                            },
                        },
                    )
                } else {
                    c
                }
            }),
    {
        let i: usize = self.browser_at(addr);
        if i >= self.vms.len() {
            return false;
        }
        let ghost before = self.vms@;
        let mut vm: Vm = self.vms.remove(i);
        let v: Value = match vm.load(ev) {
            Ok(v) => v,
            Err(_) => Value::Nil,
        };
        self.restore(i, vm, Ghost(before));
        self.ask(i, Call::Handler { id, ev: v });
        true
    }

    /// The handler `id` of a browser's page is to run. Says whether there is a
    /// browser at that address.
    pub fn fire_handler(&mut self, addr: &str, id: i64) -> (r: bool)
        requires
            old(self).wf(),
        ensures
            final(self).wf(),
            ({
                let c = old(self)@;
                let i = browser_place(c.vms, addr@, 1);
                &&& r == (i < c.vms.len())
                &&& final(self)@ == if r {
                    asked(c, i, CallV::Handler { id, ev: Value::Nil })
                } else {
                    c
                }
            }),
    {
        proof {
            let vs = self@.vms;
            lemma_browser_place(vs, addr@, 1);
            assert forall|i: int| 0 <= i < vs.len() implies #[trigger] vs.update(i, vs[i]) == vs by {
                assert(vs.update(i, vs[i]) =~= vs);
            }
        }
        self.fire_handler_ev(addr, id, &Data::Null)
    }

    /// The function `name` is to run on the server, for its value, once no
    /// machine is at work; the server's machine holds the value in the end.
    /// Arguments that are no values fail it.
    pub fn call_server(&mut self, name: &str, args: &Vec<Data>) -> (r: Result<(), String>)
        requires
            old(self).wf(),
        ensures
            final(self).wf(),
            ({
                let c = old(self)@;
                let s = c.vms[0].1;
                let (h, vs) = loaded_all(
                    s.h,
                    args@.map_values(|d: Data| d@),
                    args@.len() as int,
                );
                match (r, vs) {
                    (Ok(_), Ok(vs)) => final(self)@ == asked(
                        with_vm(c, 0, VmV { h, result: None, ..s }),
                        0,
                        CallV::Sync { name: name@, args: vs },
                    ),
                    (Err(x), Err(y)) => x@ == y && final(self)@ == with_vm(c, 0, VmV { h, ..s }),
                    _ => false,
                }
            }),
    {
        let ghost before = self.vms@;
        let mut vm: Vm = self.vms.remove(0);
        match load_all(&mut vm, args) {
            Err(m) => {
                self.restore(0, vm, Ghost(before));
                Err(m)
            },
            Ok(vs) => {
                vm.result = None;
                self.restore(0, vm, Ghost(before));
                self.ask(0, Call::Sync { name: name.to_owned(), args: vs });
                Ok(())
            },
        }
    }

    /// What the call on the server came to, if it has ended. A value that is no
    /// data has no result here.
    pub fn server_result(&self) -> (r: Option<Result<Data, String>>)
        requires
            self.wf(),
        ensures
            match (r, self@.vms[0].1.result) {
                (None, None) => true,
                (Some(x), Some(Ok(v))) => crate::wire::same_result(
                    x,
                    crate::wire::data_of(self@.vms[0].1.h, self@.vms[0].1.h.len(), v),
                ),
                (Some(Err(x)), Some(Err(y))) => x@ == y,
                _ => false,
            },
    {
        assert(self@.vms[0].1 == self.vms@[0]@);
        let vm: &Vm = &self.vms[0];
        match &vm.result {
            None => None,
            Some(Err(m)) => Some(Err(m.clone())),
            Some(Ok(v)) => Some(vm.machine.heap.to_cbor(*v)),
        }
    }

    /// No flow of any machine waits for a reply; else which machine leaked one.
    pub fn quiescent(&self) -> (r: Result<(), String>)
        requires
            self.wf(),
        ensures
            match (r, leak_of(self@.vms, 0)) {
                (Ok(_), None) => true,
                (Err(m), Some(w)) => m@ == w,
                _ => false,
            },
    {
        let ghost vs = self@.vms;
        let mut i: usize = 0;
        while i < self.vms.len()
            invariant
                i <= self.vms@.len(),
                vs == vms_v(self.vms@),
                leak_of(vs, 0) == leak_of(vs, i as int),
            decreases self.vms@.len() - i,
        {
            assert(vs[i as int].1 == self.vms@[i as int]@);
            match self.vms[i].quiescent() {
                Ok(_) => {},
                Err(e) => {
                    let mut m: String = if i == 0 {
                        "server VM".to_owned()
                    } else {
                        let mut m: String = "VM ".to_owned();
                        m.append(self.vms[i].side.addr());
                        m
                    };
                    m.append(" leaked: ");
                    m.append(e.as_str());
                    return Err(m);
                },
            }
            i = i + 1;
        }
        Ok(())
    }

    /// The transcript: packets, prints and page writes, in order.
    pub fn log(&self) -> (r: Vec<String>)
        ensures
            texts(r@) == self@.shared.log,
    {
        crate::text::copy_texts(&self.shared.log)
    }

    /// The contents of an element of a browser's page.
    pub fn dom(&self, addr: &str, sel: &str) -> (r: String)
        ensures
            r@ == dom_of(self@.shared.doms, addr@, sel@),
    {
        self.shared.dom(addr, sel)
    }

    /// Sets an element of a browser's page.
    pub fn set_dom(&mut self, addr: &str, sel: &str, value: &str)
        requires
            old(self).wf(),
        ensures
            final(self).wf(),
            final(self)@ == (ClusterV {
                shared: SharedV {
                    doms: crate::sim::with_dom(old(self)@.shared.doms, addr@, sel@, value@),
                    ..old(self)@.shared
                },
                ..old(self)@
            }),
    {
        self.shared.set_dom(addr, sel, value)
    }
}

/// What the first machine from `i` on that leaked a flow is told of, if one did.
pub open spec fn leak_of(vms: Seq<(ProgramV, VmV)>, i: int) -> Option<Seq<char>>
    decreases vms.len() - i,
{
    if i < 0 || i >= vms.len() {
        None
    } else if vms[i].1.stacks.len() > 0 {
        Some(
            (if i == 0 {
                "server VM"@
            } else {
                "VM "@ + addr_at(vms, i)
            }) + " leaked: "@ + ("suspended flow: "@ + vms[i].1.stacks[0].0),
        )
    } else {
        leak_of(vms, i + 1)
    }
}

/// What a machine is asked to do changes nothing of what is under way: the work
/// that was there goes on step by step as it would have, and what was asked
/// still waits at the end.
pub proof fn law_work_goes_before_what_waits(f: Seq<FactV>, c: ClusterV, i: usize, k: CallV)
    requires
        at_work(c),
    ensures
        ({
            let (d, p) = cluster_step(f, c);
            cluster_step(f, asked(c, i as int, k)) == (
                ClusterV { waiting: d.waiting.push((i, k)), ..d },
                p,
            )
        }),
{
    if c.waiting.len() > 0 {
        assert(c.waiting.push((i, k)).skip(1) =~= c.waiting.skip(1).push((i, k)));
    }
}

/// The machines of `order` come in the order of their addresses.
pub open spec fn by_address(vms: Seq<(ProgramV, VmV)>, order: Seq<usize>) -> bool {
    forall|i: int, j: int|
        0 <= i < j < order.len() ==> !text_before(
            addr_at(vms, #[trigger] order[j] as int),
            addr_at(vms, #[trigger] order[i] as int),
        )
}

proof fn lemma_order_place(vms: Seq<(ProgramV, VmV)>, order: Seq<usize>, k: int, i: int)
    requires
        0 <= i <= order.len(),
    ensures
        i <= order_place(vms, order, k, i) <= order.len(),
        forall|j: int|
            i <= j < order_place(vms, order, k, i) ==> !text_before(
                addr_at(vms, k),
                addr_at(vms, #[trigger] order[j] as int),
            ),
        order_place(vms, order, k, i) < order.len() ==> text_before(
            addr_at(vms, k),
            addr_at(vms, order[order_place(vms, order, k, i)] as int),
        ),
    decreases order.len() - i,
{
    if i < order.len() && !text_before(addr_at(vms, k), addr_at(vms, order[i] as int)) {
        lemma_order_place(vms, order, k, i + 1);
    }
}

/// A packet for the browsers goes to every one of them, once, in the order of
/// their addresses, and to nobody else.
pub proof fn law_broadcast_reaches_all(vms: Seq<(ProgramV, VmV)>, n: int)
    requires
        1 <= n <= vms.len() <= usize::MAX,
    ensures
        browsers_in_order(vms, n).len() == n - 1,
        forall|k: int| 1 <= k < n ==> #[trigger] browsers_in_order(vms, n).contains(k as usize),
        forall|i: int|
            0 <= i < browsers_in_order(vms, n).len() ==> 1 <= #[trigger] browsers_in_order(
                vms,
                n,
            )[i] < n,
        by_address(vms, browsers_in_order(vms, n)),
    decreases n,
{
    if n > 1 {
        law_broadcast_reaches_all(vms, n - 1);
        let before = browsers_in_order(vms, n - 1);
        let p = order_place(vms, before, n - 1, 0);
        lemma_order_place(vms, before, n - 1, 0);
        let now = browsers_in_order(vms, n);
        assert(now[p] == n - 1);
        assert forall|k: int| 1 <= k < n implies #[trigger] now.contains(k as usize) by {
            if k < n - 1 {
                assert(before.contains(k as usize));
                let i = choose|i: int| 0 <= i < before.len() && before[i] == k as usize;
                assert(now[if i < p { i } else { i + 1 }] == k as usize);
            }
        }
        assert forall|i: int| 0 <= i < now.len() implies 1 <= #[trigger] now[i] < n by {
            if i < p {
                assert(now[i] == before[i]);
            } else if i > p {
                assert(now[i] == before[i - 1]);
            }
        }
        assert forall|i: int, j: int| 0 <= i < j < now.len() implies !text_before(
            addr_at(vms, #[trigger] now[j] as int),
            addr_at(vms, #[trigger] now[i] as int),
        ) by {
            let a = addr_at(vms, n - 1);
            if i < p {
                assert(now[i] == before[i]);
            } else if i > p {
                assert(now[i] == before[i - 1]);
            }
            if j < p {
                assert(now[j] == before[j]);
            } else if j > p {
                assert(now[j] == before[j - 1]);
            }
            if i == p && p < before.len() {
                let x = addr_at(vms, now[j] as int);
                if text_before(x, a) {
                    crate::text::lemma_before_transitive(x, a, addr_at(vms, before[p] as int));
                    assert(before[j - 1] == now[j]);
                    if j - 1 > p {
                        assert(!text_before(
                            addr_at(vms, before[j - 1] as int),
                            addr_at(vms, before[p] as int),
                        ));
                    } else {
                        crate::text::lemma_before_irreflexive(x);
                    }
                }
            }
        }
    }
}

} // verus!
