//! The server's side of its sessions: who is connected, what becomes of what
//! comes in, and where what goes out is to go.

use crate::data::{cbor_bytes, Data};
use crate::effects::{handled, orders_v, Effects, EffectsV, Order, OrderV};
use crate::float::{FactV, FloatTable};
use crate::flow::{fired, hooked, packet_data, with_job, JobV, PacketV, VmV};
use crate::interp::get_global;
use crate::machine::global;
use crate::rt::{encode_packet, keeps, Packet, Vm};
use crate::serve::{
    enter, entered, frame, hello, hello_of, route, routed, sessions_v, Session, SessionV,
};
use crate::sim::target_of;
use crate::text::text_eq;
use crate::value::{coerced, text_of, CellV, Heap, Try, TryV, Value};
use crate::wire::loaded;
use vstd::prelude::*;
use vstd::string::*;

verus! {

/// A server with its sessions. An event gives its machine a job, which is run to
/// its end before the next event comes.
pub struct Hub {
    pub vm: Vm,
    pub sessions: Vec<Session>,
    pub effects: Effects,
}

/// The model of a server with its sessions.
pub struct HubV {
    pub vm: VmV,
    pub sessions: Seq<SessionV>,
    pub effects: EffectsV,
}

impl View for Hub {
    type V = HubV;

    open spec fn view(&self) -> HubV {
        HubV {
            vm: self.vm@,
            sessions: sessions_v(self.sessions@),
            effects: self.effects@,
        }
    }
}

/// The place of a session from `i` on.
pub open spec fn session_place(ss: Seq<SessionV>, sid: Seq<char>, i: int) -> int
    decreases ss.len() - i,
{
    if i < 0 || i >= ss.len() || ss[i].sid == sid {
        i
    } else {
        session_place(ss, sid, i + 1)
    }
}

/// The user of a session; the empty one where there is no such session.
pub open spec fn user_of(ss: Seq<SessionV>, sid: Seq<char>) -> Seq<char> {
    let i = session_place(ss, sid, 0);
    if i < ss.len() {
        ss[i].user
    } else {
        Seq::empty()
    }
}

/// The sessions once one is there: one of that name is replaced.
pub open spec fn with_session(ss: Seq<SessionV>, s: SessionV) -> Seq<SessionV> {
    let i = session_place(ss, s.sid, 0);
    if i < ss.len() {
        ss.update(i, s)
    } else {
        ss.push(s)
    }
}

/// The server once a session is connected.
pub open spec fn connected(h: HubV, sid: Seq<char>, user: Seq<char>) -> HubV {
    HubV {
        vm: hooked(h.vm, "on_connect"@, sid, user),
        sessions: with_session(h.sessions, SessionV { sid, user }),
        ..h
    }
}

/// The server once a session is gone. One that was not there changes nothing.
pub open spec fn parted(h: HubV, sid: Seq<char>) -> HubV {
    let i = session_place(h.sessions, sid, 0);
    if i < h.sessions.len() {
        HubV {
            vm: hooked(h.vm, "on_disconnect"@, sid, h.sessions[i].user),
            sessions: h.sessions.remove(i),
            ..h
        }
    } else {
        h
    }
}

/// The server once it is to be reset: the program says what that is.
pub open spec fn reset_of(h: HubV) -> HubV {
    if global(h.vm.g, "on_reset"@) is Nil {
        h
    } else {
        HubV { vm: fired(h.vm, "on_reset"@, Seq::empty()), ..h }
    }
}

/// What becomes of a packet of the server's machine.
pub enum Sent {
    /// It calls for an effect.
    Orders(Vec<Order>),
    /// The frame goes to the sessions at these places.
    Frames { to: Vec<usize>, bytes: Vec<u8> },
    /// It is for nobody.
    NoTarget,
    /// It is no data.
    Unencodable(String),
}

/// The model of what becomes of a packet.
pub enum SentV {
    Orders(Seq<OrderV>),
    Frames { to: Seq<usize>, bytes: Seq<u8> },
    NoTarget,
    Unencodable(Seq<char>),
}

impl View for Sent {
    type V = SentV;

    open spec fn view(&self) -> SentV {
        match *self {
            Sent::Orders(os) => SentV::Orders(orders_v(os@)),
            Sent::Frames { to, bytes } => SentV::Frames { to: to@, bytes: bytes@ },
            Sent::NoTarget => SentV::NoTarget,
            Sent::Unencodable(m) => SentV::Unencodable(m@),
        }
    }
}

/// The flow of a packet, and the hop and variables that it calls for.
pub open spec fn called_for(h: Seq<CellV>, f: Seq<FactV>, p: PacketV) -> TryV<
    (Seq<char>, Seq<char>, Value),
> {
    match p {
        PacketV::Call { flow, hop, vars, .. } => TryV::Done((flow, hop, vars)),
        PacketV::Cast { flow, hop, vars, .. } => TryV::Done((flow, hop, vars)),
        PacketV::Reply { flow, .. } => TryV::Done((flow, Seq::empty(), Value::Nil)),
        PacketV::Error { flow, .. } => TryV::Done((flow, Seq::empty(), Value::Nil)),
        PacketV::Refused { said, .. } => match coerced(h, f, said) {
            TryV::Done(flow) => TryV::Done((flow, Seq::empty(), Value::Nil)),
            TryV::Fail(m) => TryV::Fail(m),
            TryV::Need(q) => TryV::Need(q),
        },
    }
}

/// What becomes of a packet of the server's machine, and the effects then.
pub open spec fn dispatched(f: Seq<FactV>, h: HubV, p: PacketV, model: Option<Seq<char>>) -> (
    EffectsV,
    TryV<SentV>,
) {
    match packet_data(h.vm.h, p) {
        Err(m) => (h.effects, TryV::Done(SentV::Unencodable(m))),
        Ok(d) => match text_of(h.vm.h, target_of(p)) {
            None => (h.effects, TryV::Done(SentV::NoTarget)),
            Some(to) => if to == "@effects"@ {
                ordered(f, h, p, model)
            } else {
                (
                    h.effects,
                    TryV::Done(
                        SentV::Frames {
                            to: routed(h.sessions, to, h.sessions.len() as int),
                            bytes: cbor_bytes(d),
                        },
                    ),
                )
            },
        },
    }
}

/// What becomes of a packet that calls for an effect.
pub open spec fn ordered(f: Seq<FactV>, h: HubV, p: PacketV, model: Option<Seq<char>>) -> (
    EffectsV,
    TryV<SentV>,
) {
    match called_for(h.vm.h, f, p) {
        TryV::Fail(m) => (h.effects, TryV::Fail(m)),
        TryV::Need(q) => (h.effects, TryV::Need(q)),
        TryV::Done((flow, hop, vars)) => {
            let (e, r) = handled(h.vm.h, f, h.effects, flow, hop, vars, model);
            (
                e,
                match r {
                    TryV::Done(os) => TryV::Done(SentV::Orders(os)),
                    TryV::Fail(m) => TryV::Fail(m),
                    TryV::Need(q) => TryV::Need(q),
                },
            )
        },
    }
}

/// The outcome is the one that the model says.
pub open spec fn same_sent(r: Try<Sent>, s: TryV<SentV>) -> bool {
    match (r, s) {
        (Try::Done(x), TryV::Done(y)) => x@ == y,
        (Try::Fail(x), TryV::Fail(y)) => x@ == y,
        (Try::Need(x), TryV::Need(y)) => x@ == y,
        _ => false,
    }
}

impl Hub {
    /// The machine can be used.
    pub open spec fn wf(&self) -> bool {
        self.vm.wf()
    }

    /// A server without sessions.
    pub fn new(vm: Vm) -> (r: Hub)
        requires
            vm.wf(),
        ensures
            r.wf(),
            r.vm == vm,
            r@ == (HubV {
                vm: vm@,
                sessions: Seq::empty(),
                effects: EffectsV { streams: Seq::empty(), next_id: 0 },
            }),
    {
        let h = Hub { vm, sessions: Vec::new(), effects: Effects::new() };
        assert(h@.sessions =~= Seq::<SessionV>::empty());
        h
    }

    /// The place of a session; the number of sessions where there is none of
    /// that name.
    pub fn place(&self, sid: &str) -> (i: usize)
        ensures
            i == session_place(self@.sessions, sid@, 0),
            i <= self.sessions@.len(),
    {
        let ghost ss = self@.sessions;
        let mut i: usize = 0;
        while i < self.sessions.len() && !text_eq(self.sessions[i].sid.as_str(), sid)
            invariant
                i <= self.sessions@.len(),
                ss == sessions_v(self.sessions@),
                session_place(ss, sid@, 0) == session_place(ss, sid@, i as int),
            decreases self.sessions@.len() - i,
        {
            assert(ss[i as int] == self.sessions@[i as int]@);
            i = i + 1;
        }
        if i < self.sessions.len() {
            assert(ss[i as int] == self.sessions@[i as int]@);
        }
        i
    }

    /// A session is connected: what it is told.
    pub fn connect(&mut self, sid: &str, user: &str) -> (r: Data)
        requires
            old(self).wf(),
        ensures
            final(self).wf(),
            keeps(old(self).vm, final(self).vm),
            final(self)@ == connected(old(self)@, sid@, user@),
            r@ == hello_of(sid@, user@),
    {
        let ghost before = self.sessions@;
        let i: usize = self.place(sid);
        let s = Session { sid: sid.to_owned(), user: user.to_owned() };
        if i < self.sessions.len() {
            self.sessions.set(i, s);
            assert(sessions_v(self.sessions@) =~= sessions_v(before).update(i as int, s@));
        } else {
            self.sessions.push(s);
            assert(sessions_v(self.sessions@) =~= sessions_v(before).push(s@));
        }
        self.vm.session_connect(sid, user);
        hello(sid, user)
    }

    /// A packet came in from a session. Who sent it is what is known of the
    /// session, whatever it claims.
    pub fn packet(&mut self, sid: &str, bytes: &[u8]) -> (r: Result<(), String>)
        requires
            old(self).wf(),
        ensures
            final(self).wf(),
            keeps(old(self).vm, final(self).vm),
            ({
                let h = old(self)@;
                let (vm, e) = entered(h.vm, bytes@, sid@, user_of(h.sessions, sid@));
                &&& final(self)@ == (HubV { vm, ..h })
                &&& match (r, e) {
                    (Ok(_), Ok(_)) => true,
                    (Err(x), Err(y)) => x@ == y,
                    _ => false,
                }
            }),
    {
        let i: usize = self.place(sid);
        let user: String = if i < self.sessions.len() {
            assert(self@.sessions[i as int] == self.sessions@[i as int]@);
            self.sessions[i].user.clone()
        } else {
            let none: String = String::new();
            assert(none@ =~= Seq::<char>::empty());
            none
        };
        enter(&mut self.vm, bytes, sid, user.as_str())
    }

    /// A session is gone. Says whether it was there.
    pub fn gone(&mut self, sid: &str) -> (r: bool)
        requires
            old(self).wf(),
        ensures
            final(self).wf(),
            keeps(old(self).vm, final(self).vm),
            final(self)@ == parted(old(self)@, sid@),
            r == (session_place(old(self)@.sessions, sid@, 0) < old(self)@.sessions.len()),
    {
        let ghost before = self.sessions@;
        let i: usize = self.place(sid);
        if i >= self.sessions.len() {
            return false;
        }
        assert(sessions_v(before)[i as int] == before[i as int]@);
        let s: Session = self.sessions.remove(i);
        assert(sessions_v(self.sessions@) =~= sessions_v(before).remove(i as int));
        self.vm.session_disconnect(sid, s.user.as_str());
        true
    }

    /// The program is to reset itself, if it has a hook for that.
    pub fn reset(&mut self)
        requires
            old(self).wf(),
        ensures
            final(self).wf(),
            keeps(old(self).vm, final(self).vm),
            final(self)@ == reset_of(old(self)@),
    {
        let hook: Value = get_global(&self.vm.machine.globals, "on_reset");
        match hook {
            Value::Nil => {},
            _ => {
                let args: Vec<Value> = Vec::new();
                assert(args@ =~= Seq::<Value>::empty());
                self.vm.fire("on_reset", args);
            },
        }
    }

    /// A packet that an effect gave goes to the machine as it is.
    pub fn deliver(&mut self, d: &Data) -> (r: Result<(), String>)
        requires
            old(self).wf(),
        ensures
            final(self).wf(),
            keeps(old(self).vm, final(self).vm),
            ({
                let h = old(self)@;
                let (cells, e) = loaded(h.vm.h, d@);
                let vm = VmV { h: cells, ..h.vm };
                match (r, e) {
                    (Ok(_), Ok(pkt)) => final(self)@ == (HubV {
                        vm: with_job(vm, JobV::Packet(pkt)),
                        ..h
                    }),
                    (Err(x), Err(y)) => x@ == y && final(self)@ == (HubV { vm, ..h }),
                    _ => false,
                }
            }),
    {
        match self.vm.load(d) {
            Ok(pkt) => {
                self.vm.receive(pkt);
                Ok(())
            },
            Err(m) => Err(m),
        }
    }

    fn parts(&self, floats: &FloatTable, p: &Packet) -> (r: Try<(String, String, Value)>)
        ensures
            match (r, called_for(self.vm@.h, floats@, p@)) {
                (Try::Done(x), TryV::Done(y)) => x.0@ == y.0 && x.1@ == y.1 && x.2 == y.2,
                (Try::Fail(x), TryV::Fail(y)) => x@ == y,
                (Try::Need(x), TryV::Need(y)) => x@ == y,
                _ => false,
            },
    {
        let none: String = String::new();
        assert(none@ =~= Seq::<char>::empty());
        match p {
            Packet::Call { flow, hop, vars, .. } => {
                Try::Done((flow.clone(), hop.clone(), *vars))
            },
            Packet::Cast { flow, hop, vars, .. } => {
                Try::Done((flow.clone(), hop.clone(), *vars))
            },
            Packet::Reply { flow, .. } => Try::Done((flow.clone(), none, Value::Nil)),
            Packet::Error { flow, .. } => Try::Done((flow.clone(), none, Value::Nil)),
            Packet::Refused { said, .. } => {
                match self.vm.machine.heap.coerce_str(floats, *said) {
                    Try::Done(flow) => Try::Done((flow, none, Value::Nil)),
                    Try::Fail(m) => Try::Fail(m),
                    Try::Need(q) => Try::Need(q),
                }
            },
        }
    }

    fn call_effect(&mut self, floats: &FloatTable, p: &Packet, model: Option<&str>) -> (r: Try<Sent>)
        requires
            old(self).wf(),
        ensures
            final(self).wf(),
            keeps(old(self).vm, final(self).vm),
            ({
                let h = old(self)@;
                let (effects, s) = ordered(floats@, h, p@, crate::auth::opt(model));
                final(self)@ == (HubV { effects, ..h }) && same_sent(r, s)
            }),
    {
        let (flow, hop, vars) = match self.parts(floats, p) {
            Try::Done(x) => x,
            Try::Fail(m) => {
                return Try::Fail(m);
            },
            Try::Need(q) => {
                return Try::Need(q);
            },
        };
        let heap: &Heap = &self.vm.machine.heap;
        match self.effects.handle(heap, floats, flow.as_str(), hop.as_str(), vars, model) {
            Try::Done(os) => Try::Done(Sent::Orders(os)),
            Try::Fail(m) => Try::Fail(m),
            Try::Need(q) => Try::Need(q),
        }
    }

    /// What becomes of a packet of the machine.
    pub fn dispatch(&mut self, floats: &FloatTable, p: &Packet, model: Option<&str>) -> (r: Try<Sent>)
        requires
            old(self).wf(),
        ensures
            final(self).wf(),
            keeps(old(self).vm, final(self).vm),
            ({
                let h = old(self)@;
                let (effects, s) = dispatched(floats@, h, p@, crate::auth::opt(model));
                final(self)@ == (HubV { effects, ..h }) && same_sent(r, s)
            }),
    {
        let d: Data = match encode_packet(&self.vm.machine.heap, p) {
            Ok(d) => d,
            Err(m) => {
                return Try::Done(Sent::Unencodable(m));
            },
        };
        let to: String = match self.vm.machine.heap.as_str(crate::sim::target(p)) {
            Some(s) => s.to_owned(),
            None => {
                return Try::Done(Sent::NoTarget);
            },
        };
        if text_eq(to.as_str(), "@effects") {
            return self.call_effect(floats, p, model);
        }
        let places: Vec<usize> = route(&self.sessions, to.as_str());
        Try::Done(Sent::Frames { to: places, bytes: frame(&d) })
    }
}

/// A session's frames go to it alone: of the sessions that a packet is routed to,
/// each is the one named, or a tab of the user named, or all are meant.
pub proof fn law_frames_reach_those_meant(ss: Seq<SessionV>, to: Seq<char>, n: int, i: int)
    requires
        0 <= n <= ss.len() <= usize::MAX,
    ensures
        0 <= i < n ==> (routed(ss, to, n).contains(i as usize) <==> crate::serve::is_for(ss[i], to)),
        forall|j: int| 0 <= j < routed(ss, to, n).len() ==> (#[trigger] routed(ss, to, n)[j]) < n,
    decreases n,
{
    if n > 0 {
        law_frames_reach_those_meant(ss, to, n - 1, i);
        let before = routed(ss, to, n - 1);
        let now = routed(ss, to, n);
        if crate::serve::is_for(ss[n - 1], to) {
            assert(now[before.len() as int] == n - 1);
            assert forall|j: int| 0 <= j < now.len() implies (#[trigger] now[j]) < n by {
                if j < before.len() {
                    assert(now[j] == before[j]);
                }
            }
            if 0 <= i < n - 1 {
                if before.contains(i as usize) {
                    let j = choose|j: int| 0 <= j < before.len() && before[j] == i as usize;
                    assert(now[j] == i as usize);
                }
                if now.contains(i as usize) {
                    let j = choose|j: int| 0 <= j < now.len() && now[j] == i as usize;
                    assert(before[j] == i as usize);
                }
            }
        } else if i == n - 1 && now.contains(i as usize) {
            let j = choose|j: int| 0 <= j < now.len() && now[j] == i as usize;
            assert(before[j] < n - 1);
        }
    }
}

} // verus!
