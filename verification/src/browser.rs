//! The browser's side of the wire: a machine that is born by the hello.

use crate::compiler::{compile, compiled};
use crate::data::{cbor_read, decode, Data, DataV};
use crate::float::FloatTable;
use crate::flow::{fired, handler_fired, new_vm, with_job, JobV, SideV, VmV};
use crate::ir::{Program, ProgramV};
use crate::rt::{fns_by_name, SideId, Vm};
use crate::text::text_eq;
use crate::value::{field_of, text_of, CellV, Heap, Value};
use crate::wire::{from_cbor, loaded};
use vstd::prelude::*;
use vstd::string::*;

verus! {

/// What became of a frame.
#[derive(Debug)]
pub enum Note {
    /// It went to the machine.
    Taken,
    /// It is no packet.
    Undecodable(String),
    /// It came before the hello, and waits for it.
    Queued,
    /// It was the hello: the machine is born.
    Born,
}

/// The model of a note.
pub enum NoteV {
    Taken,
    Undecodable(Seq<char>),
    Queued,
    Born,
}

impl View for Note {
    type V = NoteV;

    open spec fn view(&self) -> NoteV {
        match *self {
            Note::Taken => NoteV::Taken,
            Note::Undecodable(m) => NoteV::Undecodable(m@),
            Note::Queued => NoteV::Queued,
            Note::Born => NoteV::Born,
        }
    }
}

/// The model of a browser: its machine, and the packets that wait.
pub struct BrowserV {
    pub vm: Option<VmV>,
    pub pending: Seq<DataV>,
}

/// A browser tab.
pub struct BrowserVm {
    /// The program, until the machine has it.
    pub prog: Option<Program>,
    pub vm: Option<Vm>,
    /// Frames that arrived before the hello. A handshake can deliver the cast of
    /// the first page in the same burst.
    pub pending: Vec<Data>,
}

impl View for BrowserVm {
    type V = BrowserV;

    open spec fn view(&self) -> BrowserV {
        BrowserV {
            vm: match self.vm {
                Some(vm) => Some(vm@),
                None => None,
            },
            pending: self.pending@.map_values(|d: Data| d@),
        }
    }
}

/// The packet is the hello.
pub open spec fn is_hello(h: Seq<CellV>, pkt: Value) -> bool {
    text_of(h, field_of(h, pkt, "kind"@)) == Some("hello"@)
}

/// The session that a hello names.
pub open spec fn hello_session(h: Seq<CellV>, pkt: Value) -> Seq<char> {
    match text_of(h, field_of(h, pkt, "session"@)) {
        Some(s) => s,
        None => "?"@,
    }
}

/// The machine that a hello gives birth to: it has the session and the user that
/// the hello names.
pub open spec fn born(p: ProgramV, fns: Seq<(Seq<char>, usize)>, sid: Seq<char>, d: DataV) -> VmV {
    let s = new_vm(p, fns, SideV::Browser(sid));
    let (h, r) = loaded(s.h, d);
    match r {
        Ok(pkt) => VmV { h, user: field_of(h, pkt, "user"@), ..s },
        Err(_) => VmV { h, ..s },
    }
}

/// The browser once a frame came in, and what became of the frame.
pub open spec fn browser_received(
    p: ProgramV,
    fns: Seq<(Seq<char>, usize)>,
    b: BrowserV,
    bytes: Seq<u8>,
) -> (BrowserV, NoteV) {
    match cbor_read(bytes) {
        Err(m) => (b, NoteV::Undecodable(m)),
        Ok(d) => {
            let h0 = match b.vm {
                Some(s) => s.h,
                None => Seq::empty(),
            };
            let (h, r) = loaded(h0, d);
            let c = match b.vm {
                Some(s) => BrowserV { vm: Some(VmV { h, ..s }), ..b },
                None => b,
            };
            match r {
                Err(m) => (c, NoteV::Undecodable(m)),
                Ok(pkt) => if is_hello(h, pkt) {
                    (
                        BrowserV { vm: Some(born(p, fns, hello_session(h, pkt), d)), ..b },
                        NoteV::Born,
                    )
                } else {
                    match c.vm {
                        Some(s) => (
                            BrowserV { vm: Some(with_job(s, JobV::Packet(pkt))), ..c },
                            NoteV::Taken,
                        ),
                        None => (BrowserV { pending: b.pending.push(d), ..b }, NoteV::Queued),
                    }
                },
            }
        },
    }
}

/// The browser once the first packet that waits went to its machine.
pub open spec fn resumed(b: BrowserV) -> BrowserV {
    match b.vm {
        None => b,
        Some(s) => if b.pending.len() == 0 {
            b
        } else {
            let (h, r) = loaded(s.h, b.pending[0]);
            BrowserV {
                vm: Some(
                    match r {
                        Ok(pkt) => with_job(VmV { h, ..s }, JobV::Packet(pkt)),
                        Err(_) => VmV { h, ..s },
                    },
                ),
                pending: b.pending.skip(1),
            }
        },
    }
}

fn hello_of(heap: &Heap, pkt: Value) -> (r: Option<String>)
    ensures
        match r {
            Some(s) => is_hello(heap@, pkt) && s@ == hello_session(heap@, pkt),
            None => !is_hello(heap@, pkt),
        },
{
    let kind: Value = heap.get_field(pkt, "kind");
    let hello: bool = match heap.as_str(kind) {
        Some(k) => text_eq(k, "hello"),
        None => false,
    };
    if !hello {
        return None;
    }
    let sid: Value = heap.get_field(pkt, "session");
    Some(
        match heap.as_str(sid) {
            Some(s) => s.to_owned(),
            None => "?".to_owned(),
        },
    )
}

impl BrowserVm {
    /// The program is with the browser or with its machine, and can be used.
    pub open spec fn wf(&self) -> bool {
        match (self.prog, self.vm) {
            (Some(p), None) => p.hops.wf() && p.named.wf(),
            (None, Some(vm)) => vm.wf(),
            _ => false,
        }
    }

    /// The program.
    pub open spec fn program(&self) -> Program {
        match (self.prog, self.vm) {
            (Some(p), _) => p,
            (None, Some(vm)) => vm.prog,
            _ => arbitrary(),
        }
    }

    /// Compiles the program, the one that the server runs, and waits for the
    /// hello.
    pub fn new(src: &str, floats: &FloatTable) -> (r: Result<BrowserVm, String>)
        ensures
            match (r, compiled(floats@, src@)) {
                (Ok(b), Ok(p)) => b.wf() && b.program()@ == p && b@ == (BrowserV {
                    vm: None,
                    pending: Seq::empty(),
                }),
                (Err(m), Err(w)) => m@ == w,
                _ => false,
            },
    {
        let prog: Program = compile(src, floats)?;
        let b = BrowserVm { prog: Some(prog), vm: None, pending: Vec::new() };
        assert(b@.pending =~= Seq::<DataV>::empty());
        Ok(b)
    }

    fn be_born(&mut self, sid: String, d: &Data)
        requires
            old(self).wf(),
        ensures
            final(self).wf(),
            final(self).program() == old(self).program(),
            final(self)@ == (BrowserV {
                vm: Some(
                    born(
                        old(self).program()@,
                        fns_by_name(old(self).program().named.entries@),
                        sid@,
                        d@,
                    ),
                ),
                ..old(self)@
            }),
    {
        let prog: Program = match self.prog.take() {
            Some(p) => p,
            None => match self.vm.take() {
                Some(vm) => vm.prog,
                None => {
                    return ;
                },
            },
        };
        let mut vm: Vm = Vm::new(prog, SideId::Browser(sid));
        if let Ok(pkt) = vm.load(d) {
            vm.user = vm.machine.heap.get_field(pkt, "user");
        }
        self.vm = Some(vm);
    }

    /// Takes in a frame. The hello gives birth to the machine.
    pub fn receive(&mut self, bytes: &[u8]) -> (r: Note)
        requires
            old(self).wf(),
        ensures
            final(self).wf(),
            final(self).program() == old(self).program(),
            (final(self)@, r@) == browser_received(
                old(self).program()@,
                fns_by_name(old(self).program().named.entries@),
                old(self)@,
                bytes@,
            ),
    {
        let d: Data = match decode(bytes) {
            Ok(d) => d,
            Err(m) => {
                return Note::Undecodable(m);
            },
        };
        let ghost b0 = self@;
        match self.vm.take() {
            Some(mut vm) => {
                match vm.load(&d) {
                    Err(m) => {
                        self.vm = Some(vm);
                        assert(self@.pending =~= b0.pending);
                        Note::Undecodable(m)
                    },
                    Ok(pkt) => match hello_of(&vm.machine.heap, pkt) {
                        Some(sid) => {
                            self.vm = Some(vm);
                            assert(self@.pending =~= b0.pending);
                            self.be_born(sid, &d);
                            Note::Born
                        },
                        None => {
                            vm.receive(pkt);
                            self.vm = Some(vm);
                            assert(self@.pending =~= b0.pending);
                            Note::Taken
                        },
                    },
                }
            },
            None => {
                let mut heap: Heap = Heap::new();
                assert(heap@ =~= Seq::<CellV>::empty());
                match from_cbor(&mut heap, &d) {
                    Err(m) => Note::Undecodable(m),
                    Ok(pkt) => match hello_of(&heap, pkt) {
                        Some(sid) => {
                            self.be_born(sid, &d);
                            Note::Born
                        },
                        None => {
                            self.pending.push(d);
                            assert(self@.pending =~= b0.pending.push(d@));
                            Note::Queued
                        },
                    },
                }
            },
        }
    }

    /// The first packet that waits goes to the machine. Says whether there was
    /// one.
    pub fn resume(&mut self) -> (r: bool)
        requires
            old(self).wf(),
        ensures
            final(self).wf(),
            final(self).program() == old(self).program(),
            final(self)@ == resumed(old(self)@),
            r == (old(self)@.vm is Some && old(self)@.pending.len() > 0),
    {
        let ghost b0 = self@;
        if self.pending.len() == 0 {
            return false;
        }
        match self.vm.take() {
            None => false,
            Some(mut vm) => {
                assert(b0.pending[0] == self.pending@[0]@);
                let d: Data = self.pending.remove(0);
                assert(self@.pending =~= b0.pending.skip(1));
                if let Ok(pkt) = vm.load(&d) {
                    vm.receive(pkt);
                }
                self.vm = Some(vm);
                assert(self@.pending =~= b0.pending.skip(1));
                true
            },
        }
    }

    /// An event on the page: the key, where there is one.
    pub fn fire_handler(&mut self, id: i64, key: Option<&str>, absent: bool)
        requires
            old(self).wf(),
        ensures
            final(self).wf(),
            final(self).program() == old(self).program(),
            final(self)@.pending == old(self)@.pending,
            final(self)@.vm == (match old(self)@.vm {
                Some(s) => {
                    let (h, ev) = event_value_of(
                        s.h,
                        match key {
                            Some(k) => Some(k@),
                            None => None,
                        },
                        absent,
                    );
                    Some(handler_fired(VmV { h, ..s }, id, ev))
                },
                None => None,
            }),
    {
        let ghost b0 = self@;
        if let Some(mut vm) = self.vm.take() {
            let ev: Value = event_value(&mut vm.machine.heap, key, absent);
            vm.fire_handler(id, ev);
            self.vm = Some(vm);
        }
        assert(self@.pending =~= b0.pending);
    }

    /// The function `name` is to run.
    pub fn fire(&mut self, name: &str)
        requires
            old(self).wf(),
        ensures
            final(self).wf(),
            final(self).program() == old(self).program(),
            final(self)@.pending == old(self)@.pending,
            final(self)@.vm == (match old(self)@.vm {
                Some(s) => Some(fired(s, name@, Seq::empty())),
                None => None,
            }),
    {
        let ghost b0 = self@;
        if let Some(mut vm) = self.vm.take() {
            let args: Vec<Value> = Vec::new();
            assert(args@ =~= Seq::<Value>::empty());
            vm.fire(name, args);
            self.vm = Some(vm);
        }
        assert(self@.pending =~= b0.pending);
    }
}

/// The value of an event of the page: nil where there is none, else a map with
/// the key, if it has one.
pub open spec fn event_value_of(h: Seq<CellV>, key: Option<Seq<char>>, absent: bool) -> (
    Seq<CellV>,
    Value,
) {
    if absent {
        (h, Value::Nil)
    } else {
        match key {
            None => (h.push(CellV::Dict(Seq::empty())), Value::Dict(h.len() as usize)),
            Some(k) => {
                let a = h.push(CellV::Str("key"@)).push(CellV::Str(k));
                let e = (Value::Str(h.len() as usize), Value::Str((h.len() + 1) as usize));
                (a.push(CellV::Dict(seq![e])), Value::Dict((h.len() + 2) as usize))
            },
        }
    }
}

/// The value of an event of the page.
pub fn event_value(heap: &mut Heap, key: Option<&str>, absent: bool) -> (r: Value)
    ensures
        (final(heap)@, r) == event_value_of(
            old(heap)@,
            match key {
                Some(k) => Some(k@),
                None => None,
            },
            absent,
        ),
{
    if absent {
        return Value::Nil;
    }
    let mut entries: Vec<(Value, Value)> = Vec::new();
    if let Some(k) = key {
        let name: Value = heap.str("key");
        let text: Value = heap.str(k);
        entries.push((name, text));
        assert(entries@ =~= seq![(name, text)]);
    } else {
        assert(entries@ =~= Seq::<(Value, Value)>::empty());
    }
    heap.map(entries)
}

/// Nothing that came before the hello is lost: it waits, in its order, until the
/// machine is born, and is then taken first come, first served.
pub proof fn law_early_frames_wait(
    p: ProgramV,
    fns: Seq<(Seq<char>, usize)>,
    b: BrowserV,
    bytes: Seq<u8>,
)
    ensures
        ({
            let (c, note) = browser_received(p, fns, b, bytes);
            &&& c.pending == if note is Queued {
                b.pending.push(cbor_read(bytes)->Ok_0)
            } else {
                b.pending
            }
            &&& note is Queued ==> b.vm is None
            &&& b.vm is Some ==> c.vm is Some
        }),
{
}

} // verus!
