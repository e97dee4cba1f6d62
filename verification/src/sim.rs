//! A simulated platform: a transcript instead of a console, stored elements
//! instead of a page, and a model whose answers are known beforehand.

use crate::data::{cbor_bytes, encode, Data, DataV};
use crate::effects::{
    calls_v, effect_reply, handled, orders_v, reply_data, streams_v, Effects, EffectsV, LlmStream,
    Order, OrderV, Said, SaidV, StreamV, ToolCall, ToolCallV,
};
use crate::float::{FactV, FloatTable};
use crate::flow::{addr_of, packet_data, ActionV, PacketV, SideV};
use crate::llm::{answer_value, list_value, models_value, said_value};
use crate::rt::{encode_packet, Action, Packet, SideId};
use crate::text::{
    chars_of, dec, dec_u64, debug_of_text, debug_text, slice_of, text_eq, texts, trim, trimmed,
};
use crate::value::{array_at, coerced, field_of, same_text, show, CellV, Heap, Try, TryV, Value};
use vstd::prelude::*;
use vstd::string::*;

verus! {

/// An element of a page.
#[derive(Debug)]
pub struct Dom {
    pub addr: String,
    pub sel: String,
    pub html: String,
}

/// The model of an element.
pub struct DomV {
    pub addr: Seq<char>,
    pub sel: Seq<char>,
    pub html: Seq<char>,
}

impl View for Dom {
    type V = DomV;

    open spec fn view(&self) -> DomV {
        DomV { addr: self.addr@, sel: self.sel@, html: self.html@ }
    }
}

pub open spec fn doms_v(s: Seq<Dom>) -> Seq<DomV> {
    s.map_values(|d: Dom| d@)
}

/// What the machines share: the packets under way, the transcript and the pages.
pub struct Shared {
    pub queue: Vec<Vec<u8>>,
    pub log: Vec<String>,
    pub doms: Vec<Dom>,
}

/// The model of what the machines share.
pub struct SharedV {
    pub queue: Seq<Seq<u8>>,
    pub log: Seq<Seq<char>>,
    pub doms: Seq<DomV>,
}

pub open spec fn queue_v(s: Seq<Vec<u8>>) -> Seq<Seq<u8>> {
    s.map_values(|b: Vec<u8>| b@)
}

impl View for Shared {
    type V = SharedV;

    open spec fn view(&self) -> SharedV {
        SharedV { queue: queue_v(self.queue@), log: texts(self.log@), doms: doms_v(self.doms@) }
    }
}

/// The place of an element from `i` on.
pub open spec fn dom_place(ds: Seq<DomV>, addr: Seq<char>, sel: Seq<char>, i: int) -> int
    decreases ds.len() - i,
{
    if i < 0 || i >= ds.len() || (ds[i].addr == addr && ds[i].sel == sel) {
        i
    } else {
        dom_place(ds, addr, sel, i + 1)
    }
}

/// The contents of an element; empty where it was never set.
pub open spec fn dom_of(ds: Seq<DomV>, addr: Seq<char>, sel: Seq<char>) -> Seq<char> {
    let i = dom_place(ds, addr, sel, 0);
    if i < ds.len() {
        ds[i].html
    } else {
        Seq::empty()
    }
}

/// The pages once an element is set.
pub open spec fn with_dom(ds: Seq<DomV>, addr: Seq<char>, sel: Seq<char>, html: Seq<char>) -> Seq<DomV> {
    let i = dom_place(ds, addr, sel, 0);
    if i < ds.len() {
        ds.update(i, DomV { addr, sel, html })
    } else {
        ds.push(DomV { addr, sel, html })
    }
}

/// An element holds what it was set to, and no other changes.
pub proof fn law_dom_set(
    ds: Seq<DomV>,
    addr: Seq<char>,
    sel: Seq<char>,
    html: Seq<char>,
    a: Seq<char>,
    s: Seq<char>,
)
    ensures
        dom_of(with_dom(ds, addr, sel, html), a, s) == if a == addr && s == sel {
            html
        } else {
            dom_of(ds, a, s)
        },
{
    let t = with_dom(ds, addr, sel, html);
    lemma_dom_place(ds, addr, sel, 0);
    lemma_dom_place(ds, a, s, 0);
    lemma_dom_place(t, a, s, 0);
    let i = dom_place(ds, addr, sel, 0);
    let j = dom_place(ds, a, s, 0);
    let k = dom_place(t, a, s, 0);
    assert(t[i] == (DomV { addr, sel, html }));
    if a == addr && s == sel {
        if k > i {
            assert(!(t[i].addr == a && t[i].sel == s));
        }
        if k < i {
            assert(t[k] == ds[k]);
        }
    } else {
        if k < ds.len() && k < j {
            assert(t[k] == ds[k] || k == i);
        }
        if j < ds.len() {
            assert(t[j] == ds[j] || j == i);
        }
    }
}

proof fn lemma_dom_place(ds: Seq<DomV>, addr: Seq<char>, sel: Seq<char>, i: int)
    requires
        0 <= i <= ds.len(),
    ensures
        i <= dom_place(ds, addr, sel, i) <= ds.len(),
        forall|j: int|
            i <= j < dom_place(ds, addr, sel, i) ==> !((#[trigger] ds[j]).addr == addr && ds[j].sel
                == sel),
        dom_place(ds, addr, sel, i) < ds.len() ==> ds[dom_place(ds, addr, sel, i)].addr == addr
            && ds[dom_place(ds, addr, sel, i)].sel == sel,
    decreases ds.len() - i,
{
    if i < ds.len() && !(ds[i].addr == addr && ds[i].sel == sel) {
        lemma_dom_place(ds, addr, sel, i + 1);
    }
}

/// `n` spaces.
pub open spec fn spaces(n: int) -> Seq<char> {
    Seq::new(if n > 0 { n as nat } else { 0 }, |i: int| ' ')
}

/// `s` at the right of `n` places.
pub open spec fn right_of(s: Seq<char>, n: int) -> Seq<char> {
    spaces(n - s.len()) + s
}

/// `s` at the left of `n` places.
pub open spec fn left_of(s: Seq<char>, n: int) -> Seq<char> {
    s + spaces(n - s.len())
}

fn blanks(s: &str, n: usize) -> (r: String)
    ensures
        r@ == spaces(n - s@.len()),
{
    let len: usize = chars_of(s).len();
    let mut r: String = String::new();
    let mut i: usize = len;
    assert(r@ =~= spaces(0));
    if i >= n {
        assert(spaces(n - s@.len()) =~= spaces(0));
        return r;
    }
    while i < n
        invariant
            len <= i <= n,
            r@ == spaces(i - len),
        decreases n - i,
    {
        let ghost before = r@;
        r.push(' ');
        i = i + 1;
        assert(r@ =~= spaces(i - len));
    }
    r
}

/// `s` at the right of `n` places.
pub fn pad_left(s: &str, n: usize) -> (r: String)
    ensures
        r@ == right_of(s@, n as int),
{
    let mut r: String = blanks(s, n);
    r.append(s);
    r
}

/// `s` at the left of `n` places.
pub fn pad_right(s: &str, n: usize) -> (r: String)
    ensures
        r@ == left_of(s@, n as int),
{
    let mut r: String = s.to_owned();
    let b: String = blanks(s, n);
    r.append(b.as_str());
    r
}

/// What the transcript calls a side.
pub open spec fn prefix_of(s: SideV) -> Seq<char> {
    match s {
        SideV::Server => "[server]"@,
        SideV::Browser(a) => "[browser "@ + a + "]"@,
    }
}

fn prefix(s: &SideId) -> (r: String)
    ensures
        r@ == prefix_of(s@),
{
    match s {
        SideId::Server => "[server]".to_owned(),
        SideId::Browser(a) => {
            let mut r: String = "[browser ".to_owned();
            r.append(a.as_str());
            r.append("]");
            r
        },
    }
}

/// The line of the transcript for a packet.
pub open spec fn wire_line(from: Seq<char>, to: Seq<char>, kind: Seq<char>, detail: Seq<char>) -> Seq<
    char,
> {
    "        ~ wire "@ + right_of(from, 7) + " -> "@ + left_of(to, 8) + " "@ + left_of(kind, 5)
        + " "@ + detail
}

/// The line of the transcript for a packet.
pub fn packet_line(from: &str, to: &str, kind: &str, detail: &str) -> (r: String)
    ensures
        r@ == wire_line(from@, to@, kind@, detail@),
{
    let mut r: String = "        ~ wire ".to_owned();
    let a: String = pad_left(from, 7);
    r.append(a.as_str());
    r.append(" -> ");
    let b: String = pad_right(to, 8);
    r.append(b.as_str());
    r.append(" ");
    let c: String = pad_right(kind, 5);
    r.append(c.as_str());
    r.append(" ");
    r.append(detail);
    r
}

/// Where a packet goes.
pub open spec fn target_of(p: PacketV) -> Value {
    match p {
        PacketV::Call { to, .. } => to,
        PacketV::Cast { to, .. } => to,
        PacketV::Reply { to, .. } => to,
        PacketV::Error { to, .. } => to,
        PacketV::Refused { to, .. } => to,
    }
}

/// The kind of a packet.
pub open spec fn kind_of_packet(p: PacketV) -> Seq<char> {
    match p {
        PacketV::Call { .. } => "call"@,
        PacketV::Cast { .. } => "cast"@,
        PacketV::Reply { .. } => "reply"@,
        _ => "error"@,
    }
}

/// What the transcript says of a packet.
pub open spec fn detail_of(h: Seq<CellV>, f: Seq<FactV>, p: PacketV) -> TryV<Seq<char>> {
    match p {
        PacketV::Reply { value, .. } => behind("value="@, show(h, f, h.len(), value)),
        PacketV::Error { err, .. } => TryV::Done("err="@ + debug_of_text(err)),
        PacketV::Refused { err, .. } => TryV::Done("err="@ + debug_of_text(err)),
        PacketV::Call { hop, vars, .. } => behind(hop + " vars="@, show(h, f, h.len(), vars)),
        PacketV::Cast { hop, vars, .. } => behind(hop + " vars="@, show(h, f, h.len(), vars)),
    }
}

/// The text behind `s`.
pub open spec fn behind(s: Seq<char>, t: TryV<Seq<char>>) -> TryV<Seq<char>> {
    match t {
        TryV::Done(x) => TryV::Done(s + x),
        other => other,
    }
}

fn put_behind(s: String, t: Try<String>) -> (r: Try<String>)
    ensures
        forall|w: TryV<Seq<char>>| #[trigger] same_text(t, w) ==> same_text(r, behind(s@, w)),
{
    match t {
        Try::Done(x) => {
            let mut m: String = s;
            m.append(x.as_str());
            Try::Done(m)
        },
        Try::Fail(m) => Try::Fail(m),
        Try::Need(q) => Try::Need(q),
    }
}

pub fn target(p: &Packet) -> (r: Value)
    ensures
        r == target_of(p@),
{
    match p {
        Packet::Call { to, .. } => *to,
        Packet::Cast { to, .. } => *to,
        Packet::Reply { to, .. } => *to,
        Packet::Error { to, .. } => *to,
        Packet::Refused { to, .. } => *to,
    }
}

fn kind(p: &Packet) -> (r: &'static str)
    ensures
        r@ == kind_of_packet(p@),
{
    match p {
        Packet::Call { .. } => "call",
        Packet::Cast { .. } => "cast",
        Packet::Reply { .. } => "reply",
        Packet::Error { .. } => "error",
        Packet::Refused { .. } => "error",
    }
}

fn vars_text(hop: &String) -> (r: String)
    ensures
        r@ == hop@ + " vars="@,
{
    let mut s: String = hop.clone();
    s.append(" vars=");
    s
}

fn error_text(err: &String) -> (r: String)
    ensures
        r@ == "err="@ + debug_of_text(err@),
{
    let mut s: String = "err=".to_owned();
    let d: String = debug_text(err.as_str());
    s.append(d.as_str());
    s
}

fn detail(heap: &Heap, floats: &FloatTable, p: &Packet) -> (r: Try<String>)
    ensures
        same_text(r, detail_of(heap@, floats@, p@)),
{
    let d: usize = heap.cells.len();
    match p {
        Packet::Reply { value, .. } => put_behind("value=".to_owned(), heap.show(floats, d, *value)),
        Packet::Error { err, .. } => Try::Done(error_text(err)),
        Packet::Refused { err, .. } => Try::Done(error_text(err)),
        Packet::Call { hop, vars, .. } => put_behind(
            vars_text(hop),
            heap.show(floats, d, *vars),
        ),
        Packet::Cast { hop, vars, .. } => put_behind(
            vars_text(hop),
            heap.show(floats, d, *vars),
        ),
    }
}

/// What is shared once a line is in the transcript.
pub open spec fn logged(s: SharedV, line: Seq<char>) -> SharedV {
    SharedV { log: s.log.push(line), ..s }
}

/// What is shared once a packet is sent: it is in the transcript, and under way
/// as bytes.
pub open spec fn sent_out(h: Seq<CellV>, f: Seq<FactV>, s: SharedV, from: SideV, p: PacketV) -> TryV<
    SharedV,
> {
    match detail_of(h, f, p) {
        TryV::Fail(m) => TryV::Fail(m),
        TryV::Need(q) => TryV::Need(q),
        TryV::Done(detail) => match coerced(h, f, target_of(p)) {
            TryV::Fail(m) => TryV::Fail(m),
            TryV::Need(q) => TryV::Need(q),
            TryV::Done(to) => {
                let s2 = logged(s, wire_line(addr_of(from), to, kind_of_packet(p), detail));
                TryV::Done(posted(s2, packet_data(h, p), "!! unencodable packet: "@))
            },
        },
    }
}

/// What is shared once data are under way as bytes, or a line says why not.
pub open spec fn posted(s: SharedV, d: Result<DataV, Seq<char>>, why: Seq<char>) -> SharedV {
    match d {
        Ok(d) => SharedV { queue: s.queue.push(cbor_bytes(d)), ..s },
        Err(m) => logged(s, why + m),
    }
}

/// What is shared once an action of a side is done.
pub open spec fn performed(h: Seq<CellV>, f: Seq<FactV>, s: SharedV, side: SideV, a: ActionV) -> TryV<
    SharedV,
> {
    match a {
        ActionV::Send(p) => sent_out(h, f, s, side, p),
        ActionV::Print(line) => TryV::Done(logged(s, prefix_of(side) + " "@ + line)),
        ActionV::DomSet { sel, html } => TryV::Done(
            SharedV {
                doms: with_dom(s.doms, addr_of(side), sel, html),
                ..logged(s, prefix_of(side) + " [dom] "@ + sel + " := "@ + html)
            },
        ),
        ActionV::DomClear(sel) => TryV::Done(
            SharedV { doms: with_dom(s.doms, addr_of(side), sel, Seq::empty()), ..s },
        ),
        ActionV::DomFocus(sel) => TryV::Done(
            logged(s, prefix_of(side) + " [dom] focus "@ + sel),
        ),
    }
}

impl Shared {
    pub fn new() -> (r: Shared)
        ensures
            r@ == (SharedV { queue: Seq::empty(), log: Seq::empty(), doms: Seq::empty() }),
    {
        let r = Shared { queue: Vec::new(), log: Vec::new(), doms: Vec::new() };
        assert(r@.queue =~= Seq::<Seq<u8>>::empty());
        assert(r@.log =~= Seq::<Seq<char>>::empty());
        assert(r@.doms =~= Seq::<DomV>::empty());
        r
    }

    /// Puts a line in the transcript.
    pub fn emit(&mut self, line: String)
        ensures
            final(self)@ == logged(old(self)@, line@),
    {
        let ghost before = self.log@;
        self.log.push(line);
        assert(texts(self.log@) =~= texts(before).push(line@));
    }

    fn post_bytes(&mut self, b: Vec<u8>)
        ensures
            final(self)@ == (SharedV { queue: old(self)@.queue.push(b@), ..old(self)@ }),
    {
        let ghost before = self.queue@;
        self.queue.push(b);
        assert(queue_v(self.queue@) =~= queue_v(before).push(b@));
    }

    /// Sends data as bytes, or says why not.
    pub fn post(&mut self, d: Result<Data, String>, why: &str)
        ensures
            final(self)@ == posted(
                old(self)@,
                match d {
                    Ok(d) => Ok(d@),
                    Err(m) => Err(m@),
                },
                why@,
            ),
    {
        match d {
            Ok(d) => {
                let b: Vec<u8> = encode(&d);
                self.post_bytes(b);
            },
            Err(m) => {
                let mut line: String = why.to_owned();
                line.append(m.as_str());
                self.emit(line);
            },
        }
    }

    fn dom_at(&self, addr: &str, sel: &str) -> (i: usize)
        ensures
            i == dom_place(self@.doms, addr@, sel@, 0),
            i <= self.doms@.len(),
    {
        let ghost ds = doms_v(self.doms@);
        let mut i: usize = 0;
        while i < self.doms.len() && !(text_eq(self.doms[i].addr.as_str(), addr) && text_eq(
            self.doms[i].sel.as_str(),
            sel,
        ))
            invariant
                i <= self.doms@.len(),
                ds == doms_v(self.doms@),
                dom_place(ds, addr@, sel@, 0) == dom_place(ds, addr@, sel@, i as int),
            decreases self.doms@.len() - i,
        {
            assert(ds[i as int] == self.doms@[i as int]@);
            i = i + 1;
        }
        if i < self.doms.len() {
            assert(ds[i as int] == self.doms@[i as int]@);
        }
        i
    }

    /// The contents of an element.
    pub fn dom(&self, addr: &str, sel: &str) -> (r: String)
        ensures
            r@ == dom_of(self@.doms, addr@, sel@),
    {
        let i: usize = self.dom_at(addr, sel);
        if i < self.doms.len() {
            assert(self@.doms[i as int] == self.doms@[i as int]@);
            self.doms[i].html.clone()
        } else {
            let r: String = String::new();
            assert(r@ =~= Seq::<char>::empty());
            r
        }
    }

    /// Sets the contents of an element.
    pub fn set_dom(&mut self, addr: &str, sel: &str, html: &str)
        ensures
            final(self)@ == (SharedV {
                doms: with_dom(old(self)@.doms, addr@, sel@, html@),
                ..old(self)@
            }),
    {
        let ghost before = self.doms@;
        let i: usize = self.dom_at(addr, sel);
        let d = Dom { addr: addr.to_owned(), sel: sel.to_owned(), html: html.to_owned() };
        if i < self.doms.len() {
            self.doms.set(i, d);
            assert(doms_v(self.doms@) =~= doms_v(before).update(i as int, d@));
        } else {
            self.doms.push(d);
            assert(doms_v(self.doms@) =~= doms_v(before).push(d@));
        }
    }

    fn send(&mut self, heap: &Heap, floats: &FloatTable, side: &SideId, p: &Packet) -> (r: Try<()>)
        ensures
            done_as(r, sent_out(heap@, floats@, old(self)@, side@, p@), *old(self), *final(self)),
    {
        let said: String = match detail(heap, floats, p) {
            Try::Done(s) => s,
            Try::Fail(m) => {
                return Try::Fail(m);
            },
            Try::Need(q) => {
                return Try::Need(q);
            },
        };
        let to: String = match heap.coerce_str(floats, target(p)) {
            Try::Done(s) => s,
            Try::Fail(m) => {
                return Try::Fail(m);
            },
            Try::Need(q) => {
                return Try::Need(q);
            },
        };
        let line: String = packet_line(side.addr(), to.as_str(), kind(p), said.as_str());
        self.emit(line);
        let d: Result<Data, String> = encode_packet(heap, p);
        self.post(d, "!! unencodable packet: ");
        Try::Done(())
    }

    /// Does what a side has its platform do.
    pub fn perform(&mut self, heap: &Heap, floats: &FloatTable, side: &SideId, a: &Action) -> (r: Try<
        (),
    >)
        ensures
            done_as(r, performed(heap@, floats@, old(self)@, side@, a@), *old(self), *final(self)),
    {
        match a {
            Action::Send(p) => self.send(heap, floats, side, p),
            Action::Print(line) => {
                let mut s: String = prefix(side);
                s.append(" ");
                s.append(line.as_str());
                self.emit(s);
                Try::Done(())
            },
            Action::DomSet { sel, html } => {
                let mut s: String = prefix(side);
                s.append(" [dom] ");
                s.append(sel.as_str());
                s.append(" := ");
                s.append(html.as_str());
                self.emit(s);
                self.set_dom(side.addr(), sel.as_str(), html.as_str());
                Try::Done(())
            },
            Action::DomClear(sel) => {
                let none: String = String::new();
                assert(none@ =~= Seq::<char>::empty());
                self.set_dom(side.addr(), sel.as_str(), none.as_str());
                Try::Done(())
            },
            Action::DomFocus(sel) => {
                let mut s: String = prefix(side);
                s.append(" [dom] focus ");
                s.append(sel.as_str());
                self.emit(s);
                Try::Done(())
            },
        }
    }
}

/// What is shared changed as the model says, or not at all.
pub open spec fn done_as(r: Try<()>, s: TryV<SharedV>, a: Shared, b: Shared) -> bool {
    match (r, s) {
        (Try::Done(_), TryV::Done(t)) => b@ == t,
        (Try::Fail(x), TryV::Fail(y)) => x@ == y && b@ == a@,
        (Try::Need(x), TryV::Need(y)) => x@ == y && b@ == a@,
        _ => false,
    }
}

/// A character between quotes.
pub open spec fn quoted_char(c: char) -> Seq<char> {
    if c == '\\' || c == '"' {
        seq!['\\', c]
    } else {
        seq![c]
    }
}

/// The first `n` characters of `s` between quotes.
pub open spec fn quoted(s: Seq<char>, n: int) -> Seq<char>
    decreases n,
{
    if n <= 0 || n > s.len() {
        Seq::empty()
    } else {
        quoted(s, n - 1) + quoted_char(s[n - 1])
    }
}

fn quote(s: &Vec<char>) -> (r: String)
    ensures
        r@ == quoted(s@, s@.len() as int),
{
    let mut out: String = String::new();
    let mut i: usize = 0;
    assert(out@ =~= Seq::<char>::empty());
    while i < s.len()
        invariant
            i <= s@.len(),
            out@ == quoted(s@, i as int),
        decreases s@.len() - i,
    {
        let ghost before = out@;
        let c: char = s[i];
        if c == '\\' || c == '"' {
            out.push('\\');
        }
        out.push(c);
        assert(out@ =~= before + quoted_char(c));
        i = i + 1;
    }
    out
}

/// The last message of a request.
pub open spec fn last_message(h: Seq<CellV>, req: Value) -> Value {
    match field_of(h, req, "messages"@) {
        Value::Array(i) => if array_at(h, i).len() > 0 {
            array_at(h, i).last()
        } else {
            Value::Nil
        },
        _ => Value::Nil,
    }
}

/// `s` begins with `p`.
pub open spec fn begins(s: Seq<char>, p: Seq<char>) -> bool {
    p.len() <= s.len() && s.take(p.len() as int) == p
}

/// What the simulated model says to `content`: for `RUN:` it asks in words for a
/// command, for `CALL:` it calls a tool, and else it repeats what it was told.
pub open spec fn model_says(content: Seq<char>) -> (Seq<char>, Seq<ToolCallV>) {
    if begins(content, "RUN:"@) {
        let cmd = trimmed(content.skip(4));
        (
            "{\"tool\":\"bash\",\"cmd\":\""@ + quoted(cmd, cmd.len() as int) + "\"}"@,
            Seq::empty(),
        )
    } else if begins(content, "CALL:"@) {
        let cmd = trimmed(content.skip(5));
        (
            Seq::empty(),
            seq![
                ToolCallV {
                    id: "call_fake_1"@,
                    name: "bash"@,
                    args: "{\"cmd\":\""@ + quoted(cmd, cmd.len() as int) + "\"}"@,
                },
            ],
        )
    } else {
        ("echo: "@ + content, Seq::empty())
    }
}

fn has_start(s: &Vec<char>, p: &str) -> (r: bool)
    ensures
        r == begins(s@, p@),
{
    let b: Vec<char> = chars_of(p);
    if b.len() > s.len() {
        return false;
    }
    let head: String = slice_of(s.as_slice(), 0, b.len());
    assert(head@ =~= s@.take(p@.len() as int));
    text_eq(head.as_str(), p)
}

fn rest_from(s: &Vec<char>, n: usize) -> (r: String)
    requires
        n <= s@.len(),
    ensures
        r@ == ({
            let cmd = trimmed(s@.skip(n as int));
            quoted(cmd, cmd.len() as int)
        }),
{
    let t: String = slice_of(s.as_slice(), n, s.len());
    assert(t@ =~= s@.skip(n as int));
    let cs: Vec<char> = chars_of(t.as_str());
    quote(&trim(cs.as_slice()))
}

/// What the simulated model says to `content`.
pub fn fake_llm(content: &str) -> (r: (String, Vec<ToolCall>))
    ensures
        (r.0@, calls_v(r.1@)) == model_says(content@),
{
    let s: Vec<char> = chars_of(content);
    let mut calls: Vec<ToolCall> = Vec::new();
    assert(calls_v(calls@) =~= Seq::<ToolCallV>::empty());
    proof {
        reveal_strlit("RUN:");
        reveal_strlit("CALL:");
    }
    if has_start(&s, "RUN:") {
        let mut t: String = "{\"tool\":\"bash\",\"cmd\":\"".to_owned();
        let q: String = rest_from(&s, 4);
        t.append(q.as_str());
        t.append("\"}");
        return (t, calls);
    }
    if has_start(&s, "CALL:") {
        let mut t: String = "{\"cmd\":\"".to_owned();
        let q: String = rest_from(&s, 5);
        t.append(q.as_str());
        t.append("\"}");
        let c = ToolCall { id: "call_fake_1".to_owned(), name: "bash".to_owned(), args: t };
        calls.push(c);
        assert(calls_v(calls@) =~= seq![c@]);
        let none: String = String::new();
        assert(none@ =~= Seq::<char>::empty());
        return (none, calls);
    }
    let mut t: String = "echo: ".to_owned();
    t.append(content);
    (t, calls)
}

/// The parts in which the simulated model says `text`: two, where it has two
/// characters.
pub open spec fn chunks_of(text: Seq<char>) -> Seq<Seq<char>> {
    if text.len() == 0 {
        Seq::empty()
    } else if text.len() == 1 {
        seq![text]
    } else {
        let mid = text.len() as int / 2;
        seq![text.take(mid), text.skip(mid)]
    }
}

/// The parts in which the simulated model says `text`.
pub fn fake_chunks(text: &str) -> (r: Vec<String>)
    ensures
        texts(r@) == chunks_of(text@),
{
    let s: Vec<char> = chars_of(text);
    let mut out: Vec<String> = Vec::new();
    if s.len() == 0 {
        assert(texts(out@) =~= Seq::<Seq<char>>::empty());
        return out;
    }
    if s.len() == 1 {
        out.push(text.to_owned());
        assert(texts(out@) =~= seq![text@]);
        return out;
    }
    let mid: usize = s.len() / 2;
    let a: String = slice_of(s.as_slice(), 0, mid);
    let b: String = slice_of(s.as_slice(), mid, s.len());
    assert(a@ =~= text@.take(mid as int));
    assert(b@ =~= text@.skip(mid as int));
    out.push(a);
    out.push(b);
    assert(texts(out@) =~= seq![text@.take(mid as int), text@.skip(mid as int)]);
    out
}

/// The parts, put together, are the text.
pub proof fn law_chunks_make_the_text(text: Seq<char>)
    ensures
        chunks_of(text).len() <= 2,
        if chunks_of(text).len() == 0 {
            text.len() == 0
        } else if chunks_of(text).len() == 1 {
            chunks_of(text)[0] == text
        } else {
            chunks_of(text)[0] + chunks_of(text)[1] == text
        },
{
    if text.len() >= 2 {
        let mid = text.len() as int / 2;
        assert(text.take(mid) + text.skip(mid) =~= text);
    }
}

/// What an effect comes to.
pub enum Effect {
    /// A packet for the server.
    Reply(Data),
    /// A command is to be run for a flow.
    Bash { flow: String, cmd: String, dir: String },
    /// Nothing yet.
    Wait,
}

/// The model of what an effect comes to.
pub enum EffectV {
    Reply(DataV),
    Bash { flow: Seq<char>, cmd: Seq<char>, dir: Seq<char> },
    Wait,
}

impl View for Effect {
    type V = EffectV;

    open spec fn view(&self) -> EffectV {
        match *self {
            Effect::Reply(d) => EffectV::Reply(d@),
            Effect::Bash { flow, cmd, dir } => EffectV::Bash { flow: flow@, cmd: cmd@, dir: dir@ },
            Effect::Wait => EffectV::Wait,
        }
    }
}

/// What the orders of an effect come to, which are at most one.
pub open spec fn of_orders(os: Seq<OrderV>) -> EffectV {
    if os.len() == 0 {
        EffectV::Wait
    } else {
        match os[0] {
            OrderV::Bash { flow, cmd, dir } => EffectV::Bash { flow, cmd, dir },
            OrderV::Deliver(d) => EffectV::Reply(d),
            _ => EffectV::Wait,
        }
    }
}

/// What an effect comes to where the model is simulated, and the streams then.
pub open spec fn simulated(
    h: Seq<CellV>,
    f: Seq<FactV>,
    e: EffectsV,
    flow: Seq<char>,
    hop: Seq<char>,
    vars: Value,
) -> (EffectsV, TryV<EffectV>) {
    if hop == "llm"@ || hop == "llm_start"@ {
        let last = last_message(h, field_of(h, vars, "req"@));
        match coerced(h, f, field_of(h, last, "content"@)) {
            TryV::Fail(m) => (e, TryV::Fail(m)),
            TryV::Need(q) => (e, TryV::Need(q)),
            TryV::Done(content) => {
                let said = model_says(content);
                if hop == "llm"@ {
                    (e, TryV::Done(EffectV::Reply(reply_data(flow, said_value(Ok(said))))))
                } else {
                    let n = crate::flow::next_number(e.next_id);
                    let handle = "llm:"@ + dec(n as nat);
                    let s = StreamV { buf: chunks_of(said.0), done: Some(Ok(said)), pending: None };
                    (
                        EffectsV { streams: e.streams.push((handle, s)), next_id: n },
                        TryV::Done(EffectV::Reply(reply_data(flow, DataV::Text(handle)))),
                    )
                }
            },
        }
    } else if hop == "llm_models"@ {
        (
            e,
            TryV::Done(
                EffectV::Reply(
                    reply_data(flow, models_value(Ok(seq!["fake/alpha"@, "fake/beta"@]))),
                ),
            ),
        )
    } else {
        let (e2, r) = handled(h, f, e, flow, hop, vars, None);
        (
            e2,
            match r {
                TryV::Done(os) => TryV::Done(of_orders(os)),
                TryV::Fail(m) => TryV::Fail(m),
                TryV::Need(q) => TryV::Need(q),
            },
        )
    }
}

/// The effect came to what the model says.
pub open spec fn same_effect(r: Try<Effect>, s: TryV<EffectV>) -> bool {
    match (r, s) {
        (Try::Done(x), TryV::Done(y)) => x@ == y,
        (Try::Fail(x), TryV::Fail(y)) => x@ == y,
        (Try::Need(x), TryV::Need(y)) => x@ == y,
        _ => false,
    }
}

fn last_content(heap: &Heap, floats: &FloatTable, req: Value) -> (r: Try<String>)
    ensures
        same_text(
            r,
            coerced(heap@, floats@, field_of(heap@, last_message(heap@, req), "content"@)),
        ),
{
    let last: Value = match heap.get_field(req, "messages") {
        Value::Array(i) => {
            let xs: Vec<Value> = heap.items(i);
            if xs.len() > 0 {
                xs[xs.len() - 1]
            } else {
                Value::Nil
            }
        },
        _ => Value::Nil,
    };
    heap.coerce_str(floats, heap.get_field(last, "content"))
}

fn start_stream(fx: &mut Effects, flow: &str, text: String, calls: Vec<ToolCall>) -> (r: Data)
    ensures
        ({
            let n = crate::flow::next_number(old(fx)@.next_id);
            let handle = "llm:"@ + dec(n as nat);
            let said: SaidV = Ok((text@, calls_v(calls@)));
            let s = StreamV { buf: chunks_of(text@), done: Some(said), pending: None };
            &&& final(fx)@ == (EffectsV {
                streams: old(fx)@.streams.push((handle, s)),
                next_id: n,
            })
            &&& r@ == reply_data(flow@, DataV::Text(handle))
        }),
{
    let ghost before = fx.streams@;
    fx.next_id = if fx.next_id == u64::MAX {
        0
    } else {
        fx.next_id + 1
    };
    let mut handle: String = "llm:".to_owned();
    handle.append(dec_u64(fx.next_id).as_str());
    let buf: Vec<String> = fake_chunks(text.as_str());
    let s = LlmStream { buf, done: Some(Ok((text, calls))), pending: None };
    let reply: Data = effect_reply(flow, Data::Text(handle.clone()));
    fx.streams.push((handle, s));
    assert(streams_v(fx.streams@) =~= streams_v(before).push((handle@, s@)));
    reply
}

fn first_order(orders: Vec<Order>) -> (r: Effect)
    ensures
        r@ == of_orders(orders_v(orders@)),
{
    let mut os: Vec<Order> = orders;
    if os.len() == 0 {
        return Effect::Wait;
    }
    assert(orders_v(orders@)[0] == os@[0]@);
    match os.remove(0) {
        Order::Bash { flow, cmd, dir } => Effect::Bash { flow, cmd, dir },
        Order::Deliver(d) => Effect::Reply(d),
        _ => Effect::Wait,
    }
}

/// What an effect comes to where the model is simulated.
pub fn simulate(
    fx: &mut Effects,
    heap: &Heap,
    floats: &FloatTable,
    flow: &str,
    hop: &str,
    vars: Value,
) -> (r: Try<Effect>)
    ensures
        ({
            let (e, s) = simulated(heap@, floats@, old(fx)@, flow@, hop@, vars);
            final(fx)@ == e && same_effect(r, s)
        }),
{
    if text_eq(hop, "llm") || text_eq(hop, "llm_start") {
        let content: String = match last_content(heap, floats, heap.get_field(vars, "req")) {
            Try::Done(s) => s,
            Try::Fail(m) => {
                return Try::Fail(m);
            },
            Try::Need(q) => {
                return Try::Need(q);
            },
        };
        let (text, calls) = fake_llm(content.as_str());
        if text_eq(hop, "llm") {
            let said: Said = Ok((text, calls));
            let v: Data = answer_value(&said);
            return Try::Done(Effect::Reply(effect_reply(flow, v)));
        }
        return Try::Done(Effect::Reply(start_stream(fx, flow, text, calls)));
    }
    if text_eq(hop, "llm_models") {
        let mut ids: Vec<String> = Vec::new();
        ids.push("fake/alpha".to_owned());
        ids.push("fake/beta".to_owned());
        assert(texts(ids@) =~= seq!["fake/alpha"@, "fake/beta"@]);
        let v: Data = list_value(&Ok(ids));
        return Try::Done(Effect::Reply(effect_reply(flow, v)));
    }
    match fx.handle(heap, floats, flow, hop, vars, None) {
        Try::Done(os) => Try::Done(first_order(os)),
        Try::Fail(m) => Try::Fail(m),
        Try::Need(q) => Try::Need(q),
    }
}

} // verus!
