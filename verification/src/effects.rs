//! Effects: commands and language models run outside, while the flow that
//! asked for them stays suspended and the machine stays live.
//!
//! What is to be done outside is handed out as orders; what came back is turned
//! into replies. The answers of a streaming model are kept here until the flow
//! asks for them.

use crate::auth::{opt, opt_string};
use crate::data::{items_v, lemma_items, pairs_v, Data, DataV};
use crate::float::{FactV, FloatTable};
use crate::json::{
    json_text, lemma_members, member_at, members_v, print_json, set_member, with_member, Json,
    JsonV,
};
use crate::modules::{fields_data, no_fields, push_field};
use crate::text::{dec, dec_u64, text_eq, texts};
use crate::value::{coerced, field_of, text_of, CellV, Heap, Try, TryV, Value};
use crate::wire::json_of;
use vstd::prelude::*;
use vstd::string::*;

verus! {

/// A tool call that a model makes.
#[derive(Debug)]
pub struct ToolCall {
    pub id: String,
    pub name: String,
    pub args: String,
}

/// The model of a tool call.
pub struct ToolCallV {
    pub id: Seq<char>,
    pub name: Seq<char>,
    pub args: Seq<char>,
}

impl View for ToolCall {
    type V = ToolCallV;

    open spec fn view(&self) -> ToolCallV {
        ToolCallV { id: self.id@, name: self.name@, args: self.args@ }
    }
}

/// The calls of a list.
pub open spec fn calls_v(s: Seq<ToolCall>) -> Seq<ToolCallV> {
    s.map_values(|c: ToolCall| c@)
}

/// A tool call as data.
pub open spec fn call_data(c: ToolCallV) -> DataV {
    DataV::Dict(
        seq![
            (DataV::Text("args"@), DataV::Text(c.args)),
            (DataV::Text("id"@), DataV::Text(c.id)),
            (DataV::Text("name"@), DataV::Text(c.name)),
        ],
    )
}

/// Tool calls as data.
pub open spec fn calls_data(cs: Seq<ToolCallV>) -> DataV {
    DataV::Array(cs.map_values(|c: ToolCallV| call_data(c)))
}

/// What a model said in the end.
pub type Said = Result<(String, Vec<ToolCall>), String>;

/// The model of what a model said.
pub type SaidV = Result<(Seq<char>, Seq<ToolCallV>), Seq<char>>;

pub open spec fn said_v(s: Said) -> SaidV {
    match s {
        Ok((t, cs)) => Ok((t@, calls_v(cs@))),
        Err(m) => Err(m@),
    }
}

/// A stream of a model's answer: what came in and was not asked for yet, how it
/// ended, and the flow that waits for more.
pub struct LlmStream {
    pub buf: Vec<String>,
    pub done: Option<Said>,
    pub pending: Option<String>,
}

/// The model of a stream.
pub struct StreamV {
    pub buf: Seq<Seq<char>>,
    pub done: Option<SaidV>,
    pub pending: Option<Seq<char>>,
}

impl View for LlmStream {
    type V = StreamV;

    open spec fn view(&self) -> StreamV {
        StreamV {
            buf: texts(self.buf@),
            done: match self.done {
                Some(s) => Some(said_v(s)),
                None => None,
            },
            pending: opt_string(self.pending),
        }
    }
}

/// A stream that has just begun.
pub open spec fn fresh_stream() -> StreamV {
    StreamV { buf: Seq::empty(), done: None, pending: None }
}

/// A part of an answer.
pub open spec fn delta_value(d: Seq<char>) -> DataV {
    DataV::Dict(seq![(DataV::Text("delta"@), DataV::Text(d))])
}

/// The end of an answer.
pub open spec fn end_value(s: SaidV) -> DataV {
    match s {
        Ok((text, calls)) => DataV::Dict(
            seq![
                (DataV::Text("done"@), DataV::Bool(true)),
                (DataV::Text("text"@), DataV::Text(text)),
            ] + (if calls.len() == 0 {
                Seq::<(DataV, DataV)>::empty()
            } else {
                seq![(DataV::Text("tool_calls"@), calls_data(calls))]
            }),
        ),
        Err(m) => DataV::Dict(seq![(DataV::Text("error"@), DataV::Text(m))]),
    }
}

/// What comes next out of a stream, if anything is there: a part, or the end
/// where all parts are out.
pub open spec fn next_value_of(s: StreamV) -> Option<DataV> {
    if s.buf.len() > 0 {
        Some(delta_value(s.buf[0]))
    } else {
        match s.done {
            Some(d) => Some(end_value(d)),
            None => None,
        }
    }
}

/// The stream once its next part is out.
pub open spec fn taken(s: StreamV) -> StreamV {
    if s.buf.len() > 0 {
        StreamV { buf: s.buf.skip(1), ..s }
    } else {
        s
    }
}

/// What comes next is the end.
pub open spec fn at_end(s: StreamV) -> bool {
    s.buf.len() == 0 && s.done is Some
}

/// The reply that resumes a flow.
pub open spec fn reply_data(flow: Seq<char>, value: DataV) -> DataV {
    DataV::Dict(
        seq![
            (DataV::Text("flow"@), DataV::Text(flow)),
            (DataV::Text("kind"@), DataV::Text("reply"@)),
            (DataV::Text("to"@), DataV::Text("server"@)),
            (DataV::Text("value"@), value),
        ],
    )
}

/// The error that a flow gets.
pub open spec fn error_data(flow: Seq<char>, err: Seq<char>) -> DataV {
    DataV::Dict(
        seq![
            (DataV::Text("err"@), DataV::Text(err)),
            (DataV::Text("flow"@), DataV::Text(flow)),
            (DataV::Text("kind"@), DataV::Text("error"@)),
            (DataV::Text("to"@), DataV::Text("server"@)),
        ],
    )
}

/// What a flow's wish for more gives: the stream then, if it is not spent, and
/// the reply, if one is ready.
pub open spec fn asked(s: StreamV, flow: Seq<char>) -> (Option<StreamV>, Option<DataV>) {
    match next_value_of(s) {
        Some(v) => (
            if at_end(s) {
                None
            } else {
                Some(taken(s))
            },
            Some(reply_data(flow, v)),
        ),
        None => (Some(StreamV { pending: Some(flow), ..s }), None),
    }
}

/// What the flow that waits gets, if it waits and something is there.
pub open spec fn woken(s: StreamV) -> (Option<StreamV>, Option<DataV>) {
    match s.pending {
        None => (Some(s), None),
        Some(flow) => match next_value_of(s) {
            None => (Some(s), None),
            Some(v) => (
                if at_end(s) {
                    None
                } else {
                    Some(StreamV { pending: None, ..taken(s) })
                },
                Some(reply_data(flow, v)),
            ),
        },
    }
}

/// A part has come in.
pub open spec fn chunked(s: StreamV, delta: Seq<char>) -> (Option<StreamV>, Option<DataV>) {
    woken(StreamV { buf: s.buf.push(delta), ..s })
}

/// The end has come in.
pub open spec fn completed(s: StreamV, said: SaidV) -> (Option<StreamV>, Option<DataV>) {
    woken(StreamV { done: Some(said), ..s })
}

/// The streams by handle, and the number of the last handle.
pub struct EffectsV {
    pub streams: Seq<(Seq<char>, StreamV)>,
    pub next_id: u64,
}

/// The place of a stream from `i` on.
pub open spec fn stream_place(ss: Seq<(Seq<char>, StreamV)>, h: Seq<char>, i: int) -> int
    decreases ss.len() - i,
{
    if i < 0 || i >= ss.len() || ss[i].0 == h {
        i
    } else {
        stream_place(ss, h, i + 1)
    }
}

/// The streams with the one at `i` replaced, or removed.
pub open spec fn with_stream(ss: Seq<(Seq<char>, StreamV)>, i: int, s: Option<StreamV>) -> Seq<
    (Seq<char>, StreamV),
> {
    match s {
        Some(s) => ss.update(i, (ss[i].0, s)),
        None => ss.remove(i),
    }
}

/// Effects and their streams.
pub struct Effects {
    pub streams: Vec<(String, LlmStream)>,
    pub next_id: u64,
}

pub open spec fn streams_v(s: Seq<(String, LlmStream)>) -> Seq<(Seq<char>, StreamV)> {
    Seq::new(s.len(), |i: int| (s[i].0@, s[i].1@))
}

impl View for Effects {
    type V = EffectsV;

    open spec fn view(&self) -> EffectsV {
        EffectsV { streams: streams_v(self.streams@), next_id: self.next_id }
    }
}

/// What is to be done outside.
pub enum Order {
    /// A command is to be run, in a directory if one is given.
    Bash { flow: String, cmd: String, dir: String },
    /// A model is to be asked; there may be no body to ask it with.
    Llm { flow: String, body: Result<String, String> },
    /// A model's answer is to be streamed.
    Stream { handle: String, body: Result<String, String> },
    /// The models are to be listed.
    Models { flow: String },
    /// A packet is for the server's machine.
    Deliver(Data),
}

/// The model of an order.
pub enum OrderV {
    Bash { flow: Seq<char>, cmd: Seq<char>, dir: Seq<char> },
    Llm { flow: Seq<char>, body: Result<Seq<char>, Seq<char>> },
    Stream { handle: Seq<char>, body: Result<Seq<char>, Seq<char>> },
    Models { flow: Seq<char> },
    Deliver(DataV),
}

pub open spec fn body_v(b: Result<String, String>) -> Result<Seq<char>, Seq<char>> {
    match b {
        Ok(s) => Ok(s@),
        Err(m) => Err(m@),
    }
}

impl View for Order {
    type V = OrderV;

    open spec fn view(&self) -> OrderV {
        match *self {
            Order::Bash { flow, cmd, dir } => OrderV::Bash { flow: flow@, cmd: cmd@, dir: dir@ },
            Order::Llm { flow, body } => OrderV::Llm { flow: flow@, body: body_v(body) },
            Order::Stream { handle, body } => OrderV::Stream {
                handle: handle@,
                body: body_v(body),
            },
            Order::Models { flow } => OrderV::Models { flow: flow@ },
            Order::Deliver(d) => OrderV::Deliver(d@),
        }
    }
}

pub open spec fn orders_v(s: Seq<Order>) -> Seq<OrderV> {
    s.map_values(|o: Order| o@)
}

/// The body of a request to a model. The request's own model stands; else the
/// given one does.
pub open spec fn llm_body_of(h: Seq<CellV>, req: Value, model: Option<Seq<char>>, stream: bool) -> Result<
    Seq<char>,
    Seq<char>,
> {
    match json_of(h, h.len(), req) {
        Err(m) => Err(m),
        Ok(j) => match j {
            JsonV::Object(m) => if member_at(m, "model"@, 0) < m.len() {
                Ok(json_text(JsonV::Object(with_member(m, "stream"@, JsonV::Bool(stream)))))
            } else {
                match model {
                    None => Err("no model: pass req.model or set HOP_LLM_MODEL"@),
                    Some(name) => Ok(
                        json_text(
                            JsonV::Object(
                                with_member(
                                    with_member(m, "model"@, JsonV::Str(name)),
                                    "stream"@,
                                    JsonV::Bool(stream),
                                ),
                            ),
                        ),
                    ),
                }
            },
            _ => Err("llm request must be a map"@),
        },
    }
}

/// The text of a variable of an effect.
pub open spec fn var_text(h: Seq<CellV>, vars: Value, k: Seq<char>) -> Seq<char> {
    match text_of(h, field_of(h, vars, k)) {
        Some(s) => s,
        None => Seq::empty(),
    }
}

/// What a call of an effect gives: the streams then, and the orders.
pub open spec fn handled(
    h: Seq<CellV>,
    f: Seq<FactV>,
    e: EffectsV,
    flow: Seq<char>,
    hop: Seq<char>,
    vars: Value,
    model: Option<Seq<char>>,
) -> (EffectsV, TryV<Seq<OrderV>>) {
    if hop == "bash"@ {
        match coerced(h, f, field_of(h, vars, "cmd"@)) {
            TryV::Done(cmd) => (
                e,
                TryV::Done(
                    seq![OrderV::Bash { flow, cmd, dir: var_text(h, vars, "dir"@) }],
                ),
            ),
            TryV::Fail(m) => (e, TryV::Fail(m)),
            TryV::Need(q) => (e, TryV::Need(q)),
        }
    } else if hop == "llm"@ {
        (
            e,
            TryV::Done(
                seq![
                    OrderV::Llm {
                        flow,
                        body: llm_body_of(h, field_of(h, vars, "req"@), model, false),
                    },
                ],
            ),
        )
    } else if hop == "llm_start"@ {
        let n = crate::flow::next_number(e.next_id);
        let handle = "llm:"@ + dec(n as nat);
        (
            EffectsV { streams: e.streams.push((handle, fresh_stream())), next_id: n },
            TryV::Done(
                seq![
                    OrderV::Stream {
                        handle,
                        body: llm_body_of(h, field_of(h, vars, "req"@), model, true),
                    },
                    OrderV::Deliver(reply_data(flow, DataV::Text(handle))),
                ],
            ),
        )
    } else if hop == "llm_models"@ {
        (e, TryV::Done(seq![OrderV::Models { flow }]))
    } else if hop == "llm_next"@ {
        match coerced(h, f, field_of(h, vars, "h"@)) {
            TryV::Fail(m) => (e, TryV::Fail(m)),
            TryV::Need(q) => (e, TryV::Need(q)),
            TryV::Done(handle) => {
                let i = stream_place(e.streams, handle, 0);
                if i < e.streams.len() {
                    let (s, r) = asked(e.streams[i].1, flow);
                    (
                        EffectsV { streams: with_stream(e.streams, i, s), ..e },
                        TryV::Done(
                            match r {
                                Some(d) => seq![OrderV::Deliver(d)],
                                None => Seq::empty(),
                            },
                        ),
                    )
                } else {
                    (
                        e,
                        TryV::Done(
                            seq![
                                OrderV::Deliver(
                                    error_data(flow, "unknown stream "@ + handle),
                                ),
                            ],
                        ),
                    )
                }
            },
        }
    } else {
        (
            e,
            TryV::Done(seq![OrderV::Deliver(error_data(flow, "unknown effect "@ + hop))]),
        )
    }
}

/// What a part that came in for a stream gives.
pub open spec fn chunk_in(e: EffectsV, handle: Seq<char>, delta: Seq<char>) -> (
    EffectsV,
    Option<DataV>,
) {
    let i = stream_place(e.streams, handle, 0);
    if i < e.streams.len() {
        let (s, r) = chunked(e.streams[i].1, delta);
        (EffectsV { streams: with_stream(e.streams, i, s), ..e }, r)
    } else {
        (e, None)
    }
}

/// What the end that came in for a stream gives.
pub open spec fn done_in(e: EffectsV, handle: Seq<char>, said: SaidV) -> (EffectsV, Option<DataV>) {
    let i = stream_place(e.streams, handle, 0);
    if i < e.streams.len() {
        let (s, r) = completed(e.streams[i].1, said);
        (EffectsV { streams: with_stream(e.streams, i, s), ..e }, r)
    } else {
        (e, None)
    }
}

fn text(s: &str) -> (r: Data)
    ensures
        r@ == DataV::Text(s@),
{
    Data::Text(s.to_owned())
}

/// The reply that resumes a flow.
pub fn effect_reply(flow: &str, value: Data) -> (r: Data)
    ensures
        r@ == reply_data(flow@, value@),
{
    let mut m: Vec<(Data, Data)> = no_fields();
    push_field(&mut m, "flow", text(flow));
    push_field(&mut m, "kind", text("reply"));
    push_field(&mut m, "to", text("server"));
    push_field(&mut m, "value", value);
    assert(pairs_v(m) =~= reply_data(flow@, value@)->Dict_0);
    fields_data(m)
}

/// The error that a flow gets.
pub fn effect_error(flow: &str, err: &str) -> (r: Data)
    ensures
        r@ == error_data(flow@, err@),
{
    let mut m: Vec<(Data, Data)> = no_fields();
    push_field(&mut m, "err", text(err));
    push_field(&mut m, "flow", text(flow));
    push_field(&mut m, "kind", text("error"));
    push_field(&mut m, "to", text("server"));
    assert(pairs_v(m) =~= error_data(flow@, err@)->Dict_0);
    fields_data(m)
}

fn call_to_data(c: &ToolCall) -> (r: Data)
    ensures
        r@ == call_data(c@),
{
    let mut m: Vec<(Data, Data)> = no_fields();
    push_field(&mut m, "args", text(c.args.as_str()));
    push_field(&mut m, "id", text(c.id.as_str()));
    push_field(&mut m, "name", text(c.name.as_str()));
    assert(pairs_v(m) =~= call_data(c@)->Dict_0);
    fields_data(m)
}

/// Tool calls as data.
pub fn tool_calls_value(calls: &Vec<ToolCall>) -> (r: Data)
    ensures
        r@ == calls_data(calls_v(calls@)),
{
    let mut out: Vec<Data> = Vec::new();
    let mut i: usize = 0;
    while i < calls.len()
        invariant
            i <= calls@.len(),
            out@.len() == i,
            forall|j: int| 0 <= j < i ==> (#[trigger] out@[j])@ == call_data(calls@[j]@),
        decreases calls@.len() - i,
    {
        out.push(call_to_data(&calls[i]));
        i = i + 1;
    }
    proof {
        lemma_items(out);
        let want = calls_v(calls@).map_values(|c: ToolCallV| call_data(c));
        assert forall|j: int| 0 <= j < out@.len() implies items_v(out)[j] == want[j] by {
            assert(items_v(out)[j] == out@[j]@);
            assert(out@[j]@ == call_data(calls@[j]@));
        }
        assert(items_v(out) =~= want);
    }
    Data::Array(out)
}

fn end_to_data(s: &Said) -> (r: Data)
    ensures
        r@ == end_value(said_v(*s)),
{
    let mut m: Vec<(Data, Data)> = no_fields();
    match s {
        Ok((t, calls)) => {
            push_field(&mut m, "done", Data::Bool(true));
            push_field(&mut m, "text", text(t.as_str()));
            let ghost base = pairs_v(m);
            assert(base =~= seq![
                (DataV::Text("done"@), DataV::Bool(true)),
                (DataV::Text("text"@), DataV::Text(t@)),
            ]);
            if calls.len() > 0 {
                let d: Data = tool_calls_value(calls);
                push_field(&mut m, "tool_calls", d);
                assert(pairs_v(m) =~= base + seq![(DataV::Text("tool_calls"@), d@)]);
            } else {
                assert(calls_v(calls@).len() == 0);
                assert(pairs_v(m) =~= base + Seq::<(DataV, DataV)>::empty());
            }
        },
        Err(e) => {
            push_field(&mut m, "error", text(e.as_str()));
            assert(pairs_v(m) =~= seq![(DataV::Text("error"@), DataV::Text(e@))]);
        },
    }
    fields_data(m)
}

impl LlmStream {
    pub fn new() -> (r: LlmStream)
        ensures
            r@ == fresh_stream(),
    {
        let r = LlmStream { buf: Vec::new(), done: None, pending: None };
        assert(r@.buf =~= Seq::<Seq<char>>::empty());
        r
    }

    /// What comes next out of the stream, if anything is there.
    pub fn next_value(&mut self) -> (r: Option<Data>)
        ensures
            match (r, next_value_of(old(self)@)) {
                (Some(x), Some(y)) => x@ == y && final(self)@ == taken(old(self)@),
                (None, None) => final(self)@ == old(self)@,
                _ => false,
            },
    {
        let ghost before = self.buf@;
        if self.buf.len() > 0 {
            let delta: String = self.buf.remove(0);
            assert(texts(self.buf@) =~= texts(before).skip(1));
            assert(texts(before)[0] == delta@);
            let mut m: Vec<(Data, Data)> = no_fields();
            push_field(&mut m, "delta", text(delta.as_str()));
            assert(pairs_v(m) =~= seq![(DataV::Text("delta"@), DataV::Text(delta@))]);
            return Some(fields_data(m));
        }
        assert(texts(before).len() == 0);
        match &self.done {
            Some(s) => Some(end_to_data(s)),
            None => None,
        }
    }

    /// What comes next is the end.
    pub fn is_final(&self) -> (r: bool)
        ensures
            r == at_end(self@),
    {
        assert(texts(self.buf@).len() == self.buf@.len());
        self.buf.len() == 0 && self.done.is_some()
    }

    /// A reply for the flow that waits, if one is ready; and whether that was
    /// the end.
    pub fn wake(&mut self) -> (r: (Option<Data>, bool))
        ensures
            ({
                let (s, d) = woken(old(self)@);
                &&& match (r.0, d) {
                    (Some(x), Some(y)) => x@ == y,
                    (None, None) => true,
                    _ => false,
                }
                &&& r.1 == (s is None)
                &&& s matches Some(t) ==> final(self)@ == t
            }),
    {
        let flow: String = match &self.pending {
            None => {
                return (None, false);
            },
            Some(f) => f.clone(),
        };
        let last: bool = self.is_final();
        match self.next_value() {
            None => (None, false),
            Some(v) => {
                self.pending = None;
                (Some(effect_reply(flow.as_str(), v)), last)
            },
        }
    }
}

fn one_order(o: Order) -> (r: Vec<Order>)
    ensures
        orders_v(r@) == seq![o@],
{
    let mut v: Vec<Order> = Vec::new();
    v.push(o);
    assert(orders_v(v@) =~= seq![o@]);
    v
}

/// The body of a request to a model.
pub fn llm_body(heap: &Heap, req: Value, model: Option<&str>, stream: bool) -> (r: Result<
    String,
    String,
>)
    ensures
        body_v(r) == llm_body_of(heap@, req, opt(model), stream),
{
    match heap.to_json(req)? {
        Json::Object(m) => {
            let ghost mv = members_v(m);
            proof {
                lemma_members(m);
            }
            let mut i: usize = 0;
            while i < m.len() && !text_eq(m[i].0.as_str(), "model")
                invariant
                    i <= m@.len(),
                    mv == members_v(m),
                    mv.len() == m@.len(),
                    forall|j: int| 0 <= j < m@.len() ==> #[trigger] mv[j] == (m@[j].0@, m@[j].1@),
                    member_at(mv, "model"@, 0) == member_at(mv, "model"@, i as int),
                decreases m@.len() - i,
            {
                assert(mv[i as int] == (m@[i as int].0@, m@[i as int].1@));
                i = i + 1;
            }
            if i < m.len() {
                assert(mv[i as int] == (m@[i as int].0@, m@[i as int].1@));
            }
            let mut m: Vec<(String, Json)> = m;
            if i >= m.len() {
                match model {
                    None => {
                        return Err("no model: pass req.model or set HOP_LLM_MODEL".to_owned());
                    },
                    Some(name) => {
                        set_member(&mut m, "model", Json::Str(name.to_owned()));
                    },
                }
            }
            set_member(&mut m, "stream", Json::Bool(stream));
            proof {
                lemma_members(m);
            }
            Ok(print_json(&Json::Object(m)))
        },
        _ => Err("llm request must be a map".to_owned()),
    }
}

impl Effects {
    pub fn new() -> (r: Effects)
        ensures
            r@ == (EffectsV { streams: Seq::empty(), next_id: 0 }),
    {
        let r = Effects { streams: Vec::new(), next_id: 0 };
        assert(r@.streams =~= Seq::<(Seq<char>, StreamV)>::empty());
        r
    }

    fn stream_at(&self, h: &str) -> (i: usize)
        ensures
            i == stream_place(self@.streams, h@, 0),
            i <= self.streams@.len(),
    {
        let ghost ss = self@.streams;
        let mut i: usize = 0;
        while i < self.streams.len() && !text_eq(self.streams[i].0.as_str(), h)
            invariant
                i <= self.streams@.len(),
                ss == self@.streams,
                stream_place(ss, h@, 0) == stream_place(ss, h@, i as int),
            decreases self.streams@.len() - i,
        {
            assert(ss[i as int].0 == self.streams@[i as int].0@);
            i = i + 1;
        }
        if i < self.streams.len() {
            assert(ss[i as int].0 == self.streams@[i as int].0@);
        }
        i
    }

    /// The stream of that handle goes on.
    pub fn has_stream(&self, h: &str) -> (r: bool)
        ensures
            r == (stream_place(self@.streams, h@, 0) < self@.streams.len()),
    {
        self.stream_at(h) < self.streams.len()
    }

    fn next(&mut self, i: usize, flow: &str) -> (r: Option<Data>)
        requires
            i < old(self).streams@.len(),
        ensures
            ({
                let (s, d) = asked(old(self)@.streams[i as int].1, flow@);
                &&& final(self)@ == (EffectsV {
                    streams: with_stream(old(self)@.streams, i as int, s),
                    ..old(self)@
                })
                &&& match (r, d) {
                    (Some(x), Some(y)) => x@ == y,
                    (None, None) => true,
                    _ => false,
                }
            }),
    {
        let ghost before = self.streams@;
        let (name, mut s) = self.streams.remove(i);
        let last: bool = s.is_final();
        match s.next_value() {
            Some(v) => {
                if !last {
                    self.streams.insert(i, (name, s));
                    assert(streams_v(self.streams@) =~= streams_v(before).update(
                        i as int,
                        (before[i as int].0@, s@),
                    ));
                } else {
                    assert(streams_v(self.streams@) =~= streams_v(before).remove(i as int));
                }
                Some(effect_reply(flow, v))
            },
            None => {
                s.pending = Some(flow.to_owned());
                self.streams.insert(i, (name, s));
                assert(streams_v(self.streams@) =~= streams_v(before).update(
                    i as int,
                    (before[i as int].0@, s@),
                ));
                None
            },
        }
    }

    /// A call of an effect: what is to be done outside, and delivered. `model`
    /// is the one to ask where a request names none.
    pub fn handle(
        &mut self,
        heap: &Heap,
        floats: &FloatTable,
        flow: &str,
        hop: &str,
        vars: Value,
        model: Option<&str>,
    ) -> (r: Try<Vec<Order>>)
        ensures
            ({
                let (e, o) = handled(heap@, floats@, old(self)@, flow@, hop@, vars, opt(model));
                &&& final(self)@ == e
                &&& match (r, o) {
                    (Try::Done(x), TryV::Done(y)) => orders_v(x@) == y,
                    (Try::Fail(x), TryV::Fail(y)) => x@ == y,
                    (Try::Need(x), TryV::Need(y)) => x@ == y,
                    _ => false,
                }
            }),
    {
        if text_eq(hop, "bash") {
            match heap.coerce_str(floats, heap.get_field(vars, "cmd")) {
                Try::Done(cmd) => {
                    let dir: String = match heap.as_str(heap.get_field(vars, "dir")) {
                        Some(s) => s.to_owned(),
                        None => {
                            let none: String = String::new();
                            assert(none@ =~= Seq::<char>::empty());
                            none
                        },
                    };
                    Try::Done(one_order(Order::Bash { flow: flow.to_owned(), cmd, dir }))
                },
                Try::Fail(m) => Try::Fail(m),
                Try::Need(q) => Try::Need(q),
            }
        } else if text_eq(hop, "llm") {
            let body: Result<String, String> = llm_body(
                heap,
                heap.get_field(vars, "req"),
                model,
                false,
            );
            Try::Done(one_order(Order::Llm { flow: flow.to_owned(), body }))
        } else if text_eq(hop, "llm_start") {
            let ghost before = self.streams@;
            self.next_id = if self.next_id == u64::MAX {
                0
            } else {
                self.next_id + 1
            };
            let mut handle: String = "llm:".to_owned();
            handle.append(dec_u64(self.next_id).as_str());
            let s: LlmStream = LlmStream::new();
            self.streams.push((handle.clone(), s));
            assert(streams_v(self.streams@) =~= streams_v(before).push((handle@, fresh_stream())));
            let body: Result<String, String> = llm_body(
                heap,
                heap.get_field(vars, "req"),
                model,
                true,
            );
            let reply: Data = effect_reply(flow, text(handle.as_str()));
            let mut out: Vec<Order> = one_order(Order::Stream { handle, body });
            let ghost first = out@;
            out.push(Order::Deliver(reply));
            assert(orders_v(out@) =~= orders_v(first).push(OrderV::Deliver(reply@)));
            assert(orders_v(out@) =~= seq![
                OrderV::Stream { handle: handle@, body: body_v(body) },
                OrderV::Deliver(reply@),
            ]);
            Try::Done(out)
        } else if text_eq(hop, "llm_models") {
            Try::Done(one_order(Order::Models { flow: flow.to_owned() }))
        } else if text_eq(hop, "llm_next") {
            match heap.coerce_str(floats, heap.get_field(vars, "h")) {
                Try::Fail(m) => Try::Fail(m),
                Try::Need(q) => Try::Need(q),
                Try::Done(handle) => {
                    let i: usize = self.stream_at(handle.as_str());
                    if i < self.streams.len() {
                        match self.next(i, flow) {
                            Some(d) => Try::Done(one_order(Order::Deliver(d))),
                            None => {
                                let none: Vec<Order> = Vec::new();
                                assert(orders_v(none@) =~= Seq::<OrderV>::empty());
                                Try::Done(none)
                            },
                        }
                    } else {
                        let mut m: String = "unknown stream ".to_owned();
                        m.append(handle.as_str());
                        Try::Done(one_order(Order::Deliver(effect_error(flow, m.as_str()))))
                    }
                },
            }
        } else {
            let mut m: String = "unknown effect ".to_owned();
            m.append(hop);
            Try::Done(one_order(Order::Deliver(effect_error(flow, m.as_str()))))
        }
    }

    fn wake_at(&mut self, i: usize) -> (r: Option<Data>)
        requires
            i < old(self).streams@.len(),
        ensures
            ({
                let (s, d) = woken(old(self)@.streams[i as int].1);
                &&& final(self)@ == (EffectsV {
                    streams: with_stream(old(self)@.streams, i as int, s),
                    ..old(self)@
                })
                &&& match (r, d) {
                    (Some(x), Some(y)) => x@ == y,
                    (None, None) => true,
                    _ => false,
                }
            }),
    {
        let ghost before = self.streams@;
        let (name, mut s) = self.streams.remove(i);
        let (reply, last) = s.wake();
        if !last {
            self.streams.insert(i, (name, s));
            assert(streams_v(self.streams@) =~= streams_v(before).update(
                i as int,
                (before[i as int].0@, s@),
            ));
        } else {
            assert(streams_v(self.streams@) =~= streams_v(before).remove(i as int));
        }
        reply
    }

    /// A part of an answer has come in; the reply is for the flow that waits.
    pub fn on_chunk(&mut self, handle: &str, delta: String) -> (r: Option<Data>)
        ensures
            ({
                let (e, d) = chunk_in(old(self)@, handle@, delta@);
                &&& final(self)@ == e
                &&& match (r, d) {
                    (Some(x), Some(y)) => x@ == y,
                    (None, None) => true,
                    _ => false,
                }
            }),
    {
        let i: usize = self.stream_at(handle);
        if i >= self.streams.len() {
            return None;
        }
        let ghost before = self.streams@;
        let (name, mut s) = self.streams.remove(i);
        let ghost buf = s.buf@;
        s.buf.push(delta);
        assert(texts(s.buf@) =~= texts(buf).push(delta@));
        self.streams.insert(i, (name, s));
        proof {
            let mid = streams_v(before).update(i as int, (before[i as int].0@, s@));
            assert(streams_v(self.streams@) =~= mid);
            let (t, d) = woken(s@);
            assert(with_stream(mid, i as int, t) =~= with_stream(
                streams_v(before),
                i as int,
                t,
            ));
        }
        self.wake_at(i)
    }

    /// The end of an answer has come in; the reply is for the flow that waits.
    pub fn on_done(&mut self, handle: &str, said: Said) -> (r: Option<Data>)
        ensures
            ({
                let (e, d) = done_in(old(self)@, handle@, said_v(said));
                &&& final(self)@ == e
                &&& match (r, d) {
                    (Some(x), Some(y)) => x@ == y,
                    (None, None) => true,
                    _ => false,
                }
            }),
    {
        let i: usize = self.stream_at(handle);
        if i >= self.streams.len() {
            return None;
        }
        let ghost before = self.streams@;
        let (name, mut s) = self.streams.remove(i);
        s.done = Some(said);
        self.streams.insert(i, (name, s));
        proof {
            let mid = streams_v(before).update(i as int, (before[i as int].0@, s@));
            assert(streams_v(self.streams@) =~= mid);
            let (t, d) = woken(s@);
            assert(with_stream(mid, i as int, t) =~= with_stream(
                streams_v(before),
                i as int,
                t,
            ));
        }
        self.wake_at(i)
    }
}

/// What can happen to a stream: a part or the end comes in, or a flow asks for
/// more.
pub enum StreamEvent {
    Chunk(Seq<char>),
    Done(SaidV),
    Next(Seq<char>),
}

/// What has happened on a stream: the stream, if it is not spent, the parts
/// that came in, the replies that went out, and how many of them were parts.
pub struct HistoryV {
    pub stream: Option<StreamV>,
    pub chunks: Seq<Seq<char>>,
    pub replies: Seq<DataV>,
    pub unknown: int,
}

pub open spec fn replied_with(h: HistoryV, s: Option<StreamV>, r: Option<DataV>) -> HistoryV {
    HistoryV {
        stream: s,
        replies: match r {
            Some(d) => h.replies.push(d),
            None => h.replies,
        },
        ..h
    }
}

/// The history once `n` events have happened. What happens once the stream is
/// spent is counted as unknown.
pub open spec fn history(evs: Seq<StreamEvent>, n: int) -> HistoryV
    decreases n,
{
    if n <= 0 || n > evs.len() {
        HistoryV {
            stream: Some(fresh_stream()),
            chunks: Seq::empty(),
            replies: Seq::empty(),
            unknown: 0,
        }
    } else {
        let h = history(evs, n - 1);
        match h.stream {
            None => HistoryV { unknown: h.unknown + 1, ..h },
            Some(s) => match evs[n - 1] {
                StreamEvent::Chunk(d) => {
                    let (t, r) = chunked(s, d);
                    replied_with(HistoryV { chunks: h.chunks.push(d), ..h }, t, r)
                },
                StreamEvent::Done(e) => {
                    let (t, r) = completed(s, e);
                    replied_with(h, t, r)
                },
                StreamEvent::Next(flow) => {
                    let (t, r) = asked(s, flow);
                    replied_with(h, t, r)
                },
            },
        }
    }
}

/// The events are those of one producer, whose end comes last and once, and of
/// one flow that asks for more only once it has its reply, and not beyond the
/// end.
pub open spec fn well_behaved(evs: Seq<StreamEvent>, flow: Seq<char>) -> bool {
    forall|k: int|
        0 <= k < evs.len() ==> match #[trigger] evs[k] {
            StreamEvent::Chunk(_) => forall|j: int| 0 <= j < k ==> !(#[trigger] evs[j] is Done),
            StreamEvent::Done(_) => forall|j: int| 0 <= j < k ==> !(#[trigger] evs[j] is Done),
            StreamEvent::Next(f) => f == flow && (history(evs, k).stream matches Some(s)
                && s.pending is None),
        }
}

/// The replies are the parts `ds`, in order.
pub open spec fn parts_out(rs: Seq<DataV>, flow: Seq<char>, ds: Seq<Seq<char>>) -> bool {
    rs == ds.map_values(|d: Seq<char>| reply_data(flow, delta_value(d)))
}

/// The producer ended with `e` among the first `n` events.
pub open spec fn ended_with(evs: Seq<StreamEvent>, n: int, e: SaidV) -> bool {
    exists|j: int| 0 <= j < n && #[trigger] evs[j] == StreamEvent::Done(e)
}

/// Whatever the order in which parts come in and the flow asks for them, the
/// flow gets the parts in order, without a gap, as far as they came in; once
/// the stream is spent it has got all of them and then the producer's end, once;
/// and nothing happens to a stream that is spent.
pub proof fn law_all_parts_then_the_end(evs: Seq<StreamEvent>, flow: Seq<char>, n: int)
    requires
        0 <= n <= evs.len(),
        well_behaved(evs, flow),
    ensures
        ({
            let h = history(evs, n);
            &&& h.unknown == 0
            &&& match h.stream {
                Some(s) => {
                    &&& s.buf.len() <= h.chunks.len()
                    &&& parts_out(h.replies, flow, h.chunks.take(h.chunks.len() - s.buf.len()))
                    &&& s.buf == h.chunks.skip(h.chunks.len() - s.buf.len())
                    &&& s.pending matches Some(f) ==> f == flow && s.buf.len() == 0 && s.done
                        is None
                    &&& s.done is Some <==> exists|j: int| 0 <= j < n && #[trigger] evs[j] is Done
                    &&& s.done matches Some(e) ==> ended_with(evs, n, e)
                },
                None => {
                    &&& h.replies.len() > 0
                    &&& parts_out(h.replies.drop_last(), flow, h.chunks)
                    &&& exists|e: SaidV| #[trigger]
                        ended_with(evs, n, e) && h.replies.last() == reply_data(
                            flow,
                            end_value(e),
                        )
                },
            }
        }),
    decreases n,
{
    if n > 0 {
        law_all_parts_then_the_end(evs, flow, n - 1);
        let h = history(evs, n - 1);
        let g = history(evs, n);
        let ev = evs[n - 1];
        match h.stream {
            None => {
                match ev {
                    StreamEvent::Next(f) => {},
                    _ => {
                        let e = choose|e: SaidV| #[trigger]
                            ended_with(evs, n - 1, e) && h.replies.last() == reply_data(
                                flow,
                                end_value(e),
                            );
                        let j = choose|j: int|
                            0 <= j < n - 1 && #[trigger] evs[j] == StreamEvent::Done(e);
                        assert(evs[j] is Done);
                    },
                }
            },
            Some(s) => {
                let k = h.chunks.len() - s.buf.len();
                if let Some(e) = s.done {
                    let j = choose|j: int|
                        0 <= j < n - 1 && #[trigger] evs[j] == StreamEvent::Done(e);
                    assert(evs[j] == StreamEvent::Done(e));
                    assert(ended_with(evs, n, e));
                }
                match ev {
                    StreamEvent::Chunk(d) => {
                        assert(s.done is None) by {
                            if s.done is Some {
                                let j = choose|j: int| 0 <= j < n - 1 && #[trigger] evs[j] is Done;
                                assert(evs[j] is Done);
                            }
                        }
                        lemma_done_step(evs, n);
                        if s.pending is Some {
                            assert(h.chunks.take(k) =~= h.chunks);
                            assert(s.buf.push(d) =~= seq![d]);
                            assert(seq![d].skip(1) =~= Seq::<Seq<char>>::empty());
                            assert(g.chunks.take(g.chunks.len() as int) =~= g.chunks);
                            assert(g.replies =~= g.chunks.map_values(
                                |x: Seq<char>| reply_data(flow, delta_value(x)),
                            ));
                            assert(g.chunks.skip(g.chunks.len() as int) =~= Seq::<
                                Seq<char>,
                            >::empty());
                        } else {
                            assert(g.chunks.take(k) =~= h.chunks.take(k));
                            assert(s.buf.push(d) =~= g.chunks.skip(k));
                        }
                    },
                    StreamEvent::Done(e) => {
                        lemma_done_step(evs, n);
                        assert(evs[n - 1] == StreamEvent::Done(e));
                        assert(ended_with(evs, n, e));
                        if s.pending is Some {
                            assert(h.chunks.take(k) =~= h.chunks);
                            assert(g.replies.drop_last() =~= h.replies);
                            assert(g.replies.last() == reply_data(flow, end_value(e)));
                        }
                    },
                    StreamEvent::Next(f) => {
                        lemma_done_step(evs, n);
                        assert(f == flow && s.pending is None);
                        if s.buf.len() > 0 {
                            assert(s.buf[0] == h.chunks[k]);
                            assert(h.chunks.take(k + 1) =~= h.chunks.take(k).push(h.chunks[k]));
                            assert(g.replies =~= h.chunks.take(k + 1).map_values(
                                |x: Seq<char>| reply_data(flow, delta_value(x)),
                            ));
                            assert(s.buf.skip(1) =~= h.chunks.skip(k + 1));
                        } else if s.done is Some {
                            assert(h.chunks.take(k) =~= h.chunks);
                            assert(g.replies.drop_last() =~= h.replies);
                            assert(g.replies.last() == reply_data(flow, end_value(s.done->Some_0)));
                        } else {
                            assert(g.replies == h.replies);
                        }
                    },
                }
            },
        }
    } else {
        let h = history(evs, 0);
        assert(h.chunks.take(0) =~= Seq::<Seq<char>>::empty());
        assert(h.chunks.skip(0) =~= Seq::<Seq<char>>::empty());
        assert(h.replies =~= h.chunks.take(0).map_values(
            |x: Seq<char>| reply_data(flow, delta_value(x)),
        ));
    }
}

proof fn lemma_done_step(evs: Seq<StreamEvent>, n: int)
    requires
        0 < n <= evs.len(),
    ensures
        (exists|j: int| 0 <= j < n && #[trigger] evs[j] is Done) <==> (evs[n - 1] is Done || exists|
            j: int,
        |
            0 <= j < n - 1 && #[trigger] evs[j] is Done),
{
    if exists|j: int| 0 <= j < n && #[trigger] evs[j] is Done {
        let j = choose|j: int| 0 <= j < n && #[trigger] evs[j] is Done;
        if j < n - 1 {
            assert(evs[j] is Done);
        }
    }
    if evs[n - 1] is Done {
        assert(evs[n - 1] is Done);
    }
}

} // verus!
