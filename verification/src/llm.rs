//! What commands and models answer, read from the bytes they send.

use crate::data::{pairs_v, Data, DataV};
use crate::effects::{
    calls_data, calls_v, said_v, tool_calls_value, Said, SaidV, ToolCall, ToolCallV,
};
use crate::json::{
    copy_json, json_read, lemma_members, lemma_values, member_at, member_of, members_v, parse_json,
    values_v, Json, JsonV,
};
use crate::modules::{fields_data, no_fields, push_field};
use crate::text::{chars_of, slice_of, string_of, text_eq, texts, trim, trimmed};
use vstd::prelude::*;
use vstd::string::*;

verus! {

/// The element `i`; null where there is none.
pub open spec fn element_of(v: JsonV, i: int) -> JsonV {
    match v {
        JsonV::Array(xs) => if 0 <= i < xs.len() {
            xs[i]
        } else {
            JsonV::Null
        },
        _ => JsonV::Null,
    }
}

/// The element `i`; null where there is none.
pub fn element(v: &Json, i: usize) -> (r: Json)
    ensures
        r@ == element_of(v@, i as int),
{
    match v {
        Json::Array(xs) => {
            proof {
                lemma_values(*xs);
            }
            if i < xs.len() {
                assert(values_v(*xs)[i as int] == xs@[i as int]@);
                copy_json(&xs[i])
            } else {
                Json::Null
            }
        },
        _ => Json::Null,
    }
}

/// The text that a value is.
pub open spec fn str_value(v: JsonV) -> Option<Seq<char>> {
    match v {
        JsonV::Str(s) => Some(s),
        _ => None,
    }
}

/// The text that a value is, or nothing.
pub open spec fn str_or_empty(v: JsonV) -> Seq<char> {
    match v {
        JsonV::Str(s) => s,
        _ => Seq::empty(),
    }
}

fn take_str(v: Json) -> (r: Option<String>)
    ensures
        match (r, str_value(v@)) {
            (Some(x), Some(y)) => x@ == y,
            (None, None) => true,
            _ => false,
        },
{
    match v {
        Json::Str(s) => Some(s),
        _ => None,
    }
}

fn take_str_or_empty(v: Json) -> (r: String)
    ensures
        r@ == str_or_empty(v@),
{
    match v {
        Json::Str(s) => s,
        _ => {
            let none: String = String::new();
            assert(none@ =~= Seq::<char>::empty());
            none
        },
    }
}

/// The index of a fragment; zero where it has none.
pub open spec fn index_value(v: JsonV) -> u64 {
    match v {
        JsonV::Int(n) => if n >= 0 {
            n as u64
        } else {
            0
        },
        JsonV::UInt(n) => n,
        _ => 0,
    }
}

fn take_index(v: &Json) -> (r: u64)
    ensures
        r == index_value(v@),
{
    match v {
        Json::Int(n) => if *n >= 0 {
            *n as u64
        } else {
            0
        },
        Json::UInt(n) => *n,
        _ => 0,
    }
}

/// A call of which nothing is known.
pub open spec fn blank_call() -> ToolCallV {
    ToolCallV { id: Seq::empty(), name: Seq::empty(), args: Seq::empty() }
}

/// The calls, `n` of them at least.
pub open spec fn padded(cs: Seq<ToolCallV>, n: int) -> Seq<ToolCallV> {
    if cs.len() >= n {
        cs
    } else {
        cs + Seq::new((n - cs.len()) as nat, |i: int| blank_call())
    }
}

/// A call with a fragment of it: id and name are set, arguments appended.
pub open spec fn with_fragment(c: ToolCallV, t: JsonV) -> ToolCallV {
    let f = member_of(t, "function"@);
    ToolCallV {
        id: match str_value(member_of(t, "id"@)) {
            Some(s) => s,
            None => c.id,
        },
        name: match str_value(member_of(f, "name"@)) {
            Some(s) => s,
            None => c.name,
        },
        args: match str_value(member_of(f, "arguments"@)) {
            Some(s) => c.args + s,
            None => c.args,
        },
    }
}

/// The calls with a fragment, which goes to the call of its index.
pub open spec fn fragment_in(cs: Seq<ToolCallV>, t: JsonV) -> Seq<ToolCallV> {
    let i = index_value(member_of(t, "index"@)) as int;
    let ps = padded(cs, i + 1);
    ps.update(i, with_fragment(ps[i], t))
}

/// The calls with the first `n` fragments.
pub open spec fn fragments_in(cs: Seq<ToolCallV>, ts: Seq<JsonV>, n: int) -> Seq<ToolCallV>
    decreases n,
{
    if n <= 0 || n > ts.len() {
        cs
    } else {
        fragment_in(fragments_in(cs, ts, n - 1), ts[n - 1])
    }
}

/// What is read of a streamed answer: its text, its calls, and whether it is
/// over.
pub struct ReaderV {
    pub text: Seq<char>,
    pub calls: Seq<ToolCallV>,
    pub over: bool,
}

/// The data of a line, if it is one that carries data.
pub open spec fn line_data(line: Seq<char>) -> Option<Seq<char>> {
    if line.len() >= 5 && line.take(5) == "data:"@ {
        Some(trimmed(line.skip(5)))
    } else {
        None
    }
}

/// What a message of the stream adds: the part of the text in it, if any.
pub open spec fn message_read(r: ReaderV, j: JsonV) -> Result<(ReaderV, Option<Seq<char>>), Seq<char>> {
    if has_member(j, "error"@) {
        Err(
            match str_value(member_of(member_of(j, "error"@), "message"@)) {
                Some(s) => s,
                None => "llm stream error"@,
            },
        )
    } else if !indexed(fragments_of(j)) {
        Err("tool call index out of range"@)
    } else {
        let delta = member_of(element_of(member_of(j, "choices"@), 0), "delta"@);
        let part = match str_value(member_of(delta, "content"@)) {
            Some(s) => if s.len() > 0 {
                Some(s)
            } else {
                None
            },
            None => None,
        };
        let text = match part {
            Some(s) => r.text + s,
            None => r.text,
        };
        let calls = match member_of(delta, "tool_calls"@) {
            JsonV::Array(ts) => fragments_in(r.calls, ts, ts.len() as int),
            _ => r.calls,
        };
        Ok((ReaderV { text, calls, ..r }, part))
    }
}

/// The object has the member `k`.
pub open spec fn has_member(v: JsonV, k: Seq<char>) -> bool {
    match v {
        JsonV::Object(m) => member_at(m, k, 0) < m.len(),
        _ => false,
    }
}

/// What one line of the stream adds. Lines that carry no data, or data that is
/// no JSON, add nothing, and so do lines behind the end.
pub open spec fn line_read(r: ReaderV, line: Seq<char>) -> Result<
    (ReaderV, Option<Seq<char>>),
    Seq<char>,
> {
    if r.over {
        Ok((r, None))
    } else {
        match line_data(line) {
            None => Ok((r, None)),
            Some(data) => if data == "[DONE]"@ {
                Ok((ReaderV { over: true, ..r }, None))
            } else {
                match json_read(data) {
                    Err(_) => Ok((r, None)),
                    Ok(j) => message_read(r, j),
                }
            },
        }
    }
}

/// Reads a streamed answer, line by line.
pub struct StreamReader {
    pub text: String,
    pub calls: Vec<ToolCall>,
    pub over: bool,
}

impl View for StreamReader {
    type V = ReaderV;

    open spec fn view(&self) -> ReaderV {
        ReaderV { text: self.text@, calls: calls_v(self.calls@), over: self.over }
    }
}

fn member_known(v: &Json, k: &str) -> (r: bool)
    ensures
        r == has_member(v@, k@),
{
    match v {
        Json::Object(m) => {
            let ghost mv = members_v(*m);
            proof {
                lemma_members(*m);
            }
            let mut i: usize = 0;
            while i < m.len() && !text_eq(m[i].0.as_str(), k)
                invariant
                    i <= m@.len(),
                    mv == members_v(*m),
                    mv.len() == m@.len(),
                    forall|j: int| 0 <= j < m@.len() ==> #[trigger] mv[j] == (m@[j].0@, m@[j].1@),
                    member_at(mv, k@, 0) == member_at(mv, k@, i as int),
                decreases m@.len() - i,
            {
                assert(mv[i as int] == (m@[i as int].0@, m@[i as int].1@));
                i = i + 1;
            }
            if i < m.len() {
                assert(mv[i as int] == (m@[i as int].0@, m@[i as int].1@));
            }
            i < m.len()
        },
        _ => false,
    }
}

fn empty_call() -> (r: ToolCall)
    ensures
        r@ == blank_call(),
{
    let r = ToolCall { id: String::new(), name: String::new(), args: String::new() };
    assert(r@.id =~= Seq::<char>::empty());
    assert(r@.name =~= Seq::<char>::empty());
    assert(r@.args =~= Seq::<char>::empty());
    r
}

fn add_fragment(calls: &mut Vec<ToolCall>, t: &Json)
    requires
        index_value(member_of(t@, "index"@)) < usize::MAX,
    ensures
        calls_v(final(calls)@) == fragment_in(calls_v(old(calls)@), t@),
{
    let ghost cs = calls_v(calls@);
    let i: usize = take_index(&t.member("index")) as usize;
    while calls.len() <= i
        invariant
            i < usize::MAX,
            calls@.len() <= i + 1 || calls_v(calls@) == cs,
            calls_v(calls@).len() >= cs.len(),
            calls_v(calls@) == padded(cs, calls@.len() as int),
        decreases i + 1 - calls@.len(),
    {
        let ghost before = calls@;
        let c: ToolCall = empty_call();
        calls.push(c);
        assert(calls_v(calls@) =~= calls_v(before).push(blank_call()));
        assert(calls_v(calls@) =~= padded(cs, calls@.len() as int));
    }
    let ghost ps = padded(cs, i + 1);
    assert(calls_v(calls@) =~= ps);
    let ghost before = calls@;
    let mut c: ToolCall = calls.remove(i);
    let ghost c0 = c@;
    assert(c0 == ps[i as int]);
    let f: Json = t.member("function");
    if let Some(s) = take_str(t.member("id")) {
        c.id = s;
    }
    if let Some(s) = take_str(f.member("name")) {
        c.name = s;
    }
    if let Some(s) = take_str(f.member("arguments")) {
        c.args.append(s.as_str());
    }
    assert(c@ == with_fragment(c0, t@));
    calls.insert(i, c);
    assert(calls_v(calls@) =~= ps.update(i as int, c@));
}

/// All fragments have an index that a list can have.
pub open spec fn indexed(ts: Seq<JsonV>) -> bool {
    forall|i: int|
        0 <= i < ts.len() ==> index_value(member_of(#[trigger] ts[i], "index"@)) < usize::MAX
}

fn all_indexed(ts: &Vec<Json>) -> (r: bool)
    ensures
        r == indexed(values_v(*ts)),
{
    let ghost tv = values_v(*ts);
    proof {
        lemma_values(*ts);
    }
    let mut i: usize = 0;
    while i < ts.len()
        invariant
            i <= ts@.len(),
            tv == values_v(*ts),
            tv.len() == ts@.len(),
            forall|j: int| 0 <= j < ts@.len() ==> #[trigger] tv[j] == ts@[j]@,
            forall|j: int|
                0 <= j < i ==> index_value(member_of(#[trigger] tv[j], "index"@)) < usize::MAX,
        decreases ts@.len() - i,
    {
        assert(tv[i as int] == ts@[i as int]@);
        if take_index(&ts[i].member("index")) >= usize::MAX as u64 {
            return false;
        }
        i = i + 1;
    }
    true
}

/// The fragments of a message.
pub open spec fn fragments_of(j: JsonV) -> Seq<JsonV> {
    let delta = member_of(element_of(member_of(j, "choices"@), 0), "delta"@);
    match member_of(delta, "tool_calls"@) {
        JsonV::Array(ts) => ts,
        _ => Seq::empty(),
    }
}

impl StreamReader {
    pub fn new() -> (r: StreamReader)
        ensures
            r@ == (ReaderV { text: Seq::empty(), calls: Seq::empty(), over: false }),
    {
        let r = StreamReader { text: String::new(), calls: Vec::new(), over: false };
        assert(r@.text =~= Seq::<char>::empty());
        assert(r@.calls =~= Seq::<ToolCallV>::empty());
        r
    }

    fn message(&mut self, j: &Json) -> (r: Result<Option<String>, String>)
        ensures
            match (r, message_read(old(self)@, j@)) {
                (Ok(p), Ok((s, q))) => final(self)@ == s && crate::auth::opt_string(p) == q,
                (Err(m), Err(w)) => m@ == w && final(self)@ == old(self)@,
                _ => false,
            },
    {
        if member_known(j, "error") {
            return match take_str(j.member("error").member("message")) {
                Some(s) => Err(s),
                None => Err("llm stream error".to_owned()),
            };
        }
        let delta: Json = element(&j.member("choices"), 0).member("delta");
        let calls: Json = delta.member("tool_calls");
        if let Json::Array(ts) = &calls {
            proof {
                lemma_values(*ts);
            }
            if !all_indexed(ts) {
                return Err("tool call index out of range".to_owned());
            }
        }
        let part: Option<String> = match take_str(delta.member("content")) {
            Some(s) => if crate::auth::is_blank(s.as_str()) {
                None
            } else {
                Some(s)
            },
            None => None,
        };
        if let Some(s) = &part {
            self.text.append(s.as_str());
        }
        if let Json::Array(ts) = &calls {
            let ghost tv = values_v(*ts);
            let ghost cs = calls_v(self.calls@);
            let ghost text = self.text@;
            proof {
                lemma_values(*ts);
            }
            let mut i: usize = 0;
            while i < ts.len()
                invariant
                    i <= ts@.len(),
                    tv == values_v(*ts),
                    tv.len() == ts@.len(),
                    indexed(tv),
                    self.text@ == text,
                    self.over == old(self).over,
                    forall|j: int| 0 <= j < ts@.len() ==> #[trigger] tv[j] == ts@[j]@,
                    calls_v(self.calls@) == fragments_in(cs, tv, i as int),
                decreases ts@.len() - i,
            {
                assert(tv[i as int] == ts@[i as int]@);
                add_fragment(&mut self.calls, &ts[i]);
                i = i + 1;
            }
        }
        Ok(part)
    }

    /// Reads one line: the part of the text in it comes back.
    pub fn line(&mut self, line: &str) -> (r: Result<Option<String>, String>)
        ensures
            match (r, line_read(old(self)@, line@)) {
                (Ok(p), Ok((s, q))) => final(self)@ == s && crate::auth::opt_string(p) == q,
                (Err(m), Err(w)) => m@ == w && final(self)@ == old(self)@,
                _ => false,
            },
    {
        if self.over {
            return Ok(None);
        }
        let s: Vec<char> = chars_of(line);
        if s.len() < 5 {
            return Ok(None);
        }
        let head: String = slice_of(s.as_slice(), 0, 5);
        assert(head@ =~= line@.take(5));
        if !text_eq(head.as_str(), "data:") {
            return Ok(None);
        }
        let rest: Vec<char> = crate::auth::chars_between(&s, 5, s.len());
        assert(rest@ =~= line@.skip(5));
        let data: String = string_of(trim(rest.as_slice()).as_slice());
        if text_eq(data.as_str(), "[DONE]") {
            self.over = true;
            return Ok(None);
        }
        match parse_json(data.as_str()) {
            Err(_) => Ok(None),
            Ok(j) => self.message(&j),
        }
    }
}

/// A call that came whole.
pub open spec fn whole_call(t: JsonV) -> ToolCallV {
    let f = member_of(t, "function"@);
    ToolCallV {
        id: str_or_empty(member_of(t, "id"@)),
        name: str_or_empty(member_of(f, "name"@)),
        args: str_or_empty(member_of(f, "arguments"@)),
    }
}

/// What a completion that came whole says.
pub open spec fn completion_of(s: Seq<char>) -> SaidV {
    match json_read(s) {
        Err(m) => Err(m),
        Ok(j) => {
            let msg = member_of(element_of(member_of(j, "choices"@), 0), "message"@);
            let text = str_or_empty(member_of(msg, "content"@));
            let calls = match member_of(msg, "tool_calls"@) {
                JsonV::Array(ts) => ts.map_values(|t: JsonV| whole_call(t)),
                _ => Seq::empty(),
            };
            if text.len() == 0 && calls.len() == 0 {
                Err("no content in response: "@ + s)
            } else {
                Ok((text, calls))
            }
        },
    }
}

fn read_whole_call(t: &Json) -> (r: ToolCall)
    ensures
        r@ == whole_call(t@),
{
    let f: Json = t.member("function");
    ToolCall {
        id: take_str_or_empty(t.member("id")),
        name: take_str_or_empty(f.member("name")),
        args: take_str_or_empty(f.member("arguments")),
    }
}

/// Reads a completion that came whole.
pub fn read_completion(s: &str) -> (r: Said)
    ensures
        said_v(r) == completion_of(s@),
{
    let j: Json = match parse_json(s) {
        Ok(j) => j,
        Err(m) => {
            return Err(m);
        },
    };
    let msg: Json = element(&j.member("choices"), 0).member("message");
    let text: String = take_str_or_empty(msg.member("content"));
    let mut calls: Vec<ToolCall> = Vec::new();
    let list: Json = msg.member("tool_calls");
    if let Json::Array(ts) = &list {
        proof {
            lemma_values(*ts);
        }
        let mut i: usize = 0;
        while i < ts.len()
            invariant
                i <= ts@.len(),
                calls@.len() == i,
                forall|j: int| 0 <= j < i ==> (#[trigger] calls@[j])@ == whole_call(ts@[j]@),
            decreases ts@.len() - i,
        {
            calls.push(read_whole_call(&ts[i]));
            i = i + 1;
        }
        proof {
            let want = values_v(*ts).map_values(|t: JsonV| whole_call(t));
            assert forall|j: int| 0 <= j < calls@.len() implies calls_v(calls@)[j] == want[j] by {
                assert(values_v(*ts)[j] == ts@[j]@);
                assert(calls@[j]@ == whole_call(ts@[j]@));
            }
            assert(calls_v(calls@) =~= want);
        }
    } else {
        assert(calls_v(calls@) =~= Seq::<ToolCallV>::empty());
    }
    assert(calls_v(calls@).len() == calls@.len());
    if crate::auth::is_blank(text.as_str()) && calls.len() == 0 {
        let mut m: String = "no content in response: ".to_owned();
        m.append(s);
        Err(m)
    } else {
        Ok((text, calls))
    }
}

/// The ids among the first `n` models.
pub open spec fn ids_among(ms: Seq<JsonV>, n: int) -> Seq<Seq<char>>
    decreases n,
{
    if n <= 0 || n > ms.len() {
        Seq::empty()
    } else {
        match str_value(member_of(ms[n - 1], "id"@)) {
            Some(s) => ids_among(ms, n - 1).push(s),
            None => ids_among(ms, n - 1),
        }
    }
}

/// The models that a list names.
pub open spec fn models_of(s: Seq<char>) -> Result<Seq<Seq<char>>, Seq<char>> {
    match json_read(s) {
        Err(m) => Err(m),
        Ok(j) => match member_of(j, "data"@) {
            JsonV::Array(ms) => Ok(ids_among(ms, ms.len() as int)),
            _ => Err("no data[] in response"@),
        },
    }
}

/// Reads the list of models.
pub fn read_models(s: &str) -> (r: Result<Vec<String>, String>)
    ensures
        match (r, models_of(s@)) {
            (Ok(x), Ok(y)) => texts(x@) == y,
            (Err(x), Err(y)) => x@ == y,
            _ => false,
        },
{
    let j: Json = parse_json(s)?;
    let list: Json = j.member("data");
    match &list {
        Json::Array(ms) => {
            let ghost mv = values_v(*ms);
            proof {
                lemma_values(*ms);
            }
            let mut out: Vec<String> = Vec::new();
            let mut i: usize = 0;
            assert(texts(out@) =~= Seq::<Seq<char>>::empty());
            while i < ms.len()
                invariant
                    i <= ms@.len(),
                    mv == values_v(*ms),
                    mv.len() == ms@.len(),
                    forall|j: int| 0 <= j < ms@.len() ==> #[trigger] mv[j] == ms@[j]@,
                    texts(out@) == ids_among(mv, i as int),
                decreases ms@.len() - i,
            {
                assert(mv[i as int] == ms@[i as int]@);
                if let Some(id) = take_str(ms[i].member("id")) {
                    let ghost before = out@;
                    out.push(id);
                    assert(texts(out@) =~= texts(before).push(id@));
                }
                i = i + 1;
            }
            Ok(out)
        },
        _ => Err("no data[] in response".to_owned()),
    }
}

/// The value of something that failed.
pub open spec fn error_value(m: Seq<char>) -> DataV {
    DataV::Dict(
        seq![
            (DataV::Text("error"@), DataV::Text(m)),
            (DataV::Text("ok"@), DataV::Bool(false)),
        ],
    )
}

/// The value of a command that ran.
pub open spec fn ran_value(ok: bool, status: i64, out: Seq<char>, err: Seq<char>) -> DataV {
    DataV::Dict(
        seq![
            (DataV::Text("ok"@), DataV::Bool(ok)),
            (DataV::Text("status"@), crate::data::data_of_int(status as int)),
            (DataV::Text("stderr"@), DataV::Text(err)),
            (DataV::Text("stdout"@), DataV::Text(out)),
        ],
    )
}

/// The value of what a model said.
pub open spec fn said_value(s: SaidV) -> DataV {
    match s {
        Err(m) => error_value(m),
        Ok((text, calls)) => DataV::Dict(
            seq![
                (DataV::Text("ok"@), DataV::Bool(true)),
                (DataV::Text("text"@), DataV::Text(text)),
            ] + (if calls.len() == 0 {
                Seq::<(DataV, DataV)>::empty()
            } else {
                seq![(DataV::Text("tool_calls"@), calls_data(calls))]
            }),
        ),
    }
}

/// The value of a list of models.
pub open spec fn models_value(r: Result<Seq<Seq<char>>, Seq<char>>) -> DataV {
    match r {
        Err(m) => error_value(m),
        Ok(ids) => DataV::Dict(
            seq![
                (DataV::Text("models"@), crate::modules::texts_data(ids)),
                (DataV::Text("ok"@), DataV::Bool(true)),
            ],
        ),
    }
}

/// The value of something that failed.
pub fn failed_value(m: &str) -> (r: Data)
    ensures
        r@ == error_value(m@),
{
    let mut f: Vec<(Data, Data)> = no_fields();
    push_field(&mut f, "error", Data::Text(m.to_owned()));
    push_field(&mut f, "ok", Data::Bool(false));
    assert(pairs_v(f) =~= error_value(m@)->Dict_0);
    fields_data(f)
}

/// The value of a command that ran.
pub fn command_value(ok: bool, status: i64, out: &str, err: &str) -> (r: Data)
    ensures
        r@ == ran_value(ok, status, out@, err@),
{
    let mut f: Vec<(Data, Data)> = no_fields();
    push_field(&mut f, "ok", Data::Bool(ok));
    push_field(&mut f, "status", crate::data::int_data(status));
    push_field(&mut f, "stderr", Data::Text(err.to_owned()));
    push_field(&mut f, "stdout", Data::Text(out.to_owned()));
    assert(pairs_v(f) =~= ran_value(ok, status, out@, err@)->Dict_0);
    fields_data(f)
}

/// The value of what a model said.
pub fn answer_value(s: &Said) -> (r: Data)
    ensures
        r@ == said_value(said_v(*s)),
{
    match s {
        Err(m) => failed_value(m.as_str()),
        Ok((text, calls)) => {
            let mut f: Vec<(Data, Data)> = no_fields();
            push_field(&mut f, "ok", Data::Bool(true));
            push_field(&mut f, "text", Data::Text(text.clone()));
            let ghost base = pairs_v(f);
            assert(base =~= seq![
                (DataV::Text("ok"@), DataV::Bool(true)),
                (DataV::Text("text"@), DataV::Text(text@)),
            ]);
            if calls.len() > 0 {
                let d: Data = tool_calls_value(calls);
                push_field(&mut f, "tool_calls", d);
                assert(pairs_v(f) =~= base + seq![(DataV::Text("tool_calls"@), d@)]);
            } else {
                assert(calls_v(calls@).len() == 0);
                assert(pairs_v(f) =~= base + Seq::<(DataV, DataV)>::empty());
            }
            fields_data(f)
        },
    }
}

/// The value of a list of models.
pub fn list_value(r: &Result<Vec<String>, String>) -> (d: Data)
    ensures
        d@ == models_value(
            match r {
                Ok(ids) => Ok(texts(ids@)),
                Err(m) => Err(m@),
            },
        ),
{
    match r {
        Err(m) => failed_value(m.as_str()),
        Ok(ids) => {
            let mut f: Vec<(Data, Data)> = no_fields();
            push_field(&mut f, "models", crate::modules::list_data(ids));
            push_field(&mut f, "ok", Data::Bool(true));
            assert(pairs_v(f) =~= seq![
                (DataV::Text("models"@), crate::modules::texts_data(texts(ids@))),
                (DataV::Text("ok"@), DataV::Bool(true)),
            ]);
            fields_data(f)
        },
    }
}

} // verus!
