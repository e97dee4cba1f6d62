//! A life as a projection of its events: what is remembered, what is current,
//! and what was voted.

use crate::json::{
    copy_json, lemma_members, lemma_values, member_at, members_v, values_v, Json, JsonV,
};
use crate::ordered::{
    at_key, find_key, has_key, keyed, law_read_key, law_remove_key, law_set_key, lemma_mapped,
    mapped, remove_key, set_key, sorted_keys, with_key, without_key,
};
use crate::ranking::{Comparison, ComparisonV};
use crate::text::{
    copy_texts, lemma_before_irreflexive, lemma_before_total, lemma_before_transitive, text_before,
    text_eq, text_lt, texts,
};
use vstd::prelude::*;
use vstd::string::*;

verus! {

/// What is said, thought or perceived.
#[derive(Debug)]
pub struct Memory {
    pub timestamp: i64,
    pub content: String,
    pub id: String,
}

/// The model of a memory.
pub struct MemoryV {
    pub timestamp: i64,
    pub content: Seq<char>,
    pub id: Seq<char>,
}

impl View for Memory {
    type V = MemoryV;

    open spec fn view(&self) -> MemoryV {
        MemoryV { timestamp: self.timestamp, content: self.content@, id: self.id@ }
    }
}

/// An event of a life.
#[derive(Debug)]
pub enum Event {
    Init {
        timestamp: i64,
        id: String,
        capacity: i64,
        model: String,
        vote_model: String,
        api_key: String,
    },
    Thought(Memory),
    Perception(Memory),
    Response(Memory),
    Declaration(Memory),
    Vote {
        timestamp: i64,
        vote_a_id: String,
        vote_b_id: String,
        vote_score: i32,
        reasoning: String,
    },
    Compaction { timestamp: i64, kept_ids: Vec<String>, released_ids: Vec<String> },
}

/// The model of an event.
pub enum EventV {
    Init {
        timestamp: i64,
        id: Seq<char>,
        capacity: i64,
        model: Seq<char>,
        vote_model: Seq<char>,
        api_key: Seq<char>,
    },
    Thought(MemoryV),
    Perception(MemoryV),
    Response(MemoryV),
    Declaration(MemoryV),
    Vote {
        timestamp: i64,
        vote_a_id: Seq<char>,
        vote_b_id: Seq<char>,
        vote_score: i32,
        reasoning: Seq<char>,
    },
    Compaction { timestamp: i64, kept_ids: Seq<Seq<char>>, released_ids: Seq<Seq<char>> },
}

impl View for Event {
    type V = EventV;

    open spec fn view(&self) -> EventV {
        match *self {
            Event::Init { timestamp, id, capacity, model, vote_model, api_key } => EventV::Init {
                timestamp,
                id: id@,
                capacity,
                model: model@,
                vote_model: vote_model@,
                api_key: api_key@,
            },
            Event::Thought(m) => EventV::Thought(m@),
            Event::Perception(m) => EventV::Perception(m@),
            Event::Response(m) => EventV::Response(m@),
            Event::Declaration(m) => EventV::Declaration(m@),
            Event::Vote { timestamp, vote_a_id, vote_b_id, vote_score, reasoning } => EventV::Vote {
                timestamp,
                vote_a_id: vote_a_id@,
                vote_b_id: vote_b_id@,
                vote_score,
                reasoning: reasoning@,
            },
            Event::Compaction { timestamp, kept_ids, released_ids } => EventV::Compaction {
                timestamp,
                kept_ids: texts(kept_ids@),
                released_ids: texts(released_ids@),
            },
        }
    }
}

/// The id of an event that has one.
pub open spec fn event_id(e: EventV) -> Option<Seq<char>> {
    let id = match e {
        EventV::Init { timestamp, id, capacity, model, vote_model, api_key } => id,
        EventV::Thought(m) => m.id,
        EventV::Perception(m) => m.id,
        EventV::Response(m) => m.id,
        EventV::Declaration(m) => m.id,
        _ => Seq::empty(),
    };
    if id.len() == 0 {
        None
    } else {
        Some(id)
    }
}

/// The event is a memory.
pub open spec fn memorable(e: EventV) -> bool {
    e is Thought || e is Perception || e is Response
}

/// The event without what must stay secret.
pub open spec fn sanitized_of(e: EventV) -> EventV {
    match e {
        EventV::Init { timestamp, id, capacity, model, vote_model, api_key } => EventV::Init {
            timestamp,
            id,
            capacity,
            model,
            vote_model,
            api_key: Seq::empty(),
        },
        _ => e,
    }
}

fn is_blank(s: &String) -> (r: bool)
    ensures
        r == (s@.len() == 0),
{
    proof {
        reveal_strlit("");
        if s@.len() == 0 {
            assert(s@ =~= ""@);
        }
    }
    text_eq(s.as_str(), "")
}

fn copy_memory(m: &Memory) -> (r: Memory)
    ensures
        r@ == m@,
{
    Memory { timestamp: m.timestamp, content: m.content.clone(), id: m.id.clone() }
}

/// A copy of the event.
pub fn copy_event(e: &Event) -> (r: Event)
    ensures
        r@ == e@,
{
    match e {
        Event::Init { timestamp, id, capacity, model, vote_model, api_key } => Event::Init {
            timestamp: *timestamp,
            id: id.clone(),
            capacity: *capacity,
            model: model.clone(),
            vote_model: vote_model.clone(),
            api_key: api_key.clone(),
        },
        Event::Thought(m) => Event::Thought(copy_memory(m)),
        Event::Perception(m) => Event::Perception(copy_memory(m)),
        Event::Response(m) => Event::Response(copy_memory(m)),
        Event::Declaration(m) => Event::Declaration(copy_memory(m)),
        Event::Vote { timestamp, vote_a_id, vote_b_id, vote_score, reasoning } => Event::Vote {
            timestamp: *timestamp,
            vote_a_id: vote_a_id.clone(),
            vote_b_id: vote_b_id.clone(),
            vote_score: *vote_score,
            reasoning: reasoning.clone(),
        },
        Event::Compaction { timestamp, kept_ids, released_ids } => Event::Compaction {
            timestamp: *timestamp,
            kept_ids: copy_texts(kept_ids),
            released_ids: copy_texts(released_ids),
        },
    }
}

fn memory_id(m: &Memory) -> (r: Option<&str>)
    ensures
        match r {
            Some(s) => m@.id.len() > 0 && s@ == m@.id,
            None => m@.id.len() == 0,
        },
{
    if is_blank(&m.id) {
        None
    } else {
        Some(m.id.as_str())
    }
}

impl Event {
    /// The id of the event, if it has one.
    pub fn id(&self) -> (r: Option<&str>)
        ensures
            match (r, event_id(self@)) {
                (Some(s), Some(v)) => s@ == v,
                (None, None) => true,
                _ => false,
            },
    {
        match self {
            Event::Init { id, .. } => if is_blank(id) {
                None
            } else {
                Some(id.as_str())
            },
            Event::Thought(m) => memory_id(m),
            Event::Perception(m) => memory_id(m),
            Event::Response(m) => memory_id(m),
            Event::Declaration(m) => memory_id(m),
            _ => None,
        }
    }

    fn is_memory(&self) -> (r: bool)
        ensures
            r == memorable(self@),
    {
        match self {
            Event::Thought(_) | Event::Perception(_) | Event::Response(_) => true,
            _ => false,
        }
    }

    /// The event without what must stay secret.
    pub fn sanitized(&self) -> (r: Event)
        ensures
            r@ == sanitized_of(self@),
    {
        match self {
            Event::Init { timestamp, id, capacity, model, vote_model, .. } => {
                let none: String = String::new();
                assert(none@ =~= Seq::<char>::empty());
                Event::Init {
                    timestamp: *timestamp,
                    id: id.clone(),
                    capacity: *capacity,
                    model: model.clone(),
                    vote_model: vote_model.clone(),
                    api_key: none,
                }
            },
            _ => copy_event(self),
        }
    }
}

/// The value with the key `k`.
pub open spec fn member(k: Seq<char>, v: JsonV) -> (Seq<char>, JsonV) {
    (k, v)
}

/// The texts as JSON.
pub open spec fn json_texts(s: Seq<Seq<char>>) -> JsonV {
    JsonV::Array(s.map_values(|t: Seq<char>| JsonV::Str(t)))
}

pub open spec fn memory_json(m: MemoryV, kind: Seq<char>) -> JsonV {
    JsonV::Object(
        seq![
            member("content"@, JsonV::Str(m.content)),
            member("id"@, JsonV::Str(m.id)),
            member("timestamp"@, JsonV::Int(m.timestamp)),
            member("type"@, JsonV::Str(kind)),
        ],
    )
}

/// The JSON of an event, without the key of the API.
pub open spec fn event_json(e: EventV) -> JsonV {
    match e {
        EventV::Init { timestamp, id, capacity, model, vote_model, api_key } => JsonV::Object(
            seq![
                member("capacity"@, JsonV::Int(capacity)),
                member("id"@, JsonV::Str(id)),
                member("model"@, JsonV::Str(model)),
                member("timestamp"@, JsonV::Int(timestamp)),
                member("type"@, JsonV::Str("init"@)),
                member("vote_model"@, JsonV::Str(vote_model)),
            ],
        ),
        EventV::Thought(m) => memory_json(m, "thought"@),
        EventV::Perception(m) => memory_json(m, "perception"@),
        EventV::Response(m) => memory_json(m, "response"@),
        EventV::Declaration(m) => memory_json(m, "declaration"@),
        EventV::Vote { timestamp, vote_a_id, vote_b_id, vote_score, reasoning } => JsonV::Object(
            seq![
                member("reasoning"@, JsonV::Str(reasoning)),
                member("timestamp"@, JsonV::Int(timestamp)),
                member("type"@, JsonV::Str("vote"@)),
                member("vote_a_id"@, JsonV::Str(vote_a_id)),
                member("vote_b_id"@, JsonV::Str(vote_b_id)),
                member("vote_score"@, JsonV::Int(vote_score as i64)),
            ],
        ),
        EventV::Compaction { timestamp, kept_ids, released_ids } => JsonV::Object(
            seq![
                member("kept_ids"@, json_texts(kept_ids)),
                member("released_ids"@, json_texts(released_ids)),
                member("timestamp"@, JsonV::Int(timestamp)),
                member("type"@, JsonV::Str("compaction"@)),
            ],
        ),
    }
}

fn object(m: Vec<(String, Json)>) -> (r: Json)
    ensures
        r@ == JsonV::Object(members_v(m)),
{
    proof {
        lemma_members(m);
    }
    Json::Object(m)
}

fn push_member(m: &mut Vec<(String, Json)>, k: &str, v: Json)
    ensures
        members_v(*final(m)) == members_v(*old(m)).push(member(k@, v@)),
{
    let ghost before = *m;
    m.push((k.to_owned(), v));
    proof {
        lemma_members(before);
        lemma_members(*m);
        assert forall|i: int| 0 <= i < m@.len() implies members_v(*m)[i] == members_v(before).push(
            member(k@, v@),
        )[i] by {
            assert(members_v(*m)[i] == (m@[i].0@, m@[i].1@));
            if i < before@.len() {
                assert(members_v(before)[i] == (before@[i].0@, before@[i].1@));
            }
        }
        assert(members_v(*m) =~= members_v(before).push(member(k@, v@)));
    }
}

fn no_members() -> (r: Vec<(String, Json)>)
    ensures
        members_v(r) == Seq::<(Seq<char>, JsonV)>::empty(),
{
    let m: Vec<(String, Json)> = Vec::new();
    assert(members_v(m) =~= Seq::<(Seq<char>, JsonV)>::empty());
    m
}

fn text_json(s: &String) -> (r: Json)
    ensures
        r@ == JsonV::Str(s@),
{
    Json::Str(s.clone())
}

fn texts_json(v: &Vec<String>) -> (r: Json)
    ensures
        r@ == json_texts(texts(v@)),
{
    let mut out: Vec<Json> = Vec::new();
    let mut i: usize = 0;
    while i < v.len()
        invariant
            i <= v@.len(),
            out@.len() == i,
            forall|j: int| 0 <= j < i ==> (#[trigger] out@[j])@ == JsonV::Str(v@[j]@),
        decreases v@.len() - i,
    {
        out.push(Json::Str(v[i].clone()));
        i = i + 1;
    }
    proof {
        lemma_values(out);
        let want = texts(v@).map_values(|t: Seq<char>| JsonV::Str(t));
        assert forall|j: int| 0 <= j < out@.len() implies values_v(out)[j] == want[j] by {
            assert(values_v(out)[j] == out@[j]@);
            assert(out@[j]@ == JsonV::Str(v@[j]@));
        }
        assert(values_v(out) =~= want);
    }
    Json::Array(out)
}

fn memory_to_json(e: &Memory, kind: &str) -> (r: Json)
    ensures
        r@ == memory_json(e@, kind@),
{
    let mut m: Vec<(String, Json)> = no_members();
    push_member(&mut m, "content", text_json(&e.content));
    push_member(&mut m, "id", text_json(&e.id));
    push_member(&mut m, "timestamp", Json::Int(e.timestamp));
    push_member(&mut m, "type", Json::Str(kind.to_owned()));
    assert(JsonV::Object(members_v(m)) == memory_json(e@, kind@)) by {
        assert(members_v(m) =~= memory_json(e@, kind@)->Object_0);
    }
    object(m)
}

impl Event {
    /// The JSON of the event, without the key of the API.
    pub fn to_json(&self) -> (r: Json)
        ensures
            r@ == event_json(self@),
    {
        match self {
            Event::Init { timestamp, id, capacity, model, vote_model, .. } => {
                let mut m: Vec<(String, Json)> = no_members();
                push_member(&mut m, "capacity", Json::Int(*capacity));
                push_member(&mut m, "id", text_json(id));
                push_member(&mut m, "model", text_json(model));
                push_member(&mut m, "timestamp", Json::Int(*timestamp));
                push_member(&mut m, "type", Json::Str("init".to_owned()));
                push_member(&mut m, "vote_model", text_json(vote_model));
                assert(members_v(m) =~= event_json(self@)->Object_0);
                object(m)
            },
            Event::Thought(e) => memory_to_json(e, "thought"),
            Event::Perception(e) => memory_to_json(e, "perception"),
            Event::Response(e) => memory_to_json(e, "response"),
            Event::Declaration(e) => memory_to_json(e, "declaration"),
            Event::Vote { timestamp, vote_a_id, vote_b_id, vote_score, reasoning } => {
                let mut m: Vec<(String, Json)> = no_members();
                push_member(&mut m, "reasoning", text_json(reasoning));
                push_member(&mut m, "timestamp", Json::Int(*timestamp));
                push_member(&mut m, "type", Json::Str("vote".to_owned()));
                push_member(&mut m, "vote_a_id", text_json(vote_a_id));
                push_member(&mut m, "vote_b_id", text_json(vote_b_id));
                push_member(&mut m, "vote_score", Json::Int(*vote_score as i64));
                assert(members_v(m) =~= event_json(self@)->Object_0);
                object(m)
            },
            Event::Compaction { timestamp, kept_ids, released_ids } => {
                let mut m: Vec<(String, Json)> = no_members();
                push_member(&mut m, "kept_ids", texts_json(kept_ids));
                push_member(&mut m, "released_ids", texts_json(released_ids));
                push_member(&mut m, "timestamp", Json::Int(*timestamp));
                push_member(&mut m, "type", Json::Str("compaction".to_owned()));
                assert(members_v(m) =~= event_json(self@)->Object_0);
                object(m)
            },
        }
    }
}

/// A life as its events left it.
pub struct Projection {
    /// Every memory there ever was, by id.
    pub all: Vec<(String, Event)>,
    /// The memories held at present, by id.
    pub current: Vec<(String, Event)>,
    /// The votes, by the two ids.
    pub votes: Vec<(String, Comparison)>,
    pub declaration: String,
    pub capacity: i64,
    pub model: String,
    pub vote_model: String,
    pub memories: i64,
    pub events: Vec<Event>,
}

/// The model of a projection.
pub struct ProjectionV {
    pub all: Seq<(Seq<char>, EventV)>,
    pub current: Seq<(Seq<char>, EventV)>,
    pub votes: Seq<(Seq<char>, ComparisonV)>,
    pub declaration: Seq<char>,
    pub capacity: i64,
    pub model: Seq<char>,
    pub vote_model: Seq<char>,
    pub memories: i64,
    pub events: Seq<EventV>,
}

/// The model of an event, as a function.
pub open spec fn event_view() -> spec_fn(Event) -> EventV {
    |e: Event| e@
}

/// The model of a vote, as a function.
pub open spec fn vote_view() -> spec_fn(Comparison) -> ComparisonV {
    |c: Comparison| c@
}

/// The events of a list by key.
pub open spec fn events_by_key(s: Seq<(String, Event)>) -> Seq<(Seq<char>, EventV)> {
    mapped(keyed(s), event_view())
}

/// The votes of a list by key.
pub open spec fn votes_by_key(s: Seq<(String, Comparison)>) -> Seq<(Seq<char>, ComparisonV)> {
    mapped(keyed(s), vote_view())
}

/// The events of a list.
pub open spec fn events_v(s: Seq<Event>) -> Seq<EventV> {
    s.map_values(|e: Event| e@)
}

impl View for Projection {
    type V = ProjectionV;

    open spec fn view(&self) -> ProjectionV {
        ProjectionV {
            all: events_by_key(self.all@),
            current: events_by_key(self.current@),
            votes: votes_by_key(self.votes@),
            declaration: self.declaration@,
            capacity: self.capacity,
            model: self.model@,
            vote_model: self.vote_model@,
            memories: self.memories,
            events: events_v(self.events@),
        }
    }
}

/// No life yet.
pub open spec fn unborn() -> ProjectionV {
    ProjectionV {
        all: Seq::empty(),
        current: Seq::empty(),
        votes: Seq::empty(),
        declaration: Seq::empty(),
        capacity: 0,
        model: Seq::empty(),
        vote_model: Seq::empty(),
        memories: 0,
        events: Seq::empty(),
    }
}

/// One more, as far as 64 bits count.
pub open spec fn one_more(n: i64) -> i64 {
    if n < i64::MAX {
        (n + 1) as i64
    } else {
        n
    }
}

/// The score seen from the other side; the least score has no opposite and
/// stays.
pub open spec fn opposite(n: i32) -> i32 {
    if n == i32::MIN {
        n
    } else {
        (-n) as i32
    }
}

/// The vote with its lesser id first, and its key.
pub open spec fn vote_entry(a: Seq<char>, b: Seq<char>, score: i32) -> (Seq<char>, ComparisonV) {
    if text_before(a, b) {
        (a + "|"@ + b, ComparisonV { a_id: a, b_id: b, score })
    } else {
        (b + "|"@ + a, ComparisonV { a_id: b, b_id: a, score: opposite(score) })
    }
}

/// `current` with the first `n` of `kept` brought back, of those there ever
/// were.
pub open spec fn restored(
    current: Seq<(Seq<char>, EventV)>,
    all: Seq<(Seq<char>, EventV)>,
    kept: Seq<Seq<char>>,
    n: int,
) -> Seq<(Seq<char>, EventV)>
    decreases n,
{
    if n <= 0 || n > kept.len() {
        current
    } else {
        let c = restored(current, all, kept, n - 1);
        if has_key(all, kept[n - 1]) {
            with_key(c, kept[n - 1], at_key(all, kept[n - 1]))
        } else {
            c
        }
    }
}

/// `current` without the first `n` of `released`.
pub open spec fn released_from(
    current: Seq<(Seq<char>, EventV)>,
    released: Seq<Seq<char>>,
    n: int,
) -> Seq<(Seq<char>, EventV)>
    decreases n,
{
    if n <= 0 || n > released.len() {
        current
    } else {
        without_key(released_from(current, released, n - 1), released[n - 1])
    }
}

/// How many of the first `n` events are memories.
pub open spec fn count_memories(m: Seq<(Seq<char>, EventV)>, n: int) -> int
    decreases n,
{
    if n <= 0 || n > m.len() {
        0
    } else if memorable(m[n - 1].1) {
        count_memories(m, n - 1) + 1
    } else {
        count_memories(m, n - 1)
    }
}

/// The projection once an event with an id is held.
pub open spec fn holding(p: ProjectionV, e: EventV) -> ProjectionV {
    match event_id(e) {
        Some(id) => ProjectionV {
            current: with_key(p.current, id, e),
            all: with_key(p.all, id, e),
            ..p
        },
        None => p,
    }
}

/// What an event changes, but for the record of it.
pub open spec fn changed_by(p: ProjectionV, e: EventV) -> ProjectionV {
    match e {
        EventV::Vote { timestamp, vote_a_id, vote_b_id, vote_score, reasoning } => if vote_a_id.len()
            == 0 || vote_b_id.len() == 0 {
            p
        } else {
            let (k, v) = vote_entry(vote_a_id, vote_b_id, vote_score);
            ProjectionV { votes: with_key(p.votes, k, v), ..p }
        },
        EventV::Compaction { timestamp, kept_ids, released_ids } => {
            let back = restored(p.current, p.all, kept_ids, kept_ids.len() as int);
            let current = released_from(back, released_ids, released_ids.len() as int);
            ProjectionV {
                current,
                memories: count_memories(current, current.len() as int) as i64,
                ..p
            }
        },
        EventV::Init { timestamp, id, capacity, model, vote_model, api_key } => holding(
            ProjectionV { capacity, model, vote_model, ..p },
            e,
        ),
        EventV::Declaration(m) => holding(ProjectionV { declaration: m.content, ..p }, e),
        _ => holding(ProjectionV { memories: one_more(p.memories), ..p }, e),
    }
}

/// The projection once an event is applied: its secrets are dropped first.
pub open spec fn applied_event(p: ProjectionV, raw: EventV) -> ProjectionV {
    let e = sanitized_of(raw);
    let q = changed_by(p, e);
    ProjectionV { events: q.events.push(e), ..q }
}

/// The projection of the first `n` events.
pub open spec fn projected(events: Seq<EventV>, n: int) -> ProjectionV
    decreases n,
{
    if n <= 0 || n > events.len() {
        unborn()
    } else {
        applied_event(projected(events, n - 1), events[n - 1])
    }
}

fn put_event(m: &mut Vec<(String, Event)>, k: &str, e: &Event)
    ensures
        events_by_key(final(m)@) == with_key(events_by_key(old(m)@), k@, e@),
{
    let ghost before = keyed(m@);
    let c: Event = copy_event(e);
    set_key(m, k, c);
    proof {
        lemma_mapped(before, event_view(), k@, c);
    }
}

impl Projection {
    /// No life yet.
    pub fn new() -> (r: Projection)
        ensures
            r@ == unborn(),
    {
        let r = Projection {
            all: Vec::new(),
            current: Vec::new(),
            votes: Vec::new(),
            declaration: String::new(),
            capacity: 0,
            model: String::new(),
            vote_model: String::new(),
            memories: 0,
            events: Vec::new(),
        };
        proof {
            assert(r@.all =~= Seq::<(Seq<char>, EventV)>::empty());
            assert(r@.current =~= Seq::<(Seq<char>, EventV)>::empty());
            assert(r@.votes =~= Seq::<(Seq<char>, ComparisonV)>::empty());
            assert(r@.events =~= Seq::<EventV>::empty());
            assert(r@.declaration =~= Seq::<char>::empty());
            assert(r@.model =~= Seq::<char>::empty());
            assert(r@.vote_model =~= Seq::<char>::empty());
        }
        r
    }

    fn hold(&mut self, e: &Event)
        ensures
            final(self)@ == holding(old(self)@, e@),
    {
        if let Some(id) = e.id() {
            put_event(&mut self.current, id, e);
            put_event(&mut self.all, id, e);
        }
    }

    fn restore(&mut self, kept: &Vec<String>)
        ensures
            final(self)@ == (ProjectionV {
                current: restored(
                    old(self)@.current,
                    old(self)@.all,
                    texts(kept@),
                    kept@.len() as int,
                ),
                ..old(self)@
            }),
    {
        let ghost p0 = self@;
        let ghost kv = texts(kept@);
        let mut i: usize = 0;
        while i < kept.len()
            invariant
                i <= kept@.len(),
                kv == texts(kept@),
                self@ == (ProjectionV {
                    current: restored(p0.current, p0.all, kv, i as int),
                    ..p0
                }),
            decreases kept@.len() - i,
        {
            assert(kv[i as int] == kept@[i as int]@);
            let ghost all = keyed(self.all@);
            let (at, found) = find_key(&self.all, kept[i].as_str());
            proof {
                if found {
                    lemma_mapped(all, event_view(), kv[i as int], all[at as int].1);
                } else if all.len() > 0 {
                    lemma_mapped(all, event_view(), kv[i as int], all[0].1);
                }
            }
            if found {
                let e: Event = copy_event(&self.all[at].1);
                assert(e@ == at_key(p0.all, kv[i as int]));
                put_event(&mut self.current, kept[i].as_str(), &e);
            }
            i = i + 1;
        }
    }

    fn release(&mut self, released: &Vec<String>)
        ensures
            final(self)@ == (ProjectionV {
                current: released_from(
                    old(self)@.current,
                    texts(released@),
                    released@.len() as int,
                ),
                ..old(self)@
            }),
    {
        let ghost p0 = self@;
        let ghost rv = texts(released@);
        let mut i: usize = 0;
        while i < released.len()
            invariant
                i <= released@.len(),
                rv == texts(released@),
                self@ == (ProjectionV {
                    current: released_from(p0.current, rv, i as int),
                    ..p0
                }),
            decreases released@.len() - i,
        {
            let ghost before = keyed(self.current@);
            remove_key(&mut self.current, released[i].as_str());
            proof {
                if before.len() > 0 {
                    lemma_mapped(before, event_view(), rv[i as int], before[0].1);
                } else {
                    assert(keyed(self.current@) == before);
                    assert(mapped(before, event_view()) =~= Seq::<(Seq<char>, EventV)>::empty());
                }
            }
            i = i + 1;
        }
    }

    fn recount(&mut self)
        ensures
            final(self)@ == (ProjectionV {
                memories: count_memories(
                    old(self)@.current,
                    old(self)@.current.len() as int,
                ) as i64,
                ..old(self)@
            }),
    {
        let ghost cv = self@.current;
        let mut n: usize = 0;
        let mut i: usize = 0;
        while i < self.current.len()
            invariant
                *self == *old(self),
                cv == self@.current,
                i <= self.current@.len(),
                n <= i,
                n == count_memories(cv, i as int),
            decreases self.current@.len() - i,
        {
            assert(cv[i as int].1 == self.current@[i as int].1@);
            if self.current[i].1.is_memory() {
                n = n + 1;
            }
            i = i + 1;
        }
        self.memories = n as i64;
    }

    fn vote(&mut self, a: &String, b: &String, score: i32)
        ensures
            final(self)@ == ({
                let (k, v) = vote_entry(a@, b@, score);
                ProjectionV { votes: with_key(old(self)@.votes, k, v), ..old(self)@ }
            }),
    {
        let ghost before = keyed(self.votes@);
        let c: Comparison = if text_lt(a.as_str(), b.as_str()) {
            Comparison { a_id: a.clone(), b_id: b.clone(), score }
        } else {
            let other: i32 = if score == i32::MIN {
                score
            } else {
                -score
            };
            Comparison { a_id: b.clone(), b_id: a.clone(), score: other }
        };
        let mut key: String = c.a_id.clone();
        key.append("|");
        key.append(c.b_id.as_str());
        let ghost cv = c;
        set_key(&mut self.votes, key.as_str(), c);
        proof {
            lemma_mapped(before, vote_view(), key@, cv);
        }
    }

    /// Applies an event: its secrets are dropped, what it says is done, and it
    /// is recorded.
    pub fn apply(&mut self, raw: Event)
        ensures
            final(self)@ == applied_event(old(self)@, raw@),
    {
        let event: Event = raw.sanitized();
        match &event {
            Event::Vote { vote_a_id, vote_b_id, vote_score, .. } => {
                if !is_blank(vote_a_id) && !is_blank(vote_b_id) {
                    self.vote(vote_a_id, vote_b_id, *vote_score);
                }
            },
            Event::Compaction { kept_ids, released_ids, .. } => {
                self.restore(kept_ids);
                self.release(released_ids);
                self.recount();
            },
            Event::Init { capacity, model, vote_model, .. } => {
                self.capacity = *capacity;
                self.model = model.clone();
                self.vote_model = vote_model.clone();
                self.hold(&event);
            },
            Event::Declaration(m) => {
                self.declaration = m.content.clone();
                self.hold(&event);
            },
            _ => {
                if self.memories < i64::MAX {
                    self.memories = self.memories + 1;
                }
                self.hold(&event);
            },
        }
        let ghost before = self.events@;
        self.events.push(event);
        assert(events_v(self.events@) =~= events_v(before).push(event@));
    }
}

/// Part `k` of an event: the member of an object, or in an array the element at
/// `pos` behind the kind.
pub open spec fn part(v: JsonV, k: Seq<char>, pos: int) -> Option<JsonV> {
    match v {
        JsonV::Object(m) => {
            let p = member_at(m, k, 0);
            if p < m.len() {
                Some(m[p].1)
            } else {
                None
            }
        },
        JsonV::Array(xs) => if pos + 1 < xs.len() {
            Some(xs[pos + 1])
        } else {
            None
        },
        _ => None,
    }
}

/// The integer of a part: zero where it is missing.
pub open spec fn int_part(v: JsonV, k: Seq<char>, pos: int) -> Option<i64> {
    match part(v, k, pos) {
        None => Some(0i64),
        Some(JsonV::Int(n)) => Some(n),
        _ => None,
    }
}

/// The text of a part: empty where it is missing.
pub open spec fn text_part(v: JsonV, k: Seq<char>, pos: int) -> Option<Seq<char>> {
    match part(v, k, pos) {
        None => Some(Seq::empty()),
        Some(JsonV::Str(s)) => Some(s),
        _ => None,
    }
}

/// All values are texts.
pub open spec fn all_texts(xs: Seq<JsonV>) -> bool {
    forall|i: int| 0 <= i < xs.len() ==> (#[trigger] xs[i]) is Str
}

/// The texts of a part: none where it is missing.
pub open spec fn texts_part(v: JsonV, k: Seq<char>, pos: int) -> Option<Seq<Seq<char>>> {
    match part(v, k, pos) {
        None => Some(Seq::empty()),
        Some(JsonV::Array(xs)) => if all_texts(xs) {
            Some(xs.map_values(|x: JsonV| x->Str_0))
        } else {
            None
        },
        _ => None,
    }
}

/// The kind of an event: the member `type` of an object, or the first element
/// of an array.
pub open spec fn event_kind(v: JsonV) -> Option<Seq<char>> {
    let t = match v {
        JsonV::Object(m) => part(v, "type"@, 0),
        JsonV::Array(xs) => if xs.len() > 0 {
            Some(xs[0])
        } else {
            None
        },
        _ => None,
    };
    match t {
        Some(JsonV::Str(s)) => Some(s),
        _ => None,
    }
}

/// An array has no more than `n` parts behind the kind.
pub open spec fn fits(v: JsonV, n: int) -> bool {
    match v {
        JsonV::Array(xs) => xs.len() <= n + 1,
        _ => true,
    }
}

/// The memory that JSON spells.
pub open spec fn memory_of(v: JsonV) -> Option<MemoryV> {
    match (int_part(v, "timestamp"@, 0), text_part(v, "content"@, 1), text_part(v, "id"@, 2)) {
        (Some(timestamp), Some(content), Some(id)) => if fits(v, 3) {
            Some(MemoryV { timestamp, content, id })
        } else {
            None
        },
        _ => None,
    }
}

pub open spec fn init_of(v: JsonV) -> Option<EventV> {
    match (
        int_part(v, "timestamp"@, 0),
        text_part(v, "id"@, 1),
        int_part(v, "capacity"@, 2),
        text_part(v, "model"@, 3),
        text_part(v, "vote_model"@, 4),
        text_part(v, "api_key"@, 5),
    ) {
        (
            Some(timestamp),
            Some(id),
            Some(capacity),
            Some(model),
            Some(vote_model),
            Some(api_key),
        ) => if fits(v, 6) {
            Some(EventV::Init { timestamp, id, capacity, model, vote_model, api_key })
        } else {
            None
        },
        _ => None,
    }
}

pub open spec fn vote_of(v: JsonV) -> Option<EventV> {
    match (
        int_part(v, "timestamp"@, 0),
        text_part(v, "vote_a_id"@, 1),
        text_part(v, "vote_b_id"@, 2),
        int_part(v, "vote_score"@, 3),
        text_part(v, "reasoning"@, 4),
    ) {
        (
            Some(timestamp),
            Some(vote_a_id),
            Some(vote_b_id),
            Some(score),
            Some(reasoning),
        ) => if fits(v, 5) && i32::MIN <= score <= i32::MAX {
            Some(
                EventV::Vote {
                    timestamp,
                    vote_a_id,
                    vote_b_id,
                    vote_score: score as i32,
                    reasoning,
                },
            )
        } else {
            None
        },
        _ => None,
    }
}

pub open spec fn compaction_of(v: JsonV) -> Option<EventV> {
    match (
        int_part(v, "timestamp"@, 0),
        texts_part(v, "kept_ids"@, 1),
        texts_part(v, "released_ids"@, 2),
    ) {
        (Some(timestamp), Some(kept_ids), Some(released_ids)) => if fits(v, 3) {
            Some(EventV::Compaction { timestamp, kept_ids, released_ids })
        } else {
            None
        },
        _ => None,
    }
}

/// The event that JSON spells. Parts that are missing are zero or empty; parts
/// of another type spell no event.
pub open spec fn event_of(v: JsonV) -> Option<EventV> {
    match event_kind(v) {
        None => None,
        Some(kind) => if kind == "init"@ {
            init_of(v)
        } else if kind == "vote"@ {
            vote_of(v)
        } else if kind == "compaction"@ {
            compaction_of(v)
        } else {
            match memory_of(v) {
                None => None,
                Some(m) => if kind == "thought"@ {
                    Some(EventV::Thought(m))
                } else if kind == "perception"@ {
                    Some(EventV::Perception(m))
                } else if kind == "response"@ {
                    Some(EventV::Response(m))
                } else if kind == "declaration"@ {
                    Some(EventV::Declaration(m))
                } else {
                    None
                },
            }
        },
    }
}

fn find_part(v: &Json, k: &str, pos: usize) -> (r: Option<Json>)
    requires
        pos < 100,
    ensures
        match (r, part(v@, k@, pos as int)) {
            (Some(x), Some(y)) => x@ == y,
            (None, None) => true,
            _ => false,
        },
{
    match v {
        Json::Object(m) => {
            let ghost mv = members_v(*m);
            proof {
                lemma_members(*m);
            }
            let mut i: usize = 0;
            while i < m.len() && !text_eq(m[i].0.as_str(), k)
                invariant
                    i <= m@.len(),
                    mv == members_v(*m),
                    mv.len() == m@.len(),
                    forall|j: int| 0 <= j < m@.len() ==> #[trigger] mv[j] == (m@[j].0@, m@[j].1@),
                    member_at(mv, k@, 0) == member_at(mv, k@, i as int),
                decreases m@.len() - i,
            {
                assert(mv[i as int] == (m@[i as int].0@, m@[i as int].1@));
                i = i + 1;
            }
            if i < m.len() {
                assert(mv[i as int] == (m@[i as int].0@, m@[i as int].1@));
                Some(copy_json(&m[i].1))
            } else {
                None
            }
        },
        Json::Array(xs) => {
            proof {
                lemma_values(*xs);
            }
            if pos + 1 < xs.len() {
                assert(values_v(*xs)[pos + 1] == xs@[pos + 1]@);
                Some(copy_json(&xs[pos + 1]))
            } else {
                None
            }
        },
        _ => None,
    }
}

fn read_int(v: &Json, k: &str, pos: usize) -> (r: Option<i64>)
    requires
        pos < 100,
    ensures
        r == int_part(v@, k@, pos as int),
{
    match find_part(v, k, pos) {
        None => Some(0),
        Some(Json::Int(n)) => Some(n),
        _ => None,
    }
}

fn read_text(v: &Json, k: &str, pos: usize) -> (r: Option<String>)
    requires
        pos < 100,
    ensures
        match (r, text_part(v@, k@, pos as int)) {
            (Some(x), Some(y)) => x@ == y,
            (None, None) => true,
            _ => false,
        },
{
    match find_part(v, k, pos) {
        None => {
            let s: String = String::new();
            assert(s@ =~= Seq::<char>::empty());
            Some(s)
        },
        Some(Json::Str(s)) => Some(s),
        _ => None,
    }
}

fn text_list(xs: &Vec<Json>) -> (r: Option<Vec<String>>)
    ensures
        match r {
            Some(ts) => all_texts(values_v(*xs)) && texts(ts@) == values_v(*xs).map_values(
                |x: JsonV| x->Str_0,
            ),
            None => !all_texts(values_v(*xs)),
        },
{
    let ghost xv = values_v(*xs);
    proof {
        lemma_values(*xs);
    }
    let mut out: Vec<String> = Vec::new();
    let mut i: usize = 0;
    while i < xs.len()
        invariant
            i <= xs@.len(),
            xv == values_v(*xs),
            xv.len() == xs@.len(),
            forall|j: int| 0 <= j < xs@.len() ==> #[trigger] xv[j] == xs@[j]@,
            out@.len() == i,
            forall|j: int| 0 <= j < i ==> #[trigger] xv[j] == JsonV::Str(out@[j]@),
        decreases xs@.len() - i,
    {
        assert(xv[i as int] == xs@[i as int]@);
        match &xs[i] {
            Json::Str(s) => {
                out.push(s.clone());
            },
            _ => {
                assert(!(xv[i as int] is Str));
                return None;
            },
        }
        i = i + 1;
    }
    proof {
        let want = xv.map_values(|x: JsonV| x->Str_0);
        assert forall|j: int| 0 <= j < out@.len() implies texts(out@)[j] == want[j] by {
            assert(xv[j] == JsonV::Str(out@[j]@));
        }
        assert(texts(out@) =~= want);
    }
    Some(out)
}

fn read_texts(v: &Json, k: &str, pos: usize) -> (r: Option<Vec<String>>)
    requires
        pos < 100,
    ensures
        match (r, texts_part(v@, k@, pos as int)) {
            (Some(x), Some(y)) => texts(x@) == y,
            (None, None) => true,
            _ => false,
        },
{
    match find_part(v, k, pos) {
        None => {
            let out: Vec<String> = Vec::new();
            assert(texts(out@) =~= Seq::<Seq<char>>::empty());
            Some(out)
        },
        Some(p) => match &p {
            Json::Array(xs) => {
                proof {
                    lemma_values(*xs);
                }
                text_list(xs)
            },
            _ => None,
        },
    }
}

fn has_room(v: &Json, n: usize) -> (r: bool)
    requires
        n < 100,
    ensures
        r == fits(v@, n as int),
{
    match v {
        Json::Array(xs) => {
            proof {
                lemma_values(*xs);
            }
            xs.len() <= n + 1
        },
        _ => true,
    }
}

fn read_kind(v: &Json) -> (r: Option<String>)
    ensures
        match (r, event_kind(v@)) {
            (Some(x), Some(y)) => x@ == y,
            (None, None) => true,
            _ => false,
        },
{
    let t: Option<Json> = match v {
        Json::Object(_) => find_part(v, "type", 0),
        Json::Array(xs) => {
            proof {
                lemma_values(*xs);
            }
            if xs.len() > 0 {
                assert(values_v(*xs)[0] == xs@[0]@);
                Some(copy_json(&xs[0]))
            } else {
                None
            }
        },
        _ => None,
    };
    match t {
        Some(Json::Str(s)) => Some(s),
        _ => None,
    }
}

/// The event read is the one that the model says.
spec fn same_event(r: Option<Event>, s: Option<EventV>) -> bool {
    match (r, s) {
        (Some(x), Some(y)) => x@ == y,
        (None, None) => true,
        _ => false,
    }
}

fn read_memory(v: &Json) -> (r: Option<Memory>)
    ensures
        match (r, memory_of(v@)) {
            (Some(x), Some(y)) => x@ == y,
            (None, None) => true,
            _ => false,
        },
{
    match (read_int(v, "timestamp", 0), read_text(v, "content", 1), read_text(v, "id", 2)) {
        (Some(timestamp), Some(content), Some(id)) => if has_room(v, 3) {
            Some(Memory { timestamp, content, id })
        } else {
            None
        },
        _ => None,
    }
}

fn read_init(v: &Json) -> (r: Option<Event>)
    ensures
        same_event(r, init_of(v@)),
{
    match (
        read_int(v, "timestamp", 0),
        read_text(v, "id", 1),
        read_int(v, "capacity", 2),
        read_text(v, "model", 3),
        read_text(v, "vote_model", 4),
        read_text(v, "api_key", 5),
    ) {
        (
            Some(timestamp),
            Some(id),
            Some(capacity),
            Some(model),
            Some(vote_model),
            Some(api_key),
        ) => if has_room(v, 6) {
            Some(Event::Init { timestamp, id, capacity, model, vote_model, api_key })
        } else {
            None
        },
        _ => None,
    }
}

fn read_vote(v: &Json) -> (r: Option<Event>)
    ensures
        same_event(r, vote_of(v@)),
{
    match (
        read_int(v, "timestamp", 0),
        read_text(v, "vote_a_id", 1),
        read_text(v, "vote_b_id", 2),
        read_int(v, "vote_score", 3),
        read_text(v, "reasoning", 4),
    ) {
        (
            Some(timestamp),
            Some(vote_a_id),
            Some(vote_b_id),
            Some(score),
            Some(reasoning),
        ) => if has_room(v, 5) && i32::MIN as i64 <= score && score <= i32::MAX as i64 {
            Some(
                Event::Vote {
                    timestamp,
                    vote_a_id,
                    vote_b_id,
                    vote_score: score as i32,
                    reasoning,
                },
            )
        } else {
            None
        },
        _ => None,
    }
}

fn read_compaction(v: &Json) -> (r: Option<Event>)
    ensures
        same_event(r, compaction_of(v@)),
{
    match (
        read_int(v, "timestamp", 0),
        read_texts(v, "kept_ids", 1),
        read_texts(v, "released_ids", 2),
    ) {
        (Some(timestamp), Some(kept_ids), Some(released_ids)) => if has_room(v, 3) {
            Some(Event::Compaction { timestamp, kept_ids, released_ids })
        } else {
            None
        },
        _ => None,
    }
}

impl Event {
    /// The event that JSON spells.
    pub fn from_json(v: &Json) -> (r: Option<Event>)
        ensures
            match (r, event_of(v@)) {
                (Some(x), Some(y)) => x@ == y,
                (None, None) => true,
                _ => false,
            },
    {
        let kind: String = match read_kind(v) {
            Some(s) => s,
            None => {
                return None;
            },
        };
        let k = kind.as_str();
        if text_eq(k, "init") {
            read_init(v)
        } else if text_eq(k, "vote") {
            read_vote(v)
        } else if text_eq(k, "compaction") {
            read_compaction(v)
        } else {
            match read_memory(v) {
                None => None,
                Some(m) => if text_eq(k, "thought") {
                    Some(Event::Thought(m))
                } else if text_eq(k, "perception") {
                    Some(Event::Perception(m))
                } else if text_eq(k, "response") {
                    Some(Event::Response(m))
                } else if text_eq(k, "declaration") {
                    Some(Event::Declaration(m))
                } else {
                    None
                },
            }
        }
    }
}

/// The events as the members of an object.
pub open spec fn events_json(m: Seq<(Seq<char>, EventV)>) -> JsonV {
    JsonV::Object(m.map_values(|p: (Seq<char>, EventV)| (p.0, event_json(p.1))))
}

/// The vote as JSON.
pub open spec fn vote_json(c: ComparisonV) -> JsonV {
    JsonV::Object(
        seq![
            member("a"@, JsonV::Str(c.a_id)),
            member("b"@, JsonV::Str(c.b_id)),
            member("score"@, JsonV::Int(c.score as i64)),
        ],
    )
}

/// The projection as JSON.
pub open spec fn projection_json(p: ProjectionV) -> JsonV {
    JsonV::Object(
        seq![
            member("all"@, events_json(p.all)),
            member("capacity"@, JsonV::Int(p.capacity)),
            member("count"@, JsonV::Int(p.events.len() as i64)),
            member("current"@, events_json(p.current)),
            member("declaration"@, JsonV::Str(p.declaration)),
            member("events"@, JsonV::Array(p.events.map_values(|e: EventV| event_json(e)))),
            member("memories"@, JsonV::Int(p.memories)),
            member("model"@, JsonV::Str(p.model)),
            member("vote_model"@, JsonV::Str(p.vote_model)),
            member(
                "votes"@,
                JsonV::Object(
                    p.votes.map_values(|q: (Seq<char>, ComparisonV)| (q.0, vote_json(q.1))),
                ),
            ),
        ],
    )
}

fn events_to_json(m: &Vec<(String, Event)>) -> (r: Json)
    ensures
        r@ == events_json(events_by_key(m@)),
{
    let ghost want = events_by_key(m@).map_values(
        |p: (Seq<char>, EventV)| (p.0, event_json(p.1)),
    );
    let mut out: Vec<(String, Json)> = no_members();
    let mut i: usize = 0;
    assert(members_v(out) =~= want.take(0));
    while i < m.len()
        invariant
            i <= m@.len(),
            want == events_by_key(m@).map_values(
                |p: (Seq<char>, EventV)| (p.0, event_json(p.1)),
            ),
            members_v(out) == want.take(i as int),
        decreases m@.len() - i,
    {
        push_member(&mut out, m[i].0.as_str(), m[i].1.to_json());
        assert(want.take(i + 1) =~= want.take(i as int).push(want[i as int]));
        i = i + 1;
    }
    assert(want.take(i as int) =~= want);
    object(out)
}

fn vote_to_json(c: &Comparison) -> (r: Json)
    ensures
        r@ == vote_json(c@),
{
    let mut m: Vec<(String, Json)> = no_members();
    push_member(&mut m, "a", text_json(&c.a_id));
    push_member(&mut m, "b", text_json(&c.b_id));
    push_member(&mut m, "score", Json::Int(c.score as i64));
    assert(members_v(m) =~= vote_json(c@)->Object_0);
    object(m)
}

fn votes_to_json(m: &Vec<(String, Comparison)>) -> (r: Json)
    ensures
        r@ == JsonV::Object(
            votes_by_key(m@).map_values(|q: (Seq<char>, ComparisonV)| (q.0, vote_json(q.1))),
        ),
{
    let ghost want = votes_by_key(m@).map_values(
        |q: (Seq<char>, ComparisonV)| (q.0, vote_json(q.1)),
    );
    let mut out: Vec<(String, Json)> = no_members();
    let mut i: usize = 0;
    assert(members_v(out) =~= want.take(0));
    while i < m.len()
        invariant
            i <= m@.len(),
            want == votes_by_key(m@).map_values(
                |q: (Seq<char>, ComparisonV)| (q.0, vote_json(q.1)),
            ),
            members_v(out) == want.take(i as int),
        decreases m@.len() - i,
    {
        push_member(&mut out, m[i].0.as_str(), vote_to_json(&m[i].1));
        assert(want.take(i + 1) =~= want.take(i as int).push(want[i as int]));
        i = i + 1;
    }
    assert(want.take(i as int) =~= want);
    object(out)
}

fn list_to_json(v: &Vec<Event>) -> (r: Json)
    ensures
        r@ == JsonV::Array(events_v(v@).map_values(|e: EventV| event_json(e))),
{
    let mut out: Vec<Json> = Vec::new();
    let mut i: usize = 0;
    while i < v.len()
        invariant
            i <= v@.len(),
            out@.len() == i,
            forall|j: int| 0 <= j < i ==> (#[trigger] out@[j])@ == event_json(v@[j]@),
        decreases v@.len() - i,
    {
        out.push(v[i].to_json());
        i = i + 1;
    }
    proof {
        lemma_values(out);
        let want = events_v(v@).map_values(|e: EventV| event_json(e));
        assert forall|j: int| 0 <= j < out@.len() implies values_v(out)[j] == want[j] by {
            assert(out@[j]@ == event_json(v@[j]@));
        }
        assert(values_v(out) =~= want);
    }
    Json::Array(out)
}

impl Projection {
    /// The projection as JSON.
    pub fn to_json(&self) -> (r: Json)
        ensures
            r@ == projection_json(self@),
    {
        let mut m: Vec<(String, Json)> = no_members();
        push_member(&mut m, "all", events_to_json(&self.all));
        push_member(&mut m, "capacity", Json::Int(self.capacity));
        push_member(&mut m, "count", Json::Int(self.events.len() as i64));
        push_member(&mut m, "current", events_to_json(&self.current));
        push_member(&mut m, "declaration", text_json(&self.declaration));
        push_member(&mut m, "events", list_to_json(&self.events));
        push_member(&mut m, "memories", Json::Int(self.memories));
        push_member(&mut m, "model", text_json(&self.model));
        push_member(&mut m, "vote_model", text_json(&self.vote_model));
        push_member(&mut m, "votes", votes_to_json(&self.votes));
        assert(members_v(m) =~= projection_json(self@)->Object_0);
        object(m)
    }
}

/// The events that the first `n` values spell.
pub open spec fn events_of(vs: Seq<JsonV>, n: int) -> Seq<EventV>
    decreases n,
{
    if n <= 0 || n > vs.len() {
        Seq::empty()
    } else {
        match event_of(vs[n - 1]) {
            Some(e) => events_of(vs, n - 1).push(e),
            None => events_of(vs, n - 1),
        }
    }
}

proof fn lemma_projected_prefix(a: Seq<EventV>, b: Seq<EventV>, n: int)
    requires
        0 <= n <= a.len(),
        n <= b.len(),
        forall|i: int| 0 <= i < n ==> a[i] == b[i],
    ensures
        projected(a, n) == projected(b, n),
    decreases n,
{
    if n > 0 {
        lemma_projected_prefix(a, b, n - 1);
    }
}

/// The projection of the events that the values spell; what spells no event is
/// passed over.
pub fn project_json(events: &Vec<Json>) -> (r: Json)
    ensures
        ({
            let es = events_of(values_v(*events), events@.len() as int);
            r@ == projection_json(projected(es, es.len() as int))
        }),
{
    let ghost vv = values_v(*events);
    proof {
        lemma_values(*events);
    }
    let mut p: Projection = Projection::new();
    let mut i: usize = 0;
    while i < events.len()
        invariant
            i <= events@.len(),
            vv == values_v(*events),
            vv.len() == events@.len(),
            forall|j: int| 0 <= j < vv.len() ==> #[trigger] vv[j] == events@[j]@,
            p@ == projected(events_of(vv, i as int), events_of(vv, i as int).len() as int),
        decreases events@.len() - i,
    {
        let ghost before = events_of(vv, i as int);
        assert(vv[i as int] == events@[i as int]@);
        if let Some(e) = Event::from_json(&events[i]) {
            proof {
                lemma_projected_prefix(before, before.push(e@), before.len() as int);
            }
            p.apply(e);
        }
        i = i + 1;
    }
    p.to_json()
}

proof fn lemma_no_key(e: EventV)
    ensures
        match event_json(sanitized_of(e)) {
            JsonV::Object(m) => forall|i: int| 0 <= i < m.len() ==> (#[trigger] m[i]).0 != "api_key"@,
            _ => true,
        },
{
    reveal_strlit("api_key");
    reveal_strlit("capacity");
    reveal_strlit("id");
    reveal_strlit("model");
    reveal_strlit("timestamp");
    reveal_strlit("type");
    reveal_strlit("vote_model");
    reveal_strlit("content");
    reveal_strlit("reasoning");
    reveal_strlit("vote_a_id");
    reveal_strlit("vote_b_id");
    reveal_strlit("vote_score");
    reveal_strlit("kept_ids");
    reveal_strlit("released_ids");
    assert("capacity"@[0] == 'c' && "id"@[0] == 'i' && "model"@[0] == 'm' && "timestamp"@[0] == 't');
    assert("type"@[0] == 't' && "vote_model"@[0] == 'v' && "content"@[0] == 'c');
    assert("reasoning"@[0] == 'r' && "vote_a_id"@[0] == 'v' && "vote_b_id"@[0] == 'v');
    assert("vote_score"@[0] == 'v' && "kept_ids"@[0] == 'k' && "released_ids"@[0] == 'r');
    assert("api_key"@[0] == 'a');
}

/// No event that a projection records holds the key of the API, and no JSON of
/// it does.
pub proof fn law_secrets_are_dropped(p: ProjectionV, raw: EventV)
    ensures
        ({
            let e = applied_event(p, raw).events.last();
            &&& e matches EventV::Init { api_key, .. } ==> api_key.len() == 0
            &&& match event_json(e) {
                JsonV::Object(m) => forall|i: int|
                    0 <= i < m.len() ==> (#[trigger] m[i]).0 != "api_key"@,
                _ => true,
            }
        }),
{
    lemma_no_key(raw);
}

/// Every entry of the one list is an entry of the other.
pub open spec fn within(a: Seq<(Seq<char>, EventV)>, b: Seq<(Seq<char>, EventV)>) -> bool {
    forall|e: (Seq<char>, EventV)| #[trigger] a.contains(e) ==> b.contains(e)
}

/// An event stands under its own id, without its secrets.
pub open spec fn well_kept(e: (Seq<char>, EventV)) -> bool {
    event_id(e.1) == Some(e.0) && sanitized_of(e.1) == e.1
}

/// A vote stands under its two ids, the lesser first.
pub open spec fn well_voted(e: (Seq<char>, ComparisonV)) -> bool {
    &&& e.0 == e.1.a_id + "|"@ + e.1.b_id
    &&& !text_before(e.1.b_id, e.1.a_id)
    &&& e.1.a_id.len() > 0
    &&& e.1.b_id.len() > 0
}

/// What holds of every projection: each key occurs once, in order; what is
/// current is among all there ever was; and events and votes stand under their
/// ids.
pub open spec fn coherent(p: ProjectionV) -> bool {
    &&& sorted_keys(p.all)
    &&& sorted_keys(p.current)
    &&& sorted_keys(p.votes)
    &&& within(p.current, p.all)
    &&& forall|e: (Seq<char>, EventV)| #[trigger] p.all.contains(e) ==> well_kept(e)
    &&& forall|e: (Seq<char>, ComparisonV)| #[trigger] p.votes.contains(e) ==> well_voted(e)
}

proof fn lemma_restored(
    current: Seq<(Seq<char>, EventV)>,
    all: Seq<(Seq<char>, EventV)>,
    kept: Seq<Seq<char>>,
    n: int,
)
    requires
        sorted_keys(current),
        sorted_keys(all),
        within(current, all),
        0 <= n <= kept.len(),
    ensures
        ({
            let r = restored(current, all, kept, n);
            &&& sorted_keys(r)
            &&& forall|e: (Seq<char>, EventV)|
                #[trigger] r.contains(e) <==> current.contains(e) || all.contains(e)
                    && kept.take(n).contains(e.0)
        }),
    decreases n,
{
    let r = restored(current, all, kept, n);
    if n > 0 {
        lemma_restored(current, all, kept, n - 1);
        let c = restored(current, all, kept, n - 1);
        let k = kept[n - 1];
        let before = kept.take(n - 1);
        assert(kept.take(n) =~= before.push(k));
        law_read_key(all, k);
        if has_key(all, k) {
            law_set_key(c, k, at_key(all, k));
        }
        assert forall|e: (Seq<char>, EventV)|
            #[trigger] r.contains(e) <==> current.contains(e) || all.contains(e) && kept.take(
                n,
            ).contains(e.0) by {
            assert(before.push(k).contains(e.0) <==> before.contains(e.0) || e.0 == k) by {
                if before.contains(e.0) {
                    let j = choose|j: int| 0 <= j < before.len() && before[j] == e.0;
                    assert(before.push(k)[j] == e.0);
                }
                assert(before.push(k)[before.len() as int] == k);
            }
            assert(c.contains(e) <==> current.contains(e) || all.contains(e) && before.contains(
                e.0,
            ));
            if e.0 == k && all.contains(e) {
                assert(all.contains((k, e.1)));
                assert(e == (k, at_key(all, k)));
            }
        }
    } else {
        assert(kept.take(0) =~= Seq::<Seq<char>>::empty());
    }
}

proof fn lemma_released(current: Seq<(Seq<char>, EventV)>, released: Seq<Seq<char>>, n: int)
    requires
        sorted_keys(current),
        0 <= n <= released.len(),
    ensures
        ({
            let r = released_from(current, released, n);
            &&& sorted_keys(r)
            &&& forall|e: (Seq<char>, EventV)|
                #[trigger] r.contains(e) <==> current.contains(e) && !released.take(n).contains(e.0)
        }),
    decreases n,
{
    let r = released_from(current, released, n);
    if n > 0 {
        lemma_released(current, released, n - 1);
        let c = released_from(current, released, n - 1);
        let k = released[n - 1];
        let before = released.take(n - 1);
        assert(released.take(n) =~= before.push(k));
        law_remove_key(c, k);
        assert forall|e: (Seq<char>, EventV)|
            #[trigger] r.contains(e) <==> current.contains(e) && !released.take(n).contains(
                e.0,
            ) by {
            assert(before.push(k).contains(e.0) <==> before.contains(e.0) || e.0 == k) by {
                if before.contains(e.0) {
                    let j = choose|j: int| 0 <= j < before.len() && before[j] == e.0;
                    assert(before.push(k)[j] == e.0);
                }
                assert(before.push(k)[before.len() as int] == k);
            }
            assert(c.contains(e) <==> current.contains(e) && !before.contains(e.0));
        }
    } else {
        assert(released.take(0) =~= Seq::<Seq<char>>::empty());
    }
}

/// A compaction brings back the memories it keeps, whenever they were let go,
/// and lets those go that it releases; the others stay as they are.
pub proof fn law_compaction(
    p: ProjectionV,
    timestamp: i64,
    kept_ids: Seq<Seq<char>>,
    released_ids: Seq<Seq<char>>,
)
    requires
        coherent(p),
    ensures
        ({
            let q = applied_event(p, EventV::Compaction { timestamp, kept_ids, released_ids });
            &&& q.all == p.all
            &&& q.votes == p.votes
            &&& forall|e: (Seq<char>, EventV)|
                #[trigger] q.current.contains(e) <==> (p.current.contains(e) || p.all.contains(e)
                    && kept_ids.contains(e.0)) && !released_ids.contains(e.0)
        }),
{
    let n = kept_ids.len() as int;
    let m = released_ids.len() as int;
    let back = restored(p.current, p.all, kept_ids, n);
    lemma_restored(p.current, p.all, kept_ids, n);
    lemma_released(back, released_ids, m);
    assert(kept_ids.take(n) =~= kept_ids);
    assert(released_ids.take(m) =~= released_ids);
}

proof fn lemma_holding(p: ProjectionV, e: EventV)
    requires
        coherent(p),
        sanitized_of(e) == e,
    ensures
        coherent(holding(p, e)),
{
    match event_id(e) {
        Some(id) => {
            law_set_key(p.current, id, e);
            law_set_key(p.all, id, e);
            let q = holding(p, e);
            assert forall|x: (Seq<char>, EventV)| #[trigger] q.current.contains(x) implies q.all.contains(
                x,
            ) by {
                if x.0 != id {
                    assert(p.current.contains(x));
                    assert(p.all.contains(x));
                } else {
                    assert(x == (id, e));
                }
            }
            assert forall|x: (Seq<char>, EventV)| #[trigger] q.all.contains(x) implies well_kept(
                x,
            ) by {
                if x.0 != id {
                    assert(p.all.contains(x));
                } else {
                    assert(x == (id, e));
                }
            }
        },
        None => {},
    }
}

/// An event keeps a projection coherent, and is recorded without its secrets.
pub proof fn law_events_keep_coherence(p: ProjectionV, raw: EventV)
    requires
        coherent(p),
    ensures
        coherent(applied_event(p, raw)),
        applied_event(p, raw).events == p.events.push(sanitized_of(raw)),
{
    let e = sanitized_of(raw);
    assert(sanitized_of(e) == e);
    let q = changed_by(p, e);
    match e {
        EventV::Vote { timestamp, vote_a_id, vote_b_id, vote_score, reasoning } => {
            if vote_a_id.len() > 0 && vote_b_id.len() > 0 {
                let (k, v) = vote_entry(vote_a_id, vote_b_id, vote_score);
                law_set_key(p.votes, k, v);
                lemma_before_irreflexive(vote_a_id);
                lemma_before_total(vote_a_id, vote_b_id);
                if text_before(vote_a_id, vote_b_id) && text_before(vote_b_id, vote_a_id) {
                    lemma_before_transitive(vote_a_id, vote_b_id, vote_a_id);
                }
                assert forall|x: (Seq<char>, ComparisonV)| #[trigger] q.votes.contains(
                    x,
                ) implies well_voted(x) by {
                    if x.0 != k {
                        assert(p.votes.contains(x));
                    } else {
                        assert(x == (k, v));
                    }
                }
            }
        },
        EventV::Compaction { timestamp, kept_ids, released_ids } => {
            law_compaction(p, timestamp, kept_ids, released_ids);
            let n = kept_ids.len() as int;
            lemma_restored(p.current, p.all, kept_ids, n);
            lemma_released(
                restored(p.current, p.all, kept_ids, n),
                released_ids,
                released_ids.len() as int,
            );
            let r = applied_event(p, raw);
            assert(raw == e);
            assert forall|x: (Seq<char>, EventV)| #[trigger] r.current.contains(x) implies r.all.contains(
                x,
            ) by {
                if p.current.contains(x) {
                    assert(p.all.contains(x));
                }
            }
            assert(within(r.current, r.all));
        },
        EventV::Init { timestamp, id, capacity, model, vote_model, api_key } => lemma_holding(
            ProjectionV { capacity, model, vote_model, ..p },
            e,
        ),
        EventV::Declaration(m) => lemma_holding(ProjectionV { declaration: m.content, ..p }, e),
        _ => lemma_holding(ProjectionV { memories: one_more(p.memories), ..p }, e),
    }
}

/// Whatever the events, their projection is coherent, and it records each of
/// them in turn, without its secrets.
pub proof fn law_projections_are_coherent(events: Seq<EventV>, n: int)
    requires
        0 <= n <= events.len(),
    ensures
        coherent(projected(events, n)),
        projected(events, n).events == events.take(n).map_values(|e: EventV| sanitized_of(e)),
    decreases n,
{
    if n > 0 {
        law_projections_are_coherent(events, n - 1);
        law_events_keep_coherence(projected(events, n - 1), events[n - 1]);
        assert(events.take(n).map_values(|e: EventV| sanitized_of(e)) =~= events.take(
            n - 1,
        ).map_values(|e: EventV| sanitized_of(e)).push(sanitized_of(events[n - 1])));
    } else {
        assert(unborn().events =~= events.take(0).map_values(|e: EventV| sanitized_of(e)));
    }
}

/// How much a vote prefers the item `x`: its score where it names `x` first,
/// and the negated score where it names `x` second.
pub open spec fn preference(c: ComparisonV, x: Seq<char>) -> int {
    if c.a_id == x {
        c.score as int
    } else {
        -c.score
    }
}

/// The vote is on these two items.
pub open spec fn on_pair(c: ComparisonV, a: Seq<char>, b: Seq<char>) -> bool {
    (c.a_id == a && c.b_id == b) || (c.a_id == b && c.b_id == a)
}

/// After a vote on two items there is one vote on them, and it prefers the item
/// that was named first by the score that was given. Votes under other keys stay
/// as they are, and so do the memories.
pub proof fn law_vote_keeps_its_preference(
    p: ProjectionV,
    timestamp: i64,
    a: Seq<char>,
    b: Seq<char>,
    score: i32,
    reasoning: Seq<char>,
)
    requires
        coherent(p),
        a.len() > 0,
        b.len() > 0,
        a != b,
        score > i32::MIN,
    ensures
        ({
            let q = applied_event(
                p,
                EventV::Vote {
                    timestamp,
                    vote_a_id: a,
                    vote_b_id: b,
                    vote_score: score,
                    reasoning,
                },
            );
            &&& exists|e: (Seq<char>, ComparisonV)|
                #[trigger] q.votes.contains(e) && on_pair(e.1, a, b)
            &&& forall|e: (Seq<char>, ComparisonV)| #[trigger]
                q.votes.contains(e) && on_pair(e.1, a, b) ==> preference(e.1, a) == score
                    && preference(e.1, b) == -score
            &&& forall|e: (Seq<char>, ComparisonV), g: (Seq<char>, ComparisonV)|
                #![trigger q.votes.contains(e), q.votes.contains(g)]
                q.votes.contains(e) && q.votes.contains(g) && on_pair(e.1, a, b) && on_pair(
                    g.1,
                    a,
                    b,
                ) ==> e == g
            &&& forall|e: (Seq<char>, ComparisonV)|
                e.0 != a + "|"@ + b && e.0 != b + "|"@ + a ==> (#[trigger] q.votes.contains(e)
                    <==> p.votes.contains(e))
            &&& q.all == p.all
            &&& q.current == p.current
            &&& q.memories == p.memories
        }),
{
    let raw = EventV::Vote {
        timestamp,
        vote_a_id: a,
        vote_b_id: b,
        vote_score: score,
        reasoning,
    };
    let q = applied_event(p, raw);
    let (k, v) = vote_entry(a, b, score);
    law_set_key(p.votes, k, v);
    law_events_keep_coherence(p, raw);
    lemma_before_total(a, b);
    lemma_before_irreflexive(a);
    if text_before(a, b) && text_before(b, a) {
        lemma_before_transitive(a, b, a);
    }
    assert(q.votes.contains((k, v)) && on_pair((k, v).1, a, b));
    assert forall|e: (Seq<char>, ComparisonV)| #[trigger]
        q.votes.contains(e) && on_pair(e.1, a, b) implies e == (k, v) by {
        assert(well_voted(e));
        assert(well_voted((k, v)));
    }
}

/// A vote and the opposite vote with the items in the other order are the same
/// vote.
pub proof fn law_votes_may_name_either_first(
    p: ProjectionV,
    timestamp: i64,
    a: Seq<char>,
    b: Seq<char>,
    score: i32,
    reasoning: Seq<char>,
)
    requires
        a != b,
        score > i32::MIN,
    ensures
        applied_event(
            p,
            EventV::Vote { timestamp, vote_a_id: a, vote_b_id: b, vote_score: score, reasoning },
        ).votes == applied_event(
            p,
            EventV::Vote {
                timestamp,
                vote_a_id: b,
                vote_b_id: a,
                vote_score: (-score) as i32,
                reasoning,
            },
        ).votes,
{
    lemma_before_total(a, b);
    lemma_before_irreflexive(a);
    if text_before(a, b) && text_before(b, a) {
        lemma_before_transitive(a, b, a);
    }
}

/// A vote that names no item changes no vote and no memory.
pub proof fn law_votes_on_nothing_are_ignored(
    p: ProjectionV,
    timestamp: i64,
    a: Seq<char>,
    b: Seq<char>,
    score: i32,
    reasoning: Seq<char>,
)
    requires
        a.len() == 0 || b.len() == 0,
    ensures
        ({
            let q = applied_event(
                p,
                EventV::Vote {
                    timestamp,
                    vote_a_id: a,
                    vote_b_id: b,
                    vote_score: score,
                    reasoning,
                },
            );
            q.votes == p.votes && q.all == p.all && q.current == p.current && q.memories
                == p.memories
        }),
{
}

/// A memory with an id is held under that id from then on, and counts as one
/// more; what stands under other ids stays, and so do the votes.
pub proof fn law_memories_are_held(p: ProjectionV, raw: EventV, m: MemoryV)
    requires
        coherent(p),
        raw == EventV::Thought(m) || raw == EventV::Perception(m) || raw == EventV::Response(m),
        m.id.len() > 0,
    ensures
        ({
            let q = applied_event(p, raw);
            &&& q.current.contains((m.id, raw))
            &&& q.all.contains((m.id, raw))
            &&& forall|e: (Seq<char>, EventV)|
                e.0 != m.id ==> (#[trigger] q.current.contains(e) <==> p.current.contains(e))
            &&& forall|e: (Seq<char>, EventV)|
                e.0 != m.id ==> (#[trigger] q.all.contains(e) <==> p.all.contains(e))
            &&& p.memories < i64::MAX ==> q.memories == p.memories + 1
            &&& q.votes == p.votes
            &&& q.declaration == p.declaration
            &&& q.capacity == p.capacity
            &&& q.model == p.model
            &&& q.vote_model == p.vote_model
        }),
{
    law_set_key(p.current, m.id, raw);
    law_set_key(p.all, m.id, raw);
}

/// A declaration is what the projection declares from then on; it is no memory.
pub proof fn law_declarations_are_declared(p: ProjectionV, m: MemoryV)
    requires
        coherent(p),
        m.id.len() > 0,
    ensures
        ({
            let q = applied_event(p, EventV::Declaration(m));
            &&& q.declaration == m.content
            &&& q.current.contains((m.id, EventV::Declaration(m)))
            &&& q.all.contains((m.id, EventV::Declaration(m)))
            &&& q.memories == p.memories
            &&& q.votes == p.votes
            &&& q.capacity == p.capacity
            &&& q.model == p.model
            &&& q.vote_model == p.vote_model
        }),
{
    law_set_key(p.current, m.id, EventV::Declaration(m));
    law_set_key(p.all, m.id, EventV::Declaration(m));
}

/// A beginning sets the capacity and the models, and nothing else but for what
/// stands under its id.
pub proof fn law_beginnings_set_the_terms(
    p: ProjectionV,
    timestamp: i64,
    id: Seq<char>,
    capacity: i64,
    model: Seq<char>,
    vote_model: Seq<char>,
    api_key: Seq<char>,
)
    ensures
        ({
            let q = applied_event(
                p,
                EventV::Init { timestamp, id, capacity, model, vote_model, api_key },
            );
            &&& q.capacity == capacity
            &&& q.model == model
            &&& q.vote_model == vote_model
            &&& q.declaration == p.declaration
            &&& q.memories == p.memories
            &&& q.votes == p.votes
        }),
{
}

proof fn lemma_counted(m: Seq<(Seq<char>, EventV)>, n: int)
    requires
        0 <= n <= m.len(),
    ensures
        count_memories(m, n) == m.take(n).filter(
            |e: (Seq<char>, EventV)| e.1 is Thought || e.1 is Perception || e.1 is Response,
        ).len(),
    decreases n,
{
    let is_memory = |e: (Seq<char>, EventV)| e.1 is Thought || e.1 is Perception || e.1 is Response;
    reveal(Seq::filter);
    if n > 0 {
        lemma_counted(m, n - 1);
        assert(m.take(n).drop_last() =~= m.take(n - 1));
        assert(m.take(n).last() == m[n - 1]);
    }
}

/// A compaction counts the memories that are left: the thoughts, perceptions
/// and responses that are current.
pub proof fn law_compaction_counts_what_is_left(
    p: ProjectionV,
    timestamp: i64,
    kept_ids: Seq<Seq<char>>,
    released_ids: Seq<Seq<char>>,
)
    ensures
        ({
            let q = applied_event(p, EventV::Compaction { timestamp, kept_ids, released_ids });
            q.memories == q.current.filter(
                |e: (Seq<char>, EventV)| e.1 is Thought || e.1 is Perception || e.1 is Response,
            ).len() as i64
        }),
{
    let q = applied_event(p, EventV::Compaction { timestamp, kept_ids, released_ids });
    lemma_counted(q.current, q.current.len() as int);
    assert(q.current.take(q.current.len() as int) =~= q.current);
}

} // verus!
