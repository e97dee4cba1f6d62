//! The modules of the language: functions that only compute, and effects that
//! suspend the flow until the platform answers.
//!
//! What a call gives is data, JSON or a value; an effect gives the hop that
//! runs it and its variables. A ranking needs scores, which come from outside.

use crate::data::{
    array2, items_v, lemma_items, lemma_pairs, lemma_pairs_push, pairs_v, Data, DataV,
};
use crate::json::{
    json_read, json_text, lemma_values, of_outer, parse_json, print_json, values_v, Json, JsonV,
};
use crate::markdown::{hiccup_of, markdown_hiccup, marks_of, EXTENSIONS};
use crate::plan::{
    finalize, kept_count, named_pairs, nothing_to_compact, plan_of, plan_pairs, CompactionPlan,
    CompactionResult,
};
use crate::project::{events_of, project_json, projected, projection_json};
use crate::ranking::{
    components, connected_components, isolates, items_of, lists_v, ordered_scores,
    ranked_items_from_comparisons, ranked_v, ranking_of, score_lists, voted, votes_v, Comparison,
    ComparisonV, ItemV, RankedItem,
};
use crate::schema::{i64_bits, twos};
use crate::score::{
    before, before_of, cut, cut_of, has_substr, occurs_at, parse_score, score_from, strip_tags,
    stripped,
};
use crate::names::{in_order, lemma_in_order};
use crate::text::{chars_of, slice_of, texts};
use crate::value::{array_at, field_of, kind_of, map_at, text_of, CellV, Heap, LibId, Value};
use crate::whole::{cast, cast_of};
use crate::wire::json_of;
use vstd::prelude::*;
use vstd::string::*;

verus! {

/// What a call of a module native gives.
pub enum LibOut {
    Data(Data),
    Json(Json),
    Value(Value),
    Fail(String),
    /// The flow waits for the effect `hop`.
    Effect { hop: &'static str, vars: Data },
    /// The flow waits for the effect `hop` on a request.
    Request { hop: &'static str, req: Value },
    /// The scores of the votes are wanted, for each component in turn.
    Scores { ids: Vec<String>, votes: Vec<Comparison> },
}

/// The model of what a call gives.
pub enum LibOutV {
    Data(DataV),
    Json(JsonV),
    Value(Value),
    Fail(Seq<char>),
    Effect { hop: Seq<char>, vars: DataV },
    Request { hop: Seq<char>, req: Value },
    Scores { ids: Seq<Seq<char>>, votes: Seq<ComparisonV> },
}

impl View for LibOut {
    type V = LibOutV;

    open spec fn view(&self) -> LibOutV {
        match *self {
            LibOut::Data(d) => LibOutV::Data(d@),
            LibOut::Json(j) => LibOutV::Json(j@),
            LibOut::Value(v) => LibOutV::Value(v),
            LibOut::Fail(m) => LibOutV::Fail(m@),
            LibOut::Effect { hop, vars } => LibOutV::Effect { hop: hop@, vars: vars@ },
            LibOut::Request { hop, req } => LibOutV::Request { hop: hop@, req },
            LibOut::Scores { ids, votes } => LibOutV::Scores {
                ids: texts(ids@),
                votes: votes_v(votes@),
            },
        }
    }
}

/// Argument `i`; nil where it is missing.
pub open spec fn arg(args: Seq<Value>, i: int) -> Value {
    if 0 <= i < args.len() {
        args[i]
    } else {
        Value::Nil
    }
}

/// The text of argument `i`, if it is one.
pub open spec fn text_arg(h: Seq<CellV>, args: Seq<Value>, i: int) -> Option<Seq<char>> {
    text_of(h, arg(args, i))
}

/// The text of argument `i`; empty where it is none.
pub open spec fn text_or_empty(h: Seq<CellV>, args: Seq<Value>, i: int) -> Seq<char> {
    match text_arg(h, args, i) {
        Some(s) => s,
        None => Seq::empty(),
    }
}

/// The JSON value at the front of a text, if there is one.
pub uninterp spec fn json_prefix(s: Seq<char>) -> Option<JsonV>;

/// The first value of `serde_json::Deserializer::from_str` on the text, read as
/// `serde_json::Value`s; none where it does not parse. The result is named.
/// Floats in it are finite, and the members of an object are in order.
#[verifier::external_body]
fn first_json(s: &str) -> (r: Option<Json>)
    ensures
        match (r, json_prefix(s@)) {
            (Some(x), Some(y)) => x@ == y && crate::json::proper(x@),
            (None, None) => true,
            _ => false,
        },
{
    match serde_json::Deserializer::from_str(s).into_iter::<serde_json::Value>().next() {
        Some(Ok(v)) => Some(of_outer(&v)),
        _ => None,
    }
}

/// The first object embedded in the text from `i` on.
pub open spec fn embedded(s: Seq<char>, i: int) -> Option<JsonV>
    decreases s.len() - i,
{
    if i < 0 || i >= s.len() {
        None
    } else if s[i] == '{' {
        match json_prefix(s.skip(i)) {
            Some(j) => Some(j),
            None => embedded(s, i + 1),
        }
    } else {
        embedded(s, i + 1)
    }
}

/// The first object embedded in the text.
fn find_embedded(text: &str) -> (r: Option<Json>)
    ensures
        match (r, embedded(text@, 0)) {
            (Some(x), Some(y)) => x@ == y,
            (None, None) => true,
            _ => false,
        },
{
    let s: Vec<char> = chars_of(text);
    let mut i: usize = 0;
    while i < s.len()
        invariant
            i <= s@.len(),
            s@ == text@,
            embedded(text@, 0) == embedded(s@, i as int),
        decreases s@.len() - i,
    {
        if s[i] == '{' {
            let rest: String = slice_of(s.as_slice(), i, s.len());
            assert(rest@ =~= s@.skip(i as int));
            if let Some(j) = first_json(rest.as_str()) {
                return Some(j);
            }
        }
        i = i + 1;
    }
    None
}

/// The texts among the first `n` values.
pub open spec fn texts_among(h: Seq<CellV>, xs: Seq<Value>, n: int) -> Seq<Seq<char>>
    decreases n,
{
    if n <= 0 || n > xs.len() {
        Seq::empty()
    } else {
        match text_of(h, xs[n - 1]) {
            Some(s) => texts_among(h, xs, n - 1).push(s),
            None => texts_among(h, xs, n - 1),
        }
    }
}

/// The ids that a value lists.
pub open spec fn ids_of(h: Seq<CellV>, v: Value) -> Result<Seq<Seq<char>>, Seq<char>> {
    match v {
        Value::Array(i) => {
            let xs = array_at(h, i);
            Ok(texts_among(h, xs, xs.len() as int))
        },
        Value::Nil => Ok(Seq::empty()),
        _ => Err("rank expects an id array, got "@ + kind_of(v)),
    }
}

/// The score that a value is, in 32 bits.
pub open spec fn score_value(v: Value) -> Option<i32> {
    match v {
        Value::Int(i) => {
            let b = twos(i as int) as int % 0x1_0000_0000;
            Some(
                if b >= 0x8000_0000 {
                    (b - 0x1_0000_0000) as i32
                } else {
                    b as i32
                },
            )
        },
        Value::Float(b) => Some(cast_of(b, i32::MIN as int, i32::MAX as int) as i32),
        _ => None,
    }
}

/// The size that a value is.
pub open spec fn size_value(v: Value) -> u64 {
    match v {
        Value::Int(i) => if i >= 0 {
            i as u64
        } else {
            (-i) as u64
        },
        Value::Float(b) => cast_of(b, 0, u64::MAX as int) as u64,
        _ => 0,
    }
}

/// The budget that a value is.
pub open spec fn budget_value(v: Value) -> usize {
    if size_value(v) <= usize::MAX {
        size_value(v) as usize
    } else {
        usize::MAX
    }
}

/// The field `a` where it is a text, else the field `b`.
pub open spec fn either_field(h: Seq<CellV>, v: Value, a: Seq<char>, b: Seq<char>) -> Option<
    Seq<char>,
> {
    match text_of(h, field_of(h, v, a)) {
        Some(s) => Some(s),
        None => text_of(h, field_of(h, v, b)),
    }
}

/// The vote that a value is.
pub open spec fn vote_value(h: Seq<CellV>, v: Value) -> Option<ComparisonV> {
    let score = field_of(h, v, "score"@);
    let s = score_value(
        if score is Nil {
            field_of(h, v, "vote_score"@)
        } else {
            score
        },
    );
    match (either_field(h, v, "a"@, "a_id"@), either_field(h, v, "b"@, "b_id"@), s) {
        (Some(a_id), Some(b_id), Some(score)) => Some(ComparisonV { a_id, b_id, score }),
        _ => None,
    }
}

/// The votes among the first `n` values.
pub open spec fn votes_among(h: Seq<CellV>, xs: Seq<Value>, n: int) -> Seq<ComparisonV>
    decreases n,
{
    if n <= 0 || n > xs.len() {
        Seq::empty()
    } else {
        match vote_value(h, xs[n - 1]) {
            Some(c) => votes_among(h, xs, n - 1).push(c),
            None => votes_among(h, xs, n - 1),
        }
    }
}

/// The votes that a value lists, or holds as a map.
pub open spec fn votes_of(h: Seq<CellV>, v: Value) -> Result<Seq<ComparisonV>, Seq<char>> {
    match v {
        Value::Array(i) => {
            let xs = array_at(h, i);
            Ok(votes_among(h, xs, xs.len() as int))
        },
        Value::Dict(i) => {
            let xs = map_at(h, i).map_values(|e: (Value, Value)| e.1);
            Ok(votes_among(h, xs, xs.len() as int))
        },
        Value::Nil => Ok(Seq::empty()),
        _ => Err("rank expects comparisons, got "@ + kind_of(v)),
    }
}

/// The texts as data.
pub open spec fn texts_data(s: Seq<Seq<char>>) -> DataV {
    DataV::Array(s.map_values(|t: Seq<char>| DataV::Text(t)))
}

/// The names at the places `g`.
pub open spec fn names_at(ids: Seq<Seq<char>>, g: Seq<usize>, n: int) -> Seq<Seq<char>>
    decreases n,
{
    if n <= 0 || n > g.len() {
        Seq::empty()
    } else if (g[n - 1] as int) < ids.len() {
        names_at(ids, g, n - 1).push(ids[g[n - 1] as int])
    } else {
        names_at(ids, g, n - 1)
    }
}

/// The names of the places of a group.
pub open spec fn group_names(ids: Seq<Seq<char>>, g: Seq<usize>) -> DataV {
    texts_data(names_at(ids, g, g.len() as int))
}

/// The components of the votes, and the names without votes.
pub open spec fn components_data(ids: Seq<Seq<char>>, votes: Seq<ComparisonV>) -> DataV {
    let n = ids.len();
    let pairs = voted(ids, votes, votes.len() as int);
    DataV::Dict(
        seq![
            (
                DataV::Text("groups"@),
                DataV::Array(
                    components(n, pairs, n as int).map_values(|g: Seq<usize>| group_names(ids, g)),
                ),
            ),
            (DataV::Text("isolates"@), group_names(ids, isolates(n, pairs, n as int))),
        ],
    )
}

/// The planned pairs.
pub open spec fn plan_data(pairs: Seq<(Seq<char>, Seq<char>)>) -> DataV {
    DataV::Dict(
        seq![
            (
                DataV::Text("pairs"@),
                DataV::Array(
                    pairs.map_values(
                        |p: (Seq<char>, Seq<char>)|
                            DataV::Array(seq![DataV::Text(p.0), DataV::Text(p.1)]),
                    ),
                ),
            ),
        ],
    )
}

/// What a compaction keeps and releases.
pub open spec fn compaction_data(kept: Seq<Seq<char>>, released: Seq<Seq<char>>, skip: bool) -> DataV {
    DataV::Dict(
        seq![
            (DataV::Text("kept"@), texts_data(kept)),
            (DataV::Text("released"@), texts_data(released)),
            (DataV::Text("skip"@), DataV::Bool(skip)),
        ],
    )
}

/// The request of an effect: a map.
pub open spec fn request_of(hop: Seq<char>, args: Seq<Value>) -> LibOutV {
    let req = arg(args, 0);
    if req is Dict {
        LibOutV::Request { hop, req }
    } else {
        LibOutV::Fail("llm expects a request map ({ messages = [...] })"@)
    }
}

/// The variables of one text.
pub open spec fn one_text(k: Seq<char>, v: Seq<char>) -> DataV {
    DataV::Dict(seq![(DataV::Text(k), DataV::Text(v))])
}

/// The effect of a command, in a directory where one is given.
pub open spec fn bash_of(h: Seq<CellV>, args: Seq<Value>) -> LibOutV {
    match text_arg(h, args, 0) {
        None => LibOutV::Fail("bash(cmd) expects a command string"@),
        Some(cmd) => {
            let dir = text_or_empty(h, args, 1);
            LibOutV::Effect {
                hop: "bash"@,
                vars: if dir.len() == 0 {
                    one_text("cmd"@, cmd)
                } else {
                    DataV::Dict(
                        seq![
                            (DataV::Text("cmd"@), DataV::Text(cmd)),
                            (DataV::Text("dir"@), DataV::Text(dir)),
                        ],
                    )
                },
            }
        },
    }
}

/// The value of an optional score.
pub open spec fn score_out(s: Option<i32>) -> Value {
    match s {
        Some(n) => Value::Int(n as i64),
        None => Value::Nil,
    }
}

/// The projection of the events that a value lists.
pub open spec fn project_of(h: Seq<CellV>, args: Seq<Value>) -> LibOutV {
    match json_of(h, h.len(), arg(args, 0)) {
        Err(m) => LibOutV::Fail(m),
        Ok(j) => match j {
            JsonV::Array(xs) => {
                let es = events_of(xs, xs.len() as int);
                LibOutV::Json(projection_json(projected(es, es.len() as int)))
            },
            JsonV::Null => LibOutV::Json(projection_json(projected(Seq::empty(), 0))),
            _ => LibOutV::Fail("rank.project expects an event array, got "@ + json_text(j)),
        },
    }
}

/// What a ranking call needs before its scores: ids and votes.
pub open spec fn ranking_args(h: Seq<CellV>, ids: Value, votes: Value) -> Result<
    (Seq<Seq<char>>, Seq<ComparisonV>),
    Seq<char>,
> {
    match ids_of(h, ids) {
        Err(m) => Err(m),
        Ok(i) => match votes_of(h, votes) {
            Err(m) => Err(m),
            Ok(v) => Ok((i, v)),
        },
    }
}

/// The first answer to `rank.finalize`: there may be nothing to do.
pub open spec fn finalize_of(h: Seq<CellV>, args: Seq<Value>) -> LibOutV {
    match ids_of(h, arg(args, 0)) {
        Err(m) => LibOutV::Fail(m),
        Ok(all) => match ids_of(h, arg(args, 1)) {
            Err(m) => LibOutV::Fail(m),
            Ok(current) => match votes_of(h, arg(args, 2)) {
                Err(m) => LibOutV::Fail(m),
                Ok(votes) => {
                    let budget = budget_value(arg(args, 3));
                    if budget == 0 {
                        LibOutV::Fail("compaction budget must be at least 1"@)
                    } else if all.len() == 0 || (current.len() == all.len() && budget
                        >= all.len()) {
                        LibOutV::Data(compaction_data(Seq::empty(), Seq::empty(), true))
                    } else {
                        LibOutV::Scores { ids: all, votes }
                    }
                },
            },
        },
    }
}

/// What a call of a module native gives.
pub open spec fn lib_out(h: Seq<CellV>, id: LibId, args: Seq<Value>) -> LibOutV {
    match id {
        LibId::JsonEncode => match json_of(h, h.len(), arg(args, 0)) {
            Ok(j) => LibOutV::Data(DataV::Text(json_text(j))),
            Err(m) => LibOutV::Fail(m),
        },
        LibId::JsonDecode => match text_arg(h, args, 0) {
            None => LibOutV::Fail("json.decode expects a string"@),
            Some(s) => match json_read(s) {
                Ok(j) => LibOutV::Json(j),
                Err(_) => LibOutV::Value(Value::Nil),
            },
        },
        LibId::JsonFirst => match text_arg(h, args, 0) {
            None => LibOutV::Fail("json.first expects a string"@),
            Some(s) => match embedded(s, 0) {
                Some(j) => LibOutV::Json(j),
                None => LibOutV::Value(Value::Nil),
            },
        },
        LibId::Markdown => match text_arg(h, args, 0) {
            None => LibOutV::Fail("markdown(text) expects a string"@),
            Some(s) => LibOutV::Data(hiccup_of(marks_of(EXTENSIONS, s))),
        },
        LibId::Bash => bash_of(h, args),
        LibId::LlmCall => request_of("llm"@, args),
        LibId::LlmStream => request_of("llm_start"@, args),
        LibId::LlmNext => match text_arg(h, args, 0) {
            None => LibOutV::Fail("llm.next(handle) expects a stream handle"@),
            Some(s) => LibOutV::Effect { hop: "llm_next"@, vars: one_text("h"@, s) },
        },
        LibId::LlmModels => LibOutV::Effect {
            hop: "llm_models"@,
            vars: DataV::Dict(Seq::empty()),
        },
        LibId::RankScore => match ranking_args(h, arg(args, 0), arg(args, 1)) {
            Err(m) => LibOutV::Fail(m),
            Ok((ids, votes)) => LibOutV::Scores { ids, votes },
        },
        LibId::RankComponents => match ranking_args(h, arg(args, 0), arg(args, 1)) {
            Err(m) => LibOutV::Fail(m),
            Ok((ids, votes)) => LibOutV::Data(components_data(ids, votes)),
        },
        LibId::RankPlan => match ranking_args(h, arg(args, 0), arg(args, 1)) {
            Err(m) => LibOutV::Fail(m),
            Ok((ids, votes)) => LibOutV::Data(
                plan_data(plan_of(ids, votes, size_value(arg(args, 2)))),
            ),
        },
        LibId::RankFinalize => finalize_of(h, args),
        LibId::RankProject => project_of(h, args),
        LibId::RankParseScore => match text_arg(h, args, 0) {
            None => LibOutV::Fail("rank.parse_score expects a string"@),
            Some(s) => LibOutV::Value(score_out(score_from(s, 0, None))),
        },
        LibId::RankHas => match text_arg(h, args, 0) {
            None => LibOutV::Fail("rank.has(hay, needle) expects strings"@),
            Some(hay) => {
                let needle = text_or_empty(h, args, 1);
                LibOutV::Value(
                    Value::Bool(needle.len() > 0 && exists|i: int| occurs_at(hay, needle, i)),
                )
            },
        },
        LibId::RankStrip => match text_arg(h, args, 0) {
            None => LibOutV::Fail("rank.strip expects a string"@),
            Some(s) => LibOutV::Data(DataV::Text(stripped(s))),
        },
        LibId::RankBefore => match text_arg(h, args, 0) {
            None => LibOutV::Fail("rank.before(text, needle) expects strings"@),
            Some(s) => LibOutV::Data(DataV::Text(before_of(s, text_or_empty(h, args, 1)))),
        },
        LibId::RankCut => match text_arg(h, args, 0) {
            None => LibOutV::Fail("rank.cut(text, needle) expects strings"@),
            Some(s) => LibOutV::Data(DataV::Text(cut_of(s, text_or_empty(h, args, 1)))),
        },
    }
}

fn get_arg(args: &Vec<Value>, i: usize) -> (r: Value)
    ensures
        r == arg(args@, i as int),
{
    if i < args.len() {
        args[i]
    } else {
        Value::Nil
    }
}

fn get_text<'a>(heap: &'a Heap, args: &Vec<Value>, i: usize) -> (r: Option<&'a str>)
    ensures
        match (r, text_arg(heap@, args@, i as int)) {
            (Some(x), Some(y)) => x@ == y,
            (None, None) => true,
            _ => false,
        },
{
    heap.as_str(get_arg(args, i))
}

fn get_text_or_empty<'a>(heap: &'a Heap, args: &Vec<Value>, i: usize) -> (r: &'a str)
    ensures
        r@ == text_or_empty(heap@, args@, i as int),
{
    match get_text(heap, args, i) {
        Some(s) => s,
        None => {
            proof {
                reveal_strlit("");
                assert(""@ =~= Seq::<char>::empty());
            }
            ""
        },
    }
}

fn value_ids(heap: &Heap, v: Value) -> (r: Result<Vec<String>, String>)
    ensures
        match (r, ids_of(heap@, v)) {
            (Ok(x), Ok(y)) => texts(x@) == y,
            (Err(x), Err(y)) => x@ == y,
            _ => false,
        },
{
    match v {
        Value::Array(a) => {
            let xs: Vec<Value> = heap.items(a);
            let mut out: Vec<String> = Vec::new();
            let mut i: usize = 0;
            assert(texts(out@) =~= Seq::<Seq<char>>::empty());
            while i < xs.len()
                invariant
                    i <= xs@.len(),
                    texts(out@) == texts_among(heap@, xs@, i as int),
                decreases xs@.len() - i,
            {
                if let Some(s) = heap.as_str(xs[i]) {
                    let ghost before = out@;
                    let t: String = s.to_owned();
                    out.push(t);
                    assert(texts(out@) =~= texts(before).push(t@));
                }
                i = i + 1;
            }
            Ok(out)
        },
        Value::Nil => {
            let out: Vec<String> = Vec::new();
            assert(texts(out@) =~= Seq::<Seq<char>>::empty());
            Ok(out)
        },
        _ => {
            let mut m: String = "rank expects an id array, got ".to_owned();
            m.append(v.kind());
            Err(m)
        },
    }
}

fn value_num_i32(v: Value) -> (r: Option<i32>)
    ensures
        r == score_value(v),
{
    match v {
        Value::Int(i) => {
            let b: u64 = i64_bits(i) % 0x1_0000_0000;
            if b >= 0x8000_0000 {
                Some((b as i64 - 0x1_0000_0000) as i32)
            } else {
                Some(b as i32)
            }
        },
        Value::Float(b) => Some(cast(b, i32::MIN as i128, i32::MAX as i128) as i32),
        _ => None,
    }
}

fn value_u64(v: Value) -> (r: u64)
    ensures
        r == size_value(v),
{
    match v {
        Value::Int(i) => if i >= 0 {
            i as u64
        } else {
            (-(i as i128)) as u64
        },
        Value::Float(b) => cast(b, 0, u64::MAX as i128) as u64,
        _ => 0,
    }
}

fn value_budget(v: Value) -> (r: usize)
    ensures
        r == budget_value(v),
{
    let n: u64 = value_u64(v);
    if n <= usize::MAX as u64 {
        n as usize
    } else {
        usize::MAX
    }
}

fn text_field(heap: &Heap, v: Value, a: &str, b: &str) -> (r: Option<String>)
    ensures
        match (r, either_field(heap@, v, a@, b@)) {
            (Some(x), Some(y)) => x@ == y,
            (None, None) => true,
            _ => false,
        },
{
    match heap.as_str(heap.get_field(v, a)) {
        Some(s) => Some(s.to_owned()),
        None => match heap.as_str(heap.get_field(v, b)) {
            Some(s) => Some(s.to_owned()),
            None => None,
        },
    }
}

fn read_vote(heap: &Heap, v: Value) -> (r: Option<Comparison>)
    ensures
        match (r, vote_value(heap@, v)) {
            (Some(x), Some(y)) => x@ == y,
            (None, None) => true,
            _ => false,
        },
{
    let score: Value = heap.get_field(v, "score");
    let found: Value = match score {
        Value::Nil => heap.get_field(v, "vote_score"),
        _ => score,
    };
    match (
        text_field(heap, v, "a", "a_id"),
        text_field(heap, v, "b", "b_id"),
        value_num_i32(found),
    ) {
        (Some(a_id), Some(b_id), Some(score)) => Some(Comparison { a_id, b_id, score }),
        _ => None,
    }
}

fn read_votes(heap: &Heap, xs: &Vec<Value>) -> (r: Vec<Comparison>)
    ensures
        votes_v(r@) == votes_among(heap@, xs@, xs@.len() as int),
{
    let mut out: Vec<Comparison> = Vec::new();
    let mut i: usize = 0;
    assert(votes_v(out@) =~= Seq::<ComparisonV>::empty());
    while i < xs.len()
        invariant
            i <= xs@.len(),
            votes_v(out@) == votes_among(heap@, xs@, i as int),
        decreases xs@.len() - i,
    {
        if let Some(c) = read_vote(heap, xs[i]) {
            let ghost before = out@;
            out.push(c);
            assert(votes_v(out@) =~= votes_v(before).push(c@));
        }
        i = i + 1;
    }
    out
}

fn value_comparisons(heap: &Heap, v: Value) -> (r: Result<Vec<Comparison>, String>)
    ensures
        match (r, votes_of(heap@, v)) {
            (Ok(x), Ok(y)) => votes_v(x@) == y,
            (Err(x), Err(y)) => x@ == y,
            _ => false,
        },
{
    match v {
        Value::Array(a) => {
            let xs: Vec<Value> = heap.items(a);
            Ok(read_votes(heap, &xs))
        },
        Value::Dict(m) => {
            let es: Vec<(Value, Value)> = heap.entries(m);
            let mut xs: Vec<Value> = Vec::new();
            let mut i: usize = 0;
            while i < es.len()
                invariant
                    i <= es@.len(),
                    xs@.len() == i,
                    forall|j: int| 0 <= j < i ==> #[trigger] xs@[j] == es@[j].1,
                decreases es@.len() - i,
            {
                xs.push(es[i].1);
                i = i + 1;
            }
            assert(xs@ =~= map_at(heap@, m).map_values(|e: (Value, Value)| e.1));
            Ok(read_votes(heap, &xs))
        },
        Value::Nil => {
            let out: Vec<Comparison> = Vec::new();
            assert(votes_v(out@) =~= Seq::<ComparisonV>::empty());
            Ok(out)
        },
        _ => {
            let mut m: String = "rank expects comparisons, got ".to_owned();
            m.append(v.kind());
            Err(m)
        },
    }
}

pub(crate) fn list_data(v: &Vec<String>) -> (r: Data)
    ensures
        r@ == texts_data(texts(v@)),
{
    let mut out: Vec<Data> = Vec::new();
    let mut i: usize = 0;
    while i < v.len()
        invariant
            i <= v@.len(),
            out@.len() == i,
            forall|j: int| 0 <= j < i ==> (#[trigger] out@[j])@ == DataV::Text(v@[j]@),
        decreases v@.len() - i,
    {
        out.push(Data::Text(v[i].clone()));
        i = i + 1;
    }
    proof {
        lemma_items(out);
        let want = texts(v@).map_values(|t: Seq<char>| DataV::Text(t));
        assert forall|j: int| 0 <= j < out@.len() implies items_v(out)[j] == want[j] by {
            assert(items_v(out)[j] == out@[j]@);
            assert(out@[j]@ == DataV::Text(v@[j]@));
        }
        assert(items_v(out) =~= want);
    }
    Data::Array(out)
}

fn group_data(ids: &Vec<String>, g: &Vec<usize>) -> (r: Data)
    ensures
        r@ == group_names(texts(ids@), g@),
{
    let mut out: Vec<String> = Vec::new();
    let mut i: usize = 0;
    assert(texts(out@) =~= Seq::<Seq<char>>::empty());
    while i < g.len()
        invariant
            i <= g@.len(),
            texts(out@) == names_at(texts(ids@), g@, i as int),
        decreases g@.len() - i,
    {
        if g[i] < ids.len() {
            let ghost before = out@;
            let s: String = ids[g[i]].clone();
            assert(texts(ids@)[g@[i as int] as int] == s@);
            out.push(s);
            assert(texts(out@) =~= texts(before).push(s@));
        }
        i = i + 1;
    }
    list_data(&out)
}

/// A pair more.
pub(crate) fn push_field(m: &mut Vec<(Data, Data)>, k: &str, v: Data)
    ensures
        pairs_v(*final(m)) == pairs_v(*old(m)).push((DataV::Text(k@), v@)),
{
    let ghost before = *m;
    let key: Data = Data::Text(k.to_owned());
    m.push((key, v));
    proof {
        lemma_pairs_push(before, *m, key, v);
    }
}

/// No pairs.
pub(crate) fn no_fields() -> (r: Vec<(Data, Data)>)
    ensures
        pairs_v(r) == Seq::<(DataV, DataV)>::empty(),
{
    let r: Vec<(Data, Data)> = Vec::new();
    proof {
        lemma_pairs(r);
        assert(pairs_v(r) =~= Seq::<(DataV, DataV)>::empty());
    }
    r
}

/// The map of the pairs.
pub(crate) fn fields_data(m: Vec<(Data, Data)>) -> (r: Data)
    ensures
        r@ == DataV::Dict(pairs_v(m)),
{
    proof {
        lemma_pairs(m);
    }
    Data::Dict(m)
}

fn groups_data(ids: &Vec<String>, gs: &Vec<Vec<usize>>) -> (r: Data)
    ensures
        r@ == DataV::Array(
            lists_v(gs@).map_values(|g: Seq<usize>| group_names(texts(ids@), g)),
        ),
{
    let mut out: Vec<Data> = Vec::new();
    let mut i: usize = 0;
    while i < gs.len()
        invariant
            i <= gs@.len(),
            out@.len() == i,
            forall|j: int|
                0 <= j < i ==> (#[trigger] out@[j])@ == group_names(texts(ids@), gs@[j]@),
        decreases gs@.len() - i,
    {
        out.push(group_data(ids, &gs[i]));
        i = i + 1;
    }
    proof {
        lemma_items(out);
        let want = lists_v(gs@).map_values(|g: Seq<usize>| group_names(texts(ids@), g));
        assert forall|j: int| 0 <= j < out@.len() implies items_v(out)[j] == want[j] by {
            assert(items_v(out)[j] == out@[j]@);
            assert(out@[j]@ == group_names(texts(ids@), gs@[j]@));
        }
        assert(items_v(out) =~= want);
    }
    Data::Array(out)
}

fn rank_components(ids: &Vec<String>, votes: &Vec<Comparison>) -> (r: Data)
    ensures
        r@ == components_data(texts(ids@), votes_v(votes@)),
{
    let (groups, alone) = connected_components(ids, votes);
    let mut m: Vec<(Data, Data)> = no_fields();
    push_field(&mut m, "groups", groups_data(ids, &groups));
    push_field(&mut m, "isolates", group_data(ids, &alone));
    assert(pairs_v(m) =~= components_data(texts(ids@), votes_v(votes@))->Dict_0);
    fields_data(m)
}

fn rank_plan(ids: &Vec<String>, votes: &Vec<Comparison>, seed: u64) -> (r: Data)
    ensures
        r@ == plan_data(plan_of(texts(ids@), votes_v(votes@), seed)),
{
    let plan: CompactionPlan = plan_pairs(ids, votes, seed);
    let ps: &Vec<(String, String)> = &plan.pairs;
    let mut out: Vec<Data> = Vec::new();
    let mut i: usize = 0;
    while i < ps.len()
        invariant
            i <= ps@.len(),
            out@.len() == i,
            forall|j: int|
                0 <= j < i ==> (#[trigger] out@[j])@ == DataV::Array(
                    seq![DataV::Text(ps@[j].0@), DataV::Text(ps@[j].1@)],
                ),
        decreases ps@.len() - i,
    {
        out.push(array2(Data::Text(ps[i].0.clone()), Data::Text(ps[i].1.clone())));
        i = i + 1;
    }
    proof {
        lemma_items(out);
        let want = named_pairs(ps@).map_values(
            |p: (Seq<char>, Seq<char>)| DataV::Array(seq![DataV::Text(p.0), DataV::Text(p.1)]),
        );
        assert forall|j: int| 0 <= j < out@.len() implies items_v(out)[j] == want[j] by {
            assert(items_v(out)[j] == out@[j]@);
            assert(out@[j]@ == DataV::Array(
                seq![DataV::Text(ps@[j].0@), DataV::Text(ps@[j].1@)],
            ));
        }
        assert(items_v(out) =~= want);
    }
    let mut m: Vec<(Data, Data)> = no_fields();
    push_field(&mut m, "pairs", Data::Array(out));
    assert(pairs_v(m) =~= plan_data(plan_of(texts(ids@), votes_v(votes@), seed))->Dict_0);
    fields_data(m)
}

fn compaction(kept: &Vec<String>, released: &Vec<String>, skip: bool) -> (r: Data)
    ensures
        r@ == compaction_data(texts(kept@), texts(released@), skip),
{
    let mut m: Vec<(Data, Data)> = no_fields();
    push_field(&mut m, "kept", list_data(kept));
    push_field(&mut m, "released", list_data(released));
    push_field(&mut m, "skip", Data::Bool(skip));
    assert(pairs_v(m) =~= compaction_data(texts(kept@), texts(released@), skip)->Dict_0);
    fields_data(m)
}

fn rank_finalize(heap: &Heap, args: &Vec<Value>) -> (r: LibOut)
    ensures
        r@ == finalize_of(heap@, args@),
{
    let all: Vec<String> = match value_ids(heap, get_arg(args, 0)) {
        Ok(v) => v,
        Err(m) => {
            return LibOut::Fail(m);
        },
    };
    let current: Vec<String> = match value_ids(heap, get_arg(args, 1)) {
        Ok(v) => v,
        Err(m) => {
            return LibOut::Fail(m);
        },
    };
    let votes: Vec<Comparison> = match value_comparisons(heap, get_arg(args, 2)) {
        Ok(v) => v,
        Err(m) => {
            return LibOut::Fail(m);
        },
    };
    let budget: usize = value_budget(get_arg(args, 3));
    if budget == 0 {
        return LibOut::Fail("compaction budget must be at least 1".to_owned());
    }
    if nothing_to_compact(all.len(), current.len(), budget) {
        let none: Vec<String> = Vec::new();
        assert(texts(none@) =~= Seq::<Seq<char>>::empty());
        return LibOut::Data(compaction(&none, &none, true));
    }
    LibOut::Scores { ids: all, votes }
}

fn rank_project(heap: &Heap, args: &Vec<Value>) -> (r: LibOut)
    ensures
        r@ == project_of(heap@, args@),
{
    match heap.to_json(get_arg(args, 0)) {
        Err(m) => LibOut::Fail(m),
        Ok(j) => match &j {
            Json::Array(xs) => {
                proof {
                    lemma_values(*xs);
                }
                LibOut::Json(project_json(xs))
            },
            Json::Null => {
                let none: Vec<Json> = Vec::new();
                proof {
                    lemma_values(none);
                    assert(events_of(values_v(none), 0) =~= Seq::empty());
                }
                LibOut::Json(project_json(&none))
            },
            _ => {
                let mut m: String = "rank.project expects an event array, got ".to_owned();
                m.append(print_json(&j).as_str());
                LibOut::Fail(m)
            },
        },
    }
}

fn request(hop: &'static str, args: &Vec<Value>) -> (r: LibOut)
    ensures
        r@ == request_of(hop@, args@),
{
    let req: Value = get_arg(args, 0);
    match req {
        Value::Dict(_) => LibOut::Request { hop, req },
        _ => LibOut::Fail("llm expects a request map ({ messages = [...] })".to_owned()),
    }
}

fn text_vars(k: &str, v: &str) -> (r: Data)
    ensures
        r@ == one_text(k@, v@),
{
    let mut m: Vec<(Data, Data)> = no_fields();
    push_field(&mut m, k, Data::Text(v.to_owned()));
    assert(pairs_v(m) =~= one_text(k@, v@)->Dict_0);
    fields_data(m)
}

fn bash(heap: &Heap, args: &Vec<Value>) -> (r: LibOut)
    ensures
        r@ == bash_of(heap@, args@),
{
    match get_text(heap, args, 0) {
        None => LibOut::Fail("bash(cmd) expects a command string".to_owned()),
        Some(cmd) => {
            let dir = get_text_or_empty(heap, args, 1);
            if crate::auth::is_blank(dir) {
                LibOut::Effect { hop: "bash", vars: text_vars("cmd", cmd) }
            } else {
                let mut m: Vec<(Data, Data)> = no_fields();
                push_field(&mut m, "cmd", Data::Text(cmd.to_owned()));
                push_field(&mut m, "dir", Data::Text(dir.to_owned()));
                assert(pairs_v(m) =~= seq![
                    (DataV::Text("cmd"@), DataV::Text(cmd@)),
                    (DataV::Text("dir"@), DataV::Text(dir@)),
                ]);
                LibOut::Effect { hop: "bash", vars: fields_data(m) }
            }
        },
    }
}

fn fail(m: &str) -> (r: LibOut)
    ensures
        r@ == LibOutV::Fail(m@),
{
    LibOut::Fail(m.to_owned())
}

fn ranking_inputs(heap: &Heap, args: &Vec<Value>) -> (r: Result<
    (Vec<String>, Vec<Comparison>),
    String,
>)
    ensures
        match (r, ranking_args(heap@, arg(args@, 0), arg(args@, 1))) {
            (Ok((i, v)), Ok((j, w))) => texts(i@) == j && votes_v(v@) == w,
            (Err(x), Err(y)) => x@ == y,
            _ => false,
        },
{
    let ids: Vec<String> = value_ids(heap, get_arg(args, 0))?;
    let votes: Vec<Comparison> = value_comparisons(heap, get_arg(args, 1))?;
    Ok((ids, votes))
}

/// Calls a module native.
pub fn call_lib(heap: &Heap, id: LibId, args: &Vec<Value>) -> (r: LibOut)
    ensures
        r@ == lib_out(heap@, id, args@),
{
    match id {
        LibId::JsonEncode => match heap.to_json(get_arg(args, 0)) {
            Ok(j) => LibOut::Data(Data::Text(print_json(&j))),
            Err(m) => LibOut::Fail(m),
        },
        LibId::JsonDecode => match get_text(heap, args, 0) {
            None => fail("json.decode expects a string"),
            Some(s) => match parse_json(s) {
                Ok(j) => LibOut::Json(j),
                Err(_) => LibOut::Value(Value::Nil),
            },
        },
        LibId::JsonFirst => match get_text(heap, args, 0) {
            None => fail("json.first expects a string"),
            Some(s) => match find_embedded(s) {
                Some(j) => LibOut::Json(j),
                None => LibOut::Value(Value::Nil),
            },
        },
        LibId::Markdown => match get_text(heap, args, 0) {
            None => fail("markdown(text) expects a string"),
            Some(s) => LibOut::Data(markdown_hiccup(s)),
        },
        LibId::Bash => bash(heap, args),
        LibId::LlmCall => request("llm", args),
        LibId::LlmStream => request("llm_start", args),
        LibId::LlmNext => match get_text(heap, args, 0) {
            None => fail("llm.next(handle) expects a stream handle"),
            Some(s) => LibOut::Effect { hop: "llm_next", vars: text_vars("h", s) },
        },
        LibId::LlmModels => LibOut::Effect { hop: "llm_models", vars: fields_data(no_fields()) },
        LibId::RankScore => match ranking_inputs(heap, args) {
            Err(m) => LibOut::Fail(m),
            Ok((ids, votes)) => LibOut::Scores { ids, votes },
        },
        LibId::RankComponents => match ranking_inputs(heap, args) {
            Err(m) => LibOut::Fail(m),
            Ok((ids, votes)) => LibOut::Data(rank_components(&ids, &votes)),
        },
        LibId::RankPlan => match ranking_inputs(heap, args) {
            Err(m) => LibOut::Fail(m),
            Ok((ids, votes)) => LibOut::Data(
                rank_plan(&ids, &votes, value_u64(get_arg(args, 2))),
            ),
        },
        LibId::RankFinalize => rank_finalize(heap, args),
        LibId::RankProject => rank_project(heap, args),
        LibId::RankParseScore => match get_text(heap, args, 0) {
            None => fail("rank.parse_score expects a string"),
            Some(s) => match parse_score(s) {
                Some(n) => LibOut::Value(Value::Int(n as i64)),
                None => LibOut::Value(Value::Nil),
            },
        },
        LibId::RankHas => match get_text(heap, args, 0) {
            None => fail("rank.has(hay, needle) expects strings"),
            Some(hay) => {
                let needle = get_text_or_empty(heap, args, 1);
                LibOut::Value(Value::Bool(has_substr(hay, needle)))
            },
        },
        LibId::RankStrip => match get_text(heap, args, 0) {
            None => fail("rank.strip expects a string"),
            Some(s) => LibOut::Data(Data::Text(strip_tags(s))),
        },
        LibId::RankBefore => match get_text(heap, args, 0) {
            None => fail("rank.before(text, needle) expects strings"),
            Some(s) => LibOut::Data(
                Data::Text(crate::score::before(s, get_text_or_empty(heap, args, 1))),
            ),
        },
        LibId::RankCut => match get_text(heap, args, 0) {
            None => fail("rank.cut(text, needle) expects strings"),
            Some(s) => LibOut::Data(
                Data::Text(cut(s, get_text_or_empty(heap, args, 1))),
            ),
        },
    }
}

/// A ranked item as data; NaN is no score.
pub open spec fn item_data(x: ItemV) -> DataV {
    DataV::Dict(
        seq![
            (DataV::Text("id"@), DataV::Text(x.item)),
            (DataV::Text("score"@), DataV::Float(x.score)),
        ],
    )
}

/// What a ranking call gives once its scores are known.
pub open spec fn lib_scored(
    h: Seq<CellV>,
    id: LibId,
    args: Seq<Value>,
    scores: Seq<Seq<u64>>,
) -> LibOutV {
    match lib_out(h, id, args) {
        LibOutV::Scores { ids, votes } => {
            let ranked = ranking_of(ids, votes, scores);
            if id == LibId::RankFinalize {
                let current = ids_of(h, arg(args, 1))->Ok_0;
                let kept = items_of(ranked).take(
                    kept_count(ids.len(), budget_value(arg(args, 3))),
                );
                LibOutV::Data(
                    compaction_data(
                        kept,
                        in_order(current.to_set().difference(kept.to_set())),
                        false,
                    ),
                )
            } else {
                LibOutV::Data(DataV::Array(ranked.map_values(|x: ItemV| item_data(x))))
            }
        },
        other => other,
    }
}

fn item_to_data(x: &RankedItem) -> (r: Data)
    ensures
        r@ == item_data(x@),
{
    let mut m: Vec<(Data, Data)> = no_fields();
    push_field(&mut m, "id", Data::Text(x.item.clone()));
    push_field(&mut m, "score", Data::Float(x.score));
    assert(pairs_v(m) =~= item_data(x@)->Dict_0);
    fields_data(m)
}

/// Ends a ranking call with the scores that it wanted.
pub fn call_scored(heap: &Heap, id: LibId, args: &Vec<Value>, scores: &Vec<Vec<u64>>) -> (r: LibOut)
    requires
        forall|k: int| 0 <= k < scores@.len() ==> ordered_scores((#[trigger] scores@[k])@),
    ensures
        r@ == lib_scored(heap@, id, args@, score_lists(scores@)),
{
    match call_lib(heap, id, args) {
        LibOut::Scores { ids, votes } => {
            match id {
                LibId::RankFinalize => {
                    let current: Vec<String> = match value_ids(heap, get_arg(args, 1)) {
                        Ok(v) => v,
                        Err(m) => {
                            return LibOut::Fail(m);
                        },
                    };
                    let budget: usize = value_budget(get_arg(args, 3));
                    let out: CompactionResult = finalize(&ids, &current, &votes, scores, budget);
                    proof {
                        lemma_in_order(
                            texts(out.released@),
                            texts(current@).to_set().difference(texts(out.kept@).to_set()),
                        );
                    }
                    LibOut::Data(compaction(&out.kept, &out.released, false))
                },
                _ => {
                    let ranked: Vec<RankedItem> = ranked_items_from_comparisons(
                        &ids,
                        &votes,
                        scores,
                    );
                    let ghost rv = ranked_v(ranked@);
                    let mut out: Vec<Data> = Vec::new();
                    let mut i: usize = 0;
                    while i < ranked.len()
                        invariant
                            i <= ranked@.len(),
                            out@.len() == i,
                            forall|j: int|
                                0 <= j < i ==> (#[trigger] out@[j])@ == item_data(ranked@[j]@),
                        decreases ranked@.len() - i,
                    {
                        out.push(item_to_data(&ranked[i]));
                        i = i + 1;
                    }
                    proof {
                        lemma_items(out);
                        let want = rv.map_values(|x: ItemV| item_data(x));
                        assert forall|j: int| 0 <= j < out@.len() implies items_v(out)[j]
                            == want[j] by {
                            assert(items_v(out)[j] == out@[j]@);
                            assert(out@[j]@ == item_data(ranked@[j]@));
                        }
                        assert(items_v(out) =~= want);
                    }
                    LibOut::Data(Data::Array(out))
                },
            }
        },
        other => other,
    }
}

} // verus!
